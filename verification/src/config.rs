//! The text that asks for a custom game: `<width>x<height>_<mines>`, as in
//! `20x10_30`.

use vstd::prelude::*;
use vstd::string::StrSliceExecFns;

verus! {

/// What is wrong with the text of a custom game.
#[derive(Debug, PartialEq, Eq, Structural, Copy, Clone)]
pub enum ConfigError {
    /// The text is not of the form `WxH_M`.
    Format,
    /// The mines are not a number.
    Mines,
    /// The width is not a number.
    Width,
    /// The height is not a number.
    Height,
}

/// `c` is a decimal digit.
pub open spec fn is_digit(c: char) -> bool {
    '0' <= c <= '9'
}

/// The number that a sequence of decimal digits stands for.
pub open spec fn digits_value(digits: Seq<char>) -> nat
    decreases digits.len(),
{
    if digits.len() == 0 {
        0
    } else {
        (10 * digits_value(digits.drop_last()) + (digits.last() as int - '0' as int)) as nat
    }
}

/// Every character of `digits` is a decimal digit.
pub open spec fn all_digits(digits: Seq<char>) -> bool {
    forall|i: int| 0 <= i < digits.len() ==> is_digit(#[trigger] digits[i])
}

/// `text` without the `+` that it may start with.
pub open spec fn unsigned(text: Seq<char>) -> Seq<char> {
    if text.len() > 0 && text[0] == '+' {
        text.skip(1)
    } else {
        text
    }
}

/// The number that `text` stands for: decimal digits, at least one, after
/// an optional `+`, with a value that a `usize` holds.
pub open spec fn number(text: Seq<char>) -> Option<nat> {
    let digits = unsigned(text);
    if digits.len() > 0 && all_digits(digits) && digits_value(digits) <= usize::MAX {
        Some(digits_value(digits))
    } else {
        None
    }
}

/// `mark` stands at `at` in `text`, and nowhere else.
pub open spec fn only_at(text: Seq<char>, mark: char, at: int) -> bool {
    &&& 0 <= at < text.len()
    &&& text[at] == mark
    &&& forall|j: int| 0 <= j < text.len() && j != at ==> #[trigger] text[j] != mark
}

/// The two parts of `text` around `mark`, if `mark` occurs exactly once.
pub open spec fn split_once(text: Seq<char>, mark: char) -> Option<(Seq<char>, Seq<char>)> {
    if exists|at: int| only_at(text, mark, at) {
        let at = choose|at: int| only_at(text, mark, at);
        Some((text.take(at), text.skip(at + 1)))
    } else {
        None
    }
}

/// What the text of a custom game asks for: width, height and mines. The
/// mines are read before the width and the height.
pub open spec fn custom_config(config: Seq<char>) -> Result<(nat, nat, nat), ConfigError> {
    match split_once(config, '_') {
        None => Err(ConfigError::Format),
        Some((geometry, mines)) => match number(mines) {
            None => Err(ConfigError::Mines),
            Some(mines) => match split_once(geometry, 'x') {
                None => Err(ConfigError::Format),
                Some((width, height)) => match number(width) {
                    None => Err(ConfigError::Width),
                    Some(width) => match number(height) {
                        None => Err(ConfigError::Height),
                        Some(height) => Ok((width, height, mines)),
                    },
                },
            },
        },
    }
}

/// More digits never stand for less.
proof fn lemma_digits_value_grows(digits: Seq<char>, upto: int)
    requires
        0 <= upto <= digits.len(),
        all_digits(digits),
    ensures
        digits_value(digits.take(upto)) <= digits_value(digits),
    decreases digits.len() - upto,
{
    if upto < digits.len() {
        lemma_digits_value_grows(digits, upto + 1);
        assert(digits.take(upto + 1).drop_last() =~= digits.take(upto));
        assert(is_digit(digits[upto]));
        assert(digits.take(upto + 1).last() == digits[upto]);
    } else {
        assert(digits.take(upto) =~= digits);
    }
}

/// The characters of a text.
fn characters(text: &str) -> (chars: Vec<char>)
    ensures
        chars@ == text@,
{
    let length = text.unicode_len();
    let mut chars: Vec<char> = Vec::new();
    let mut index: usize = 0;
    while index < length
        invariant
            length == text@.len(),
            index <= length,
            chars@ == text@.take(index as int),
        decreases length - index,
    {
        chars.push(text.get_char(index));
        index += 1;
        assert(chars@ =~= text@.take(index as int));
    }
    assert(text@.take(length as int) =~= text@);
    chars
}

/// Where `mark` stands between `start` and `end`, if it does so exactly
/// once.
fn find_only(chars: &Vec<char>, start: usize, end: usize, mark: char) -> (found: Option<usize>)
    requires
        start <= end <= chars@.len(),
    ensures
        found matches Some(at) ==> start <= at < end && only_at(
            chars@.subrange(start as int, end as int),
            mark,
            at - start,
        ),
        found is None ==> !exists|at: int|
            only_at(chars@.subrange(start as int, end as int), mark, at),
{
    let ghost text = chars@.subrange(start as int, end as int);
    let mut found: Option<usize> = None;
    let mut index = start;
    while index < end
        invariant
            start <= index <= end <= chars@.len(),
            text == chars@.subrange(start as int, end as int),
            found is None ==> forall|j: int| 0 <= j < index - start ==> #[trigger] text[j] != mark,
            found matches Some(at) ==> start <= at < index && text[at - start] == mark
                && forall|j: int|
                0 <= j < index - start && j != at - start ==> #[trigger] text[j] != mark,
        decreases end - index,
    {
        if chars[index] == mark {
            match found {
                Some(at) => {
                    assert forall|other: int| !only_at(text, mark, other) by {
                        if only_at(text, mark, other) {
                            assert(text[at - start] == mark);
                            assert(text[index - start] == mark);
                        }
                    }
                    return None;
                },
                None => {
                    found = Some(index);
                },
            }
        }
        index += 1;
    }
    proof {
        if found is None {
            assert forall|other: int| !only_at(text, mark, other) by {
                if only_at(text, mark, other) {
                    assert(text[other] != mark);
                }
            }
        }
    }
    found
}

/// The number that stands between `start` and `end`.
fn parse_number(chars: &Vec<char>, start: usize, end: usize) -> (parsed: Option<usize>)
    requires
        start <= end <= chars@.len(),
    ensures
        parsed matches Some(value) ==> number(chars@.subrange(start as int, end as int)) == Some(
            value as nat,
        ),
        parsed is None ==> number(chars@.subrange(start as int, end as int)) is None,
{
    let ghost text = chars@.subrange(start as int, end as int);
    let first = if start < end && chars[start] == '+' {
        start + 1
    } else {
        start
    };
    let ghost digits = unsigned(text);
    proof {
        if start < end {
            assert(text[0] == chars@[start as int]);
        }
        assert(digits =~= chars@.subrange(first as int, end as int));
    }
    if first == end {
        return None;
    }
    let mut value: usize = 0;
    let mut index = first;
    assert(digits.take(0) =~= Seq::<char>::empty());
    while index < end
        invariant
            start <= first <= index <= end <= chars@.len(),
            first < end,
            text == chars@.subrange(start as int, end as int),
            digits == unsigned(text),
            digits == chars@.subrange(first as int, end as int),
            forall|i: int| 0 <= i < index - first ==> is_digit(#[trigger] digits[i]),
            value == digits_value(digits.take(index - first)),
        decreases end - index,
    {
        let c = chars[index];
        assert(digits[index - first] == c);
        if !('0' <= c && c <= '9') {
            return None;
        }
        let digit = (c as u32 - '0' as u32) as usize;
        proof {
            assert(digits.take(index - first + 1).drop_last() =~= digits.take(index - first));
            assert(digits.take(index - first + 1).last() == c);
        }
        if value > (usize::MAX - digit) / 10 {
            proof {
                if all_digits(digits) {
                    lemma_digits_value_grows(digits, index - first + 1);
                }
            }
            return None;
        }
        value = value * 10 + digit;
        index += 1;
    }
    assert(digits.take(index - first) =~= digits);
    Some(value)
}

/// Read the text of a custom game, `<width>x<height>_<mines>`: width,
/// height and mines, in that order.
pub fn parse_custom(config: &str) -> (parsed: Result<(usize, usize, usize), ConfigError>)
    ensures
        parsed matches Ok(sizes) ==> custom_config(config@) == Ok::<(nat, nat, nat), ConfigError>(
            (sizes.0 as nat, sizes.1 as nat, sizes.2 as nat),
        ),
        parsed matches Err(e) ==> custom_config(config@) == Err::<(nat, nat, nat), ConfigError>(e),
{
    let chars = characters(config);
    let end = chars.len();
    assert(chars@.subrange(0, end as int) =~= config@);
    let bar = match find_only(&chars, 0, end, '_') {
        Some(bar) => bar,
        None => { return Err(ConfigError::Format); },
    };
    let ghost whole = chars@.subrange(0, end as int);
    let ghost geometry = chars@.subrange(0, bar as int);
    proof {
        assert(whole =~= config@);
        assert(only_at(config@, '_', bar as int));
        let at = choose|at: int| only_at(config@, '_', at);
        assert(at == bar);
        assert(config@.take(at) =~= geometry);
        assert(config@.skip(at + 1) =~= chars@.subrange(bar + 1, end as int));
    }
    let mines = match parse_number(&chars, bar + 1, end) {
        Some(mines) => mines,
        None => { return Err(ConfigError::Mines); },
    };
    let cross = match find_only(&chars, 0, bar, 'x') {
        Some(cross) => cross,
        None => { return Err(ConfigError::Format); },
    };
    proof {
        assert(only_at(geometry, 'x', cross as int));
        let at = choose|at: int| only_at(geometry, 'x', at);
        assert(at == cross);
        assert(geometry.take(at) =~= chars@.subrange(0, cross as int));
        assert(geometry.skip(at + 1) =~= chars@.subrange(cross + 1, bar as int));
    }
    let width = match parse_number(&chars, 0, cross) {
        Some(width) => width,
        None => { return Err(ConfigError::Width); },
    };
    let height = match parse_number(&chars, cross + 1, bar) {
        Some(height) => height,
        None => { return Err(ConfigError::Height); },
    };
    Ok((width, height, mines))
}

} // verus!
