//! Reading a puzzle from the lines of its description: first the number
//! of empty tubes, then one line for each full tube.

use crate::game_state::{GameState, MAX_TUBES};
use crate::tube::{colors_of_text, is_tube_text, Tube};
use vstd::prelude::*;
use vstd::string::*;

verus! {

/// Why a description is not a puzzle.
#[derive(Debug, Clone, Copy, PartialEq, Eq, Structural)]
pub enum LoadError {
    /// There is no first line.
    MissingCount,
    /// The first line is not a number of empty tubes.
    BadCount,
    /// The line with this index, counting the first line as 0, is not a
    /// tube.
    BadTube(usize),
    /// The puzzle would have more tubes than a move can name.
    TooManyTubes,
}

/// The value of a decimal digit; `None` for any other character.
pub open spec fn digit_value(c: char) -> Option<nat> {
    if '0' <= c && c <= '9' {
        Some((c as nat - 48) as nat)
    } else {
        None
    }
}

/// Whether a text is made of decimal digits alone.
pub open spec fn all_digits(text: Seq<char>) -> bool {
    forall|i: int| 0 <= i < text.len() ==> (#[trigger] digit_value(text[i])).is_some()
}

/// The number that decimal digits spell.
pub open spec fn decimal_value(digits: Seq<char>) -> nat
    decreases digits.len(),
{
    if digits.len() == 0 {
        0
    } else {
        decimal_value(digits.drop_last()) * 10 + digit_value(digits.last()).unwrap()
    }
}

/// The digits of a count: the text without a plus sign at its head.
pub open spec fn count_digits(text: Seq<char>) -> Seq<char> {
    if text.len() > 0 && text[0] == '+' {
        text.drop_first()
    } else {
        text
    }
}

/// The count that a text spells: one or more decimal digits, a plus sign
/// before them or not, with a value that fits 32 bits.
pub open spec fn count_of_text(text: Seq<char>) -> Option<u32> {
    let digits = count_digits(text);
    if digits.len() > 0 && all_digits(digits) && decimal_value(digits) <= u32::MAX {
        Some(decimal_value(digits) as u32)
    } else {
        None
    }
}

/// The tubes that a description spells: those of its lines after the
/// first, in their order, then as many empty tubes as the first line says.
pub open spec fn described_tubes(lines: Seq<Seq<char>>, empty: nat) -> Seq<Seq<u8>> {
    Seq::new(
        (lines.len() - 1 + empty) as nat,
        |i: int|
            if i < lines.len() - 1 {
                colors_of_text(lines[i + 1])
            } else {
                Seq::<u8>::empty()
            },
    )
}

/// The texts of a list of lines.
pub open spec fn line_texts(lines: Seq<String>) -> Seq<Seq<char>> {
    Seq::new(lines.len(), |i: int| lines[i]@)
}

/// Reads a count of empty tubes.
pub fn parse_count(text: &str) -> (r: Option<u32>)
    ensures
        r == count_of_text(text@),
{
    broadcast use is_ascii_spec_bytes;

    if !text.is_ascii() {
        proof {
            lemma_not_ascii_not_count(text@);
        }
        return None;
    }
    let bytes = text.as_bytes();
    assert(bytes@.len() == text@.len());
    let n = bytes.len();
    if n == 0 {
        return None;
    }
    let start: usize = if bytes[0] == 43 {
        1
    } else {
        0
    };
    let ghost digits = count_digits(text@);
    proof {
        assert(bytes@[0] == text@[0] as u8);
        assert((bytes@[0] == 43) == (text@[0] == '+'));
        assert(digits =~= text@.subrange(start as int, n as int));
    }
    if start == n {
        return None;
    }
    let mut value: u64 = 0;
    let mut i: usize = start;
    assert(digits.subrange(0, 0) =~= Seq::<char>::empty());
    while i < n
        invariant
            start <= i <= n,
            n == text@.len(),
            n == bytes@.len(),
            text.is_ascii(),
            forall|k: int| 0 <= k < n ==> #[trigger] bytes@[k] == text@[k] as u8,
            digits == text@.subrange(start as int, n as int),
            digits == count_digits(text@),
            all_digits(digits.subrange(0, i - start)),
            value == decimal_value(digits.subrange(0, i - start)),
            value <= u32::MAX,
        decreases n - i,
    {
        let b = bytes[i];
        let ghost c = text@[i as int];
        proof {
            assert(bytes@[i as int] == c as u8);
            assert('\0' <= c <= '\u{7f}');
            assert(digits[i - start] == c);
            assert(digits.subrange(0, i - start + 1).drop_last() =~= digits.subrange(0, i - start));
        }
        if b < 48 || b > 57 {
            assert(digit_value(digits[i - start]).is_none());
            return None;
        }
        let next: u64 = value * 10 + (b - 48) as u64;
        proof {
            assert(digit_value(c) == Some((b - 48) as nat));
            assert(next == decimal_value(digits.subrange(0, i - start + 1)));
            assert forall|k: int| 0 <= k < i - start + 1 implies (#[trigger] digit_value(
                digits.subrange(0, i - start + 1)[k],
            )).is_some() by {
                if k < i - start {
                    assert(digits.subrange(0, i - start + 1)[k] == digits.subrange(
                        0,
                        i - start,
                    )[k]);
                    assert(digit_value(digits.subrange(0, i - start)[k]).is_some());
                }
            }
        }
        if next > u32::MAX as u64 {
            proof {
                lemma_decimal_prefix(digits, i - start + 1);
                assert(decimal_value(digits) > u32::MAX);
            }
            return None;
        }
        value = next;
        i = i + 1;
    }
    proof {
        assert(digits.subrange(0, i - start) =~= digits);
    }
    Some(value as u32)
}

impl GameState {
    /// The puzzle that the lines describe, or why they describe none.
    /// The first line gives the number of empty tubes; each line after it
    /// gives one full tube, bottom first. The empty tubes come last.
    pub fn new_from_lines(lines: &Vec<String>) -> (r: Result<GameState, LoadError>)
        ensures
            r == Err::<GameState, LoadError>(LoadError::MissingCount) <==> lines@.len() == 0,
            r == Err::<GameState, LoadError>(LoadError::BadCount) <==> lines@.len() > 0
                && count_of_text(lines@[0]@).is_none(),
            forall|i: usize|
                r == Err::<GameState, LoadError>(LoadError::BadTube(i)) <==> {
                    &&& lines@.len() > 0
                    &&& count_of_text(lines@[0]@).is_some()
                    &&& 1 <= i < lines@.len()
                    &&& !is_tube_text(lines@[i as int]@)
                    &&& forall|j: int| 1 <= j < i ==> is_tube_text(#[trigger] lines@[j]@)
                },
            r == Err::<GameState, LoadError>(LoadError::TooManyTubes) <==> {
                &&& lines@.len() > 0
                &&& count_of_text(lines@[0]@).is_some()
                &&& forall|j: int| 1 <= j < lines@.len() ==> is_tube_text(#[trigger] lines@[j]@)
                &&& lines@.len() - 1 + count_of_text(lines@[0]@).unwrap() > MAX_TUBES
            },
            r.is_ok() ==> {
                &&& r.unwrap().wf()
                &&& r.unwrap()@ == described_tubes(
                    line_texts(lines@),
                    count_of_text(lines@[0]@).unwrap() as nat,
                )
            },
    {
        if lines.len() == 0 {
            return Err(LoadError::MissingCount);
        }
        let num_empty_tubes = match parse_count(lines[0].as_str()) {
            Some(n) => n,
            None => {
                return Err(LoadError::BadCount);
            },
        };
        let mut tubes: Vec<Tube> = Vec::new();
        let mut i: usize = 1;
        while i < lines.len()
            invariant
                1 <= i <= lines@.len(),
                count_of_text(lines@[0]@) == Some(num_empty_tubes),
                tubes@.len() == i - 1,
                forall|j: int| 1 <= j < i ==> is_tube_text(#[trigger] lines@[j]@),
                forall|k: int|
                    0 <= k < tubes@.len() ==> (#[trigger] tubes@[k]).wf() && tubes@[k]@
                        == colors_of_text(lines@[k + 1]@),
            decreases lines@.len() - i,
        {
            match Tube::parse(lines[i].as_str()) {
                Some(tube) => {
                    tubes.push(tube);
                },
                None => {
                    proof {
                        let r = Err::<GameState, LoadError>(LoadError::BadTube(i));
                        assert forall|k: usize|
                            r == Err::<GameState, LoadError>(LoadError::BadTube(k)) <==> {
                                &&& lines@.len() > 0
                                &&& count_of_text(lines@[0]@).is_some()
                                &&& 1 <= k < lines@.len()
                                &&& !is_tube_text(lines@[k as int]@)
                                &&& forall|j: int|
                                    1 <= j < k ==> is_tube_text(#[trigger] lines@[j]@)
                            } by {
                            if k < i && 1 <= k {
                                assert(is_tube_text(lines@[k as int]@));
                            }
                            if k > i {
                                assert(!is_tube_text(lines@[i as int]@));
                            }
                        }
                    }
                    return Err(LoadError::BadTube(i));
                },
            }
            i = i + 1;
        }
        if num_empty_tubes as usize > MAX_TUBES || tubes.len() > MAX_TUBES - num_empty_tubes as usize {
            return Err(LoadError::TooManyTubes);
        }
        let full = tubes.len();
        let mut added: u32 = 0;
        while added < num_empty_tubes
            invariant
                added <= num_empty_tubes,
                full == lines@.len() - 1,
                full + num_empty_tubes <= MAX_TUBES,
                tubes@.len() == full + added,
                forall|k: int|
                    0 <= k < full ==> (#[trigger] tubes@[k]).wf() && tubes@[k]@ == colors_of_text(
                        lines@[k + 1]@,
                    ),
                forall|k: int|
                    full <= k < tubes@.len() ==> (#[trigger] tubes@[k]).wf() && tubes@[k]@
                        == Seq::<u8>::empty(),
            decreases num_empty_tubes - added,
        {
            tubes.push(Tube::empty_tube());
            added = added + 1;
        }
        let state = GameState(tubes);
        proof {
            assert(state@ =~= described_tubes(line_texts(lines@), num_empty_tubes as nat));
        }
        Ok(state)
    }
}

/// A text with a character outside ASCII spells no count.
proof fn lemma_not_ascii_not_count(text: Seq<char>)
    requires
        !vstd::utf8::is_ascii_chars(text),
    ensures
        count_of_text(text).is_none(),
{
    let digits = count_digits(text);
    if digits.len() > 0 && all_digits(digits) {
        assert forall|i: int| 0 <= i < text.len() implies '\0' <= #[trigger] text[i] <= '\u{7f}' by {
            if text[0] == '+' {
                if i > 0 {
                    assert(digits[i - 1] == text[i]);
                    assert(digit_value(digits[i - 1]).is_some());
                }
            } else {
                assert(digit_value(digits[i]).is_some());
            }
        }
    }
}

/// Digits spell no smaller a number than their first few do.
proof fn lemma_decimal_prefix(digits: Seq<char>, n: int)
    requires
        0 <= n <= digits.len(),
    ensures
        decimal_value(digits.subrange(0, n)) <= decimal_value(digits),
    decreases digits.len(),
{
    if n == digits.len() {
        assert(digits.subrange(0, n) =~= digits);
    } else {
        lemma_decimal_prefix(digits.drop_last(), n);
        assert(digits.drop_last().subrange(0, n) =~= digits.subrange(0, n));
    }
}

} // verus!
