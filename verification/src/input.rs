//! Reading a move from a line of text: two numbers, the column and the row.

use vstd::prelude::*;

verus! {

/// Why a line of text is no move.
#[derive(Clone, Copy, Debug, PartialEq, Eq, Structural)]
pub enum InputError {
    /// The line does not hold exactly two words.
    Format,
    /// The first word is not the number of a column of the grid.
    Column,
    /// The second word is not the number of a row of the grid.
    Row,
}

/// Whether `c` is white space: one of the characters that separate words.
pub open spec fn is_space(c: char) -> bool {
    let code = c as u32;
    ||| 0x09 <= code <= 0x0D
    ||| code == 0x20
    ||| code == 0x85
    ||| code == 0xA0
    ||| code == 0x1680
    ||| 0x2000 <= code <= 0x200A
    ||| code == 0x2028
    ||| code == 0x2029
    ||| code == 0x202F
    ||| code == 0x205F
    ||| code == 0x3000
}

/// Whether `c` is one of the digits `0` to `9`.
pub open spec fn is_digit(c: char) -> bool {
    0x30 <= c as u32 <= 0x39
}

/// The words of a text: its longest runs of characters that are no white
/// space, from left to right.
///
/// Read from the left, a white space ends a word, a character after
/// another of the same word lengthens it, and any other begins a new word.
pub open spec fn words(text: Seq<char>) -> Seq<Seq<char>>
    decreases text.len(),
{
    if text.len() == 0 {
        Seq::empty()
    } else {
        let before = words(text.drop_last());
        if is_space(text.last()) {
            before
        } else if text.len() >= 2 && !is_space(text[text.len() - 2]) {
            before.drop_last().push(before.last().push(text.last()))
        } else {
            before.push(seq![text.last()])
        }
    }
}

/// The number that a string of digits writes in base ten.
pub open spec fn digits_value(digits: Seq<char>) -> nat
    decreases digits.len(),
{
    if digits.len() == 0 {
        0
    } else {
        digits_value(digits.drop_last()) * 10 + (digits.last() as u32 - 0x30) as nat
    }
}

/// The digits of a word that may begin with a plus sign.
pub open spec fn unsigned_part(word: Seq<char>) -> Seq<char> {
    if word.len() > 0 && word[0] == '+' {
        word.skip(1)
    } else {
        word
    }
}

/// The number that `word` writes, if it writes one that the machine can
/// hold: an optional plus sign, then one or more digits and nothing else.
pub open spec fn number(word: Seq<char>) -> Option<nat> {
    let digits = unsigned_part(word);
    if digits.len() > 0 && (forall|i: int| 0 <= i < digits.len() ==> is_digit(#[trigger] digits[i]))
        && digits_value(digits) <= usize::MAX {
        Some(digits_value(digits))
    } else {
        None
    }
}

/// The move that a line of text asks for on a grid of the given size, or
/// why it asks for none.
pub open spec fn move_of(line: Seq<char>, width: nat, height: nat) -> Result<(nat, nat), InputError> {
    let found = words(line);
    if found.len() != 2 {
        Err(InputError::Format)
    } else {
        match number(found[0]) {
            Some(x) if x < width => match number(found[1]) {
                Some(y) if y < height => Ok((x, y)),
                _ => Err(InputError::Row),
            },
            _ => Err(InputError::Column),
        }
    }
}

/// Every word holds at least one character and no white space, and a text
/// that ends on a character that is no white space ends on a word.
pub proof fn lemma_words_shape(text: Seq<char>)
    ensures
        forall|k: int|
            0 <= k < words(text).len() ==> (#[trigger] words(text)[k]).len() > 0 && forall|i: int|
                0 <= i < words(text)[k].len() ==> !is_space(#[trigger] words(text)[k][i]),
        text.len() > 0 && !is_space(text.last()) ==> words(text).len() > 0 && words(
            text,
        ).last().last() == text.last(),
    decreases text.len(),
{
    if text.len() > 0 {
        let before = words(text.drop_last());
        lemma_words_shape(text.drop_last());
        if is_space(text.last()) {
        } else if text.len() >= 2 && !is_space(text[text.len() - 2]) {
            assert(text.drop_last().last() == text[text.len() - 2]);
            let longer = before.last().push(text.last());
            let after = before.drop_last().push(longer);
            assert forall|k: int| 0 <= k < after.len() implies (#[trigger] after[k]).len() > 0
                && forall|i: int| 0 <= i < after[k].len() ==> !is_space(#[trigger] after[k][i]) by {
                if k < after.len() - 1 {
                    assert(after[k] == before[k]);
                } else {
                    assert(after[k] == longer);
                    assert forall|i: int| 0 <= i < longer.len() implies !is_space(
                        #[trigger] longer[i],
                    ) by {
                        if i < longer.len() - 1 {
                            assert(longer[i] == before.last()[i]);
                        }
                    }
                }
            }
        } else {
            let after = before.push(seq![text.last()]);
            assert forall|k: int| 0 <= k < after.len() implies (#[trigger] after[k]).len() > 0
                && forall|i: int| 0 <= i < after[k].len() ==> !is_space(#[trigger] after[k][i]) by {
                if k < after.len() - 1 {
                    assert(after[k] == before[k]);
                }
            }
        }
    }
}

/// A string of digits writes no less than any of its beginnings.
proof fn lemma_digits_value_grows(digits: Seq<char>, n: int)
    requires
        0 <= n <= digits.len(),
        forall|i: int| 0 <= i < digits.len() ==> is_digit(#[trigger] digits[i]),
    ensures
        digits_value(digits.take(n)) <= digits_value(digits),
    decreases digits.len() - n,
{
    if n == digits.len() {
        assert(digits.take(n) =~= digits);
    } else {
        lemma_digits_value_grows(digits, n + 1);
        assert(digits.take(n + 1).drop_last() =~= digits.take(n));
        assert(is_digit(digits[n]));
        assert(digits.take(n + 1).last() == digits[n]);
    }
}

/// Whether `c` is white space.
pub fn is_whitespace(c: char) -> (space: bool)
    ensures
        space == is_space(c),
{
    let code = c as u32;
    (0x09 <= code && code <= 0x0D) || code == 0x20 || code == 0x85 || code == 0xA0 || code
        == 0x1680 || (0x2000 <= code && code <= 0x200A) || code == 0x2028 || code == 0x2029
        || code == 0x202F || code == 0x205F || code == 0x3000
}

/// Splits a text into its words.
pub fn split_words(text: &Vec<char>) -> (found: Vec<Vec<char>>)
    ensures
        found@.len() == words(text@).len(),
        forall|k: int| 0 <= k < found@.len() ==> (#[trigger] found@[k])@ == words(text@)[k],
{
    let mut found: Vec<Vec<char>> = Vec::new();
    let mut word: Vec<char> = Vec::new();
    let mut inside = false;
    let mut i: usize = 0;
    while i < text.len()
        invariant
            i <= text.len(),
            inside <==> i > 0 && !is_space(text@[i - 1]),
            inside ==> words(text@.take(i as int)).len() == found@.len() + 1 && words(
                text@.take(i as int),
            ).last() == word@,
            !inside ==> words(text@.take(i as int)).len() == found@.len(),
            forall|k: int|
                0 <= k < found@.len() ==> (#[trigger] found@[k])@ == words(text@.take(i as int))[k],
        decreases text.len() - i,
    {
        let c = text[i];
        proof {
            assert(text@.take(i + 1).drop_last() =~= text@.take(i as int));
            assert(text@.take(i + 1).last() == c);
            if i > 0 {
                assert(text@.take(i + 1)[i - 1] == text@[i - 1]);
            }
        }
        if is_whitespace(c) {
            if inside {
                found.push(word);
                word = Vec::new();
            }
            inside = false;
        } else {
            if !inside {
                word = Vec::new();
            }
            word.push(c);
            proof {
                let before = words(text@.take(i as int));
                if inside {
                    assert(before.drop_last().push(before.last().push(c)).last() == word@);
                } else {
                    assert(word@ =~= seq![c]);
                }
            }
            inside = true;
        }
        i += 1;
    }
    proof {
        assert(text@.take(text@.len() as int) =~= text@);
    }
    if inside {
        found.push(word);
    }
    found
}

/// The number that `word` writes, or none where it writes none that the
/// machine can hold.
pub fn parse_number(word: &Vec<char>) -> (parsed: Option<usize>)
    ensures
        match parsed {
            Some(value) => number(word@) == Some(value as nat),
            None => number(word@) is None,
        },
{
    let start: usize = if word.len() > 0 && word[0] == '+' {
        1
    } else {
        0
    };
    let ghost digits = unsigned_part(word@);
    assert(digits =~= word@.skip(start as int));
    if start == word.len() {
        return None;
    }
    let mut value: usize = 0;
    let mut i: usize = start;
    proof {
        assert(digits.take(0) =~= Seq::<char>::empty());
    }
    while i < word.len()
        invariant
            start <= i <= word.len(),
            start <= 1,
            digits == word@.skip(start as int),
            digits == unsigned_part(word@),
            digits.len() > 0,
            forall|k: int| 0 <= k < i - start ==> is_digit(#[trigger] digits[k]),
            value == digits_value(digits.take(i - start)),
        decreases word.len() - i,
    {
        let c = word[i];
        let code = c as u32;
        assert(digits[i - start] == c);
        if !(0x30 <= code && code <= 0x39) {
            assert(!is_digit(digits[i - start]));
            return None;
        }
        let digit = (code - 0x30) as usize;
        proof {
            assert(digits.take(i - start + 1).drop_last() =~= digits.take(i - start));
            assert(digits.take(i - start + 1).last() == c);
        }
        let scaled = match value.checked_mul(10) {
            Some(scaled) => scaled,
            None => {
                proof {
                    if number(word@) is Some {
                        lemma_digits_value_grows(digits, i - start + 1);
                    }
                }
                return None;
            },
        };
        value = match scaled.checked_add(digit) {
            Some(sum) => sum,
            None => {
                proof {
                    if number(word@) is Some {
                        lemma_digits_value_grows(digits, i - start + 1);
                    }
                }
                return None;
            },
        };
        i += 1;
    }
    proof {
        assert(digits.take(digits.len() as int) =~= digits);
    }
    Some(value)
}

/// Reads a move from a line of text: the line must hold two words, the
/// number of a column and the number of a row of a grid of the given size.
pub fn parse_move(line: &Vec<char>, width: usize, height: usize) -> (parsed: Result<
    (usize, usize),
    InputError,
>)
    ensures
        match parsed {
            Ok(position) => move_of(line@, width as nat, height as nat) == Ok::<
                (nat, nat),
                InputError,
            >((position.0 as nat, position.1 as nat)),
            Err(error) => move_of(line@, width as nat, height as nat) == Err::<
                (nat, nat),
                InputError,
            >(error),
        },
{
    let found = split_words(line);
    if found.len() != 2 {
        return Err(InputError::Format);
    }
    let x = match parse_number(&found[0]) {
        Some(x) => x,
        None => {
            return Err(InputError::Column);
        },
    };
    if x >= width {
        return Err(InputError::Column);
    }
    let y = match parse_number(&found[1]) {
        Some(y) => y,
        None => {
            return Err(InputError::Row);
        },
    };
    if y >= height {
        return Err(InputError::Row);
    }
    Ok((x, y))
}

} // verus!
