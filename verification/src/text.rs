//! Reading words and numbers out of a line of text.

use vstd::prelude::*;

verus! {

/// Whether `c` is one of the ten decimal digits.
pub open spec fn is_digit(c: char) -> bool {
    '0' <= c && c <= '9'
}

/// The value of the digit `c`.
pub open spec fn digit_value(c: char) -> nat {
    (c as u32 - '0' as u32) as nat
}

/// Whether `text` holds decimal digits only.
pub open spec fn all_digits(text: Seq<char>) -> bool {
    forall|i: int| 0 <= i < text.len() ==> is_digit(#[trigger] text[i])
}

/// The number that the digits of `text` write in base ten.
pub open spec fn decimal(text: Seq<char>) -> nat
    decreases text.len(),
{
    if text.len() == 0 {
        0
    } else {
        decimal(text.drop_last()) * 10 + digit_value(text.last())
    }
}

/// The number that `text` writes: one or more decimal digits, with a value
/// that fits in 64 bits. Leading zeros are allowed; a sign is not.
pub open spec fn number(text: Seq<char>) -> Option<u64> {
    if text.len() > 0 && all_digits(text) && decimal(text) <= u64::MAX {
        Some(decimal(text) as u64)
    } else {
        None
    }
}

/// More digits never write a smaller number.
proof fn lemma_decimal_grows(text: Seq<char>, n: int)
    requires
        0 <= n <= text.len(),
    ensures
        decimal(text.subrange(0, n)) <= decimal(text),
    decreases text.len() - n,
{
    if n == text.len() {
        assert(text.subrange(0, n) =~= text);
    } else {
        lemma_decimal_grows(text, n + 1);
        let longer = text.subrange(0, n + 1);
        assert(longer.drop_last() =~= text.subrange(0, n));
        assert(decimal(longer) == decimal(text.subrange(0, n)) * 10 + digit_value(longer.last()));
    }
}

/// The characters of `text`, in order.
pub fn chars_of(text: &str) -> (chars: Vec<char>)
    ensures
        chars@ == text@,
{
    let mut chars: Vec<char> = Vec::new();
    for c in it: text.chars()
        invariant
            chars@ == it.seq().subrange(0, it.index() as int),
            it.seq() == text@,
    {
        chars.push(c);
        assert(it.seq().subrange(0, it.index() + 1) == it.seq().subrange(
            0,
            it.index() as int,
        ).push(c));
    }
    assert(text@.subrange(0, text@.len() as int) == text@);
    chars
}

/// The place of the first `c` in `chars` from `from` up to `to`.
pub(crate) fn find(chars: &Vec<char>, from: usize, to: usize, c: char) -> (at: Option<usize>)
    requires
        from <= to <= chars.len(),
    ensures
        match chars@.subrange(from as int, to as int).index_of_first(c) {
            Some(offset) => at is Some && at->0 == from + offset,
            None => at is None,
        },
        at is Some ==> from <= at->0 < to && chars@[at->0 as int] == c,
{
    let ghost text = chars@.subrange(from as int, to as int);
    let mut i: usize = from;
    while i < to
        invariant
            from <= i <= to <= chars.len(),
            text == chars@.subrange(from as int, to as int),
            forall|j: int| 0 <= j < i - from ==> text[j] != c,
        decreases to - i,
    {
        if chars[i] == c {
            proof {
                text.index_of_first_ensures(c);
                assert(text[i - from] == c);
            }
            return Some(i);
        }
        i += 1;
    }
    proof {
        text.index_of_first_ensures(c);
        assert(!text.contains(c));
    }
    None
}

/// Reads the number written in `chars` from `from` up to `to`.
pub(crate) fn parse_number(chars: &Vec<char>, from: usize, to: usize) -> (value: Option<u64>)
    requires
        from <= to <= chars.len(),
    ensures
        value == number(chars@.subrange(from as int, to as int)),
{
    let ghost text = chars@.subrange(from as int, to as int);
    if from == to {
        return None;
    }
    let mut value: u64 = 0;
    let mut i: usize = from;
    while i < to
        invariant
            from <= i <= to <= chars.len(),
            text == chars@.subrange(from as int, to as int),
            all_digits(text.subrange(0, i - from)),
            value == decimal(text.subrange(0, i - from)),
        decreases to - i,
    {
        let c: char = chars[i];
        let ghost prefix = text.subrange(0, i - from + 1);
        proof {
            assert(prefix.drop_last() =~= text.subrange(0, i - from));
            assert(prefix.last() == c);
        }
        if c < '0' || c > '9' {
            assert(!is_digit(text[i - from]));
            return None;
        }
        let digit: u64 = (c as u32 - '0' as u32) as u64;
        if value > (u64::MAX - digit) / 10 {
            proof {
                lemma_decimal_grows(text, i - from + 1);
            }
            return None;
        }
        value = value * 10 + digit;
        i += 1;
        proof {
            assert forall|j: int| 0 <= j < prefix.len() implies is_digit(#[trigger] prefix[j]) by {
                if j < prefix.len() - 1 {
                    assert(prefix[j] == text.subrange(0, i - from - 1)[j]);
                }
            }
        }
    }
    assert(text.subrange(0, to - from) =~= text);
    Some(value)
}

/// Whether `chars` from `from` up to `to` reads the same as `word`.
pub(crate) fn same_text(chars: &Vec<char>, from: usize, to: usize, word: &str) -> (same: bool)
    requires
        from <= to <= chars.len(),
    ensures
        same == (chars@.subrange(from as int, to as int) == word@),
{
    let letters = chars_of(word);
    let ghost text = chars@.subrange(from as int, to as int);
    if letters.len() != to - from {
        return false;
    }
    let mut i: usize = 0;
    while i < letters.len()
        invariant
            from <= to <= chars.len(),
            letters.len() == to - from,
            i <= letters.len(),
            letters@ == word@,
            text == chars@.subrange(from as int, to as int),
            forall|j: int| 0 <= j < i ==> text[j] == letters@[j],
        decreases letters.len() - i,
    {
        if chars[from + i] != letters[i] {
            assert(text[i as int] != word@[i as int]);
            return false;
        }
        i += 1;
    }
    assert(text =~= word@);
    true
}

/// Reads the number that `text` writes.
pub fn read_number(text: &str) -> (value: Option<u64>)
    ensures
        value == number(text@),
{
    let chars = chars_of(text);
    proof {
        assert(chars@.subrange(0, chars@.len() as int) =~= chars@);
    }
    parse_number(&chars, 0, chars.len())
}

} // verus!
