use vstd::prelude::*;
use crate::model::{InscriptionId, Txid};

verus! {

/// The value of a hexadecimal digit of either case, if `c` is one.
pub open spec fn hex_digit(c: char) -> Option<u8> {
    if '0' <= c && c <= '9' {
        Some((c as u32 - '0' as u32) as u8)
    } else if 'a' <= c && c <= 'f' {
        Some((c as u32 - 'a' as u32 + 10) as u8)
    } else if 'A' <= c && c <= 'F' {
        Some((c as u32 - 'A' as u32 + 10) as u8)
    } else {
        None
    }
}

pub open spec fn is_decimal_digit(c: char) -> bool {
    '0' <= c && c <= '9'
}

/// The number that a string of decimal digits writes.
pub open spec fn decimal_value(s: Seq<char>) -> nat
    decreases s.len(),
{
    if s.len() == 0 {
        0
    } else {
        decimal_value(s.drop_last()) * 10 + (s.last() as u32 - '0' as u32) as nat
    }
}

/// Decimal digits only, at least one, with a value that fits in a `u32`.
pub open spec fn parse_digits(d: Seq<char>) -> Option<u32> {
    if d.len() > 0 && (forall|i: int| 0 <= i < d.len() ==> is_decimal_digit(#[trigger] d[i]))
        && decimal_value(d) <= u32::MAX {
        Some(decimal_value(d) as u32)
    } else {
        None
    }
}

/// Text of a `u32` in decimal: an optional `+`, then the digits.
pub open spec fn parse_u32(s: Seq<char>) -> Option<u32> {
    if s.len() > 0 && s[0] == '+' {
        parse_digits(s.drop_first())
    } else {
        parse_digits(s)
    }
}

/// The bytes that `2 * n` hex digits write, two digits to a byte.
pub open spec fn hex_bytes(s: Seq<char>, n: nat) -> Seq<u8> {
    Seq::new(n, |k: int| (hex_digit(s[2 * k]).unwrap() * 16 + hex_digit(s[2 * k + 1]).unwrap()) as u8)
}

/// Text of an inscription id: 64 hex digits of the transaction id, `i`, and the index.
pub open spec fn parse_inscription_id(s: Seq<char>) -> Option<InscriptionIdParts> {
    if s.len() >= 66 && (forall|i: int| 0 <= i < 64 ==> (#[trigger] hex_digit(s[i])).is_some())
        && s[64] == 'i' && parse_u32(s.subrange(65, s.len() as int)).is_some() {
        Some(
            InscriptionIdParts {
                txid: hex_bytes(s, 32),
                index: parse_u32(s.subrange(65, s.len() as int)).unwrap(),
            },
        )
    } else {
        None
    }
}

pub struct InscriptionIdParts {
    pub txid: Seq<u8>,
    pub index: u32,
}

/// The first position at or after `i` that holds `c`, or the length if there is none.
pub open spec fn index_of_from(s: Seq<char>, c: char, i: int) -> int
    decreases s.len() - i,
{
    if i >= s.len() {
        s.len() as int
    } else if s[i] == c {
        i
    } else {
        index_of_from(s, c, i + 1)
    }
}

pub fn hex_digit_value(c: char) -> (r: Option<u8>)
    ensures
        r == hex_digit(c),
{
    if '0' <= c && c <= '9' {
        Some((c as u32 - '0' as u32) as u8)
    } else if 'a' <= c && c <= 'f' {
        Some((c as u32 - 'a' as u32 + 10) as u8)
    } else if 'A' <= c && c <= 'F' {
        Some((c as u32 - 'A' as u32 + 10) as u8)
    } else {
        None
    }
}

proof fn lemma_decimal_grows(s: Seq<char>, i: int)
    requires
        0 <= i <= s.len(),
        forall|j: int| 0 <= j < s.len() ==> is_decimal_digit(#[trigger] s[j]),
    ensures
        decimal_value(s.take(i)) <= decimal_value(s),
    decreases s.len() - i,
{
    if i < s.len() {
        lemma_decimal_grows(s, i + 1);
        assert(s.take(i + 1).drop_last() =~= s.take(i));
    }
    assert(s.take(s.len() as int) =~= s);
}

/// Reads a `u32` written in decimal, as `str::parse::<u32>` reads it.
pub fn read_u32(s: &Vec<char>, start: usize) -> (r: Option<u32>)
    requires
        start <= s@.len(),
    ensures
        r == parse_u32(s@.subrange(start as int, s@.len() as int)),
{
    let ghost whole = s@.subrange(start as int, s@.len() as int);
    let mut i = start;
    if i < s.len() && s[i] == '+' {
        i = i + 1;
    }
    let ghost digits = s@.subrange(i as int, s@.len() as int);
    assert(digits =~= if whole.len() > 0 && whole[0] == '+' { whole.drop_first() } else { whole });
    if i == s.len() {
        return None;
    }
    let first = i;
    let mut acc: u32 = 0;
    while i < s.len()
        invariant
            start <= first <= i <= s@.len(),
            first < s@.len(),
            digits == s@.subrange(first as int, s@.len() as int),
            whole == s@.subrange(start as int, s@.len() as int),
            digits == (if whole.len() > 0 && whole[0] == '+' { whole.drop_first() } else { whole }),
            forall|j: int| first <= j < i ==> is_decimal_digit(#[trigger] s@[j]),
            acc as nat == decimal_value(s@.subrange(first as int, i as int)),
        decreases s@.len() - i,
    {
        let c = s[i];
        if !('0' <= c && c <= '9') {
            assert(!is_decimal_digit(digits[i - first]));
            assert(!(forall|j: int| 0 <= j < digits.len() ==> is_decimal_digit(#[trigger] digits[j])));
            assert(parse_digits(digits).is_none());
            return None;
        }
        let d = (c as u32 - '0' as u32) as u32;
        assert(s@.subrange(first as int, i + 1).drop_last() =~= s@.subrange(first as int, i as int));
        if acc > (u32::MAX - d) / 10 {
            proof {
                let a = acc as int;
                let dd = d as int;
                assert(a * 10 + dd > u32::MAX) by (nonlinear_arith)
                    requires
                        a > (u32::MAX - dd) / 10,
                        0 <= dd <= 9,
                ;
                assert(decimal_value(s@.subrange(first as int, i + 1)) > u32::MAX);
                if forall|j: int| 0 <= j < digits.len() ==> is_decimal_digit(#[trigger] digits[j]) {
                    lemma_decimal_grows(digits, i + 1 - first);
                    assert(digits.take(i + 1 - first) =~= s@.subrange(first as int, i + 1));
                }
                assert(parse_digits(digits).is_none());
            }
            return None;
        }
        acc = acc * 10 + d;
        i = i + 1;
    }
    assert(s@.subrange(first as int, i as int) =~= digits);
    Some(acc)
}

/// Reads an inscription id, as its `FromStr` reads one.
pub fn read_inscription_id(s: &Vec<char>) -> (r: Option<InscriptionId>)
    ensures
        match parse_inscription_id(s@) {
            None => r.is_none(),
            Some(p) => r.is_some() && r.unwrap()@.txid == p.txid && r.unwrap()@.index == p.index,
        },
{
    if s.len() < 66 {
        return None;
    }
    let mut bytes: Vec<u8> = Vec::new();
    let mut k: usize = 0;
    while k < 32
        invariant
            k <= 32,
            s@.len() >= 66,
            forall|i: int| 0 <= i < 2 * k ==> (#[trigger] hex_digit(s@[i])).is_some(),
            bytes@ =~= hex_bytes(s@, k as nat),
        decreases 32 - k,
    {
        let hi = hex_digit_value(s[2 * k]);
        let lo = hex_digit_value(s[2 * k + 1]);
        match (hi, lo) {
            (Some(h), Some(l)) => {
                proof {
                    assert forall|i: int| 0 <= i < 2 * (k + 1) implies (#[trigger] hex_digit(s@[i])).is_some() by {
                        if i >= 2 * k {
                            assert(i == 2 * k || i == 2 * k + 1);
                        }
                    }
                }
                bytes.push((h * 16 + l) as u8);
                k = k + 1;
            },
            _ => {
                proof {
                    let bad: int = if hi.is_none() { 2 * k as int } else { 2 * k + 1 };
                    assert(hex_digit(s@[bad]).is_none());
                }
                return None;
            },
        }
    }
    if s[64] != 'i' {
        return None;
    }
    match read_u32(s, 65) {
        None => None,
        Some(index) => Some(InscriptionId { txid: Txid { bytes }, index }),
    }
}

/// The first position at or after `from` that holds `c`, or the length if there is none.
pub fn find_char(s: &Vec<char>, c: char, from: usize) -> (r: usize)
    requires
        from <= s@.len(),
    ensures
        r as int == index_of_from(s@, c, from as int),
        from <= r <= s@.len(),
{
    let mut i = from;
    while i < s.len() && s[i] != c
        invariant
            from <= i <= s@.len(),
            index_of_from(s@, c, from as int) == index_of_from(s@, c, i as int),
        decreases s@.len() - i,
    {
        i = i + 1;
    }
    i
}

} // verus!
