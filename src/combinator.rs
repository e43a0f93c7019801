//! Byte classes that decide where tokens begin and end.

use vstd::prelude::*;

verus! {

pub const SPACE: u8 = 0x20;
pub const TAB: u8 = 0x09;
pub const NEWLINE: u8 = 0x0a;
pub const QUOTE: u8 = 0x22;
pub const BACKSLASH: u8 = 0x5c;
pub const SEMICOLON: u8 = 0x3b;
pub const DOLLAR: u8 = 0x24;
pub const STAR: u8 = 0x2a;

pub open spec fn spec_is_ws(c: u8) -> bool {
    c == SPACE || c == TAB
}

pub open spec fn spec_is_int(c: u8) -> bool {
    0x30 <= c <= 0x39
}

pub open spec fn spec_is_quote(c: u8) -> bool {
    c == QUOTE
}

/// Letters of either case and `_`: the bytes of a keyword or a variable name.
pub open spec fn spec_is_kw_or_var(c: u8) -> bool {
    (0x61 <= c <= 0x7a) || (0x41 <= c <= 0x5a) || c == 0x5f
}

/// The bytes `= - + / * % !`, from which operators are made.
pub open spec fn spec_is_op(c: u8) -> bool {
    c == 0x3d || c == 0x2d || c == 0x2b || c == 0x2f || c == STAR || c == 0x25 || c == 0x21
}

/// Lower-case letters: the bytes of a register name.
pub open spec fn spec_is_register_name(c: u8) -> bool {
    0x61 <= c <= 0x7a
}

pub fn is_ws(c: u8) -> (r: bool)
    ensures
        r == spec_is_ws(c),
{
    c == SPACE || c == TAB
}

pub fn is_int(c: u8) -> (r: bool)
    ensures
        r == spec_is_int(c),
{
    0x30 <= c && c <= 0x39
}

pub fn is_quote(c: u8) -> (r: bool)
    ensures
        r == spec_is_quote(c),
{
    c == QUOTE
}

pub fn is_kw_or_var(c: u8) -> (r: bool)
    ensures
        r == spec_is_kw_or_var(c),
{
    (0x61 <= c && c <= 0x7a) || (0x41 <= c && c <= 0x5a) || c == 0x5f
}

pub fn is_op(c: u8) -> (r: bool)
    ensures
        r == spec_is_op(c),
{
    c == 0x3d || c == 0x2d || c == 0x2b || c == 0x2f || c == STAR || c == 0x25 || c == 0x21
}

pub fn is_register_name(c: u8) -> (r: bool)
    ensures
        r == spec_is_register_name(c),
{
    0x61 <= c && c <= 0x7a
}

/// Whether two byte strings are equal.
pub fn bytes_eq(a: &[u8], b: &[u8]) -> (r: bool)
    ensures
        r == (a@ == b@),
{
    if a.len() != b.len() {
        return false;
    }
    let mut i: usize = 0;
    while i < a.len()
        invariant
            a@.len() == b@.len(),
            i <= a@.len(),
            a@.subrange(0, i as int) == b@.subrange(0, i as int),
        decreases a@.len() - i,
    {
        if a[i] != b[i] {
            assert(a@[i as int] != b@[i as int]);
            return false;
        }
        i = i + 1;
        assert(a@.subrange(0, i as int) =~= b@.subrange(0, i as int)) by {
            assert(a@.subrange(0, i as int) =~= a@.subrange(0, i - 1).push(a@[i - 1]));
            assert(b@.subrange(0, i as int) =~= b@.subrange(0, i - 1).push(b@[i - 1]));
        }
    }
    assert(a@ =~= a@.subrange(0, i as int));
    assert(b@ =~= b@.subrange(0, i as int));
    true
}

/// The value of a run of decimal digits, most significant first.
pub open spec fn dec_value(s: Seq<u8>) -> nat
    decreases s.len(),
{
    if s.len() == 0 {
        0
    } else {
        dec_value(s.drop_last()) * 10 + (s.last() - 0x30) as nat
    }
}

/// The decimal numeral of `n`, without leading zeros.
pub open spec fn decimal(n: nat) -> Seq<u8>
    decreases n,
{
    if n < 10 {
        seq![(0x30 + n) as u8]
    } else {
        decimal(n / 10).push((0x30 + n % 10) as u8)
    }
}

pub proof fn lemma_dec_value_prefix(s: Seq<u8>, i: int)
    requires
        0 <= i <= s.len(),
    ensures
        dec_value(s.subrange(0, i)) <= dec_value(s),
    decreases s.len(),
{
    if i < s.len() {
        lemma_dec_value_prefix(s.drop_last(), i);
        assert(s.drop_last().subrange(0, i) =~= s.subrange(0, i));
    } else {
        assert(s.subrange(0, i) =~= s);
    }
}

/// Reads a run of decimal digits; `None` when the value does not fit in a `u64`.
pub fn parse_decimal(digits: &Vec<u8>) -> (r: Option<u64>)
    requires
        forall|k: int| 0 <= k < digits@.len() ==> spec_is_int(#[trigger] digits@[k]),
    ensures
        dec_value(digits@) <= u64::MAX ==> r == Some(dec_value(digits@) as u64),
        dec_value(digits@) > u64::MAX ==> r is None,
{
    let mut v: u64 = 0;
    let mut i: usize = 0;
    while i < digits.len()
        invariant
            i <= digits@.len(),
            forall|k: int| 0 <= k < digits@.len() ==> spec_is_int(#[trigger] digits@[k]),
            v as nat == dec_value(digits@.subrange(0, i as int)),
        decreases digits@.len() - i,
    {
        let d: u64 = (digits[i] - 0x30) as u64;
        let ghost next = digits@.subrange(0, i + 1);
        assert(next.drop_last() =~= digits@.subrange(0, i as int));
        if v > (u64::MAX - d) / 10 {
            assert(v * 10 + d > u64::MAX) by (nonlinear_arith)
                requires
                    v > (u64::MAX - d) / 10,
                    d <= 9,
            ;
            proof {
                lemma_dec_value_prefix(digits@, i + 1);
            }
            return None;
        }
        assert(v * 10 + d <= u64::MAX) by (nonlinear_arith)
            requires
                v <= (u64::MAX - d) / 10,
                d <= 9,
        ;
        v = v * 10 + d;
        i = i + 1;
    }
    assert(digits@.subrange(0, i as int) =~= digits@);
    Some(v)
}

/// Appends the decimal numeral of `n`.
pub fn push_decimal(out: &mut Vec<u8>, n: u64)
    ensures
        final(out)@ == old(out)@ + decimal(n as nat),
    decreases n,
{
    if n >= 10 {
        push_decimal(out, n / 10);
    }
    out.push(0x30 + (n % 10) as u8);
    proof {
        if n < 10 {
            assert(decimal(n as nat) =~= seq![(0x30 + n) as u8]);
        }
    }
    assert(final(out)@ =~= old(out)@ + decimal(n as nat));
}

} // verus!
