//! Hexadecimal text of offsets, as written in the wire form and in the
//! consumer offset snapshot.
use vstd::prelude::*;

verus! {

/// The upper-case hexadecimal digit for `d < 16`.
pub open spec fn hex_digit_char(d: nat) -> char {
    if d == 0 { '0' } else if d == 1 { '1' } else if d == 2 { '2' } else if d == 3 { '3' }
    else if d == 4 { '4' } else if d == 5 { '5' } else if d == 6 { '6' } else if d == 7 { '7' }
    else if d == 8 { '8' } else if d == 9 { '9' } else if d == 10 { 'A' } else if d == 11 { 'B' }
    else if d == 12 { 'C' } else if d == 13 { 'D' } else if d == 14 { 'E' } else { 'F' }
}

/// Whether `c` is a hexadecimal digit, in either case.
pub open spec fn is_hex_digit(c: char) -> bool {
    ('0' <= c && c <= '9') || ('a' <= c && c <= 'f') || ('A' <= c && c <= 'F')
}

/// The value of a hexadecimal digit.
pub open spec fn hex_digit_value(c: char) -> nat {
    if '0' <= c && c <= '9' {
        (c as u32 - '0' as u32) as nat
    } else if 'a' <= c && c <= 'f' {
        (c as u32 - 'a' as u32 + 10) as nat
    } else {
        (c as u32 - 'A' as u32 + 10) as nat
    }
}

/// Upper-case hexadecimal text of `n`, without leading zeros ("0" for zero).
pub open spec fn hex_text(n: nat) -> Seq<char>
    decreases n,
{
    if n < 16 {
        seq![hex_digit_char(n)]
    } else {
        hex_text(n / 16).push(hex_digit_char(n % 16))
    }
}

/// Whether `s` is a non-empty run of hexadecimal digits.
pub open spec fn is_hex_text(s: Seq<char>) -> bool {
    s.len() > 0 && forall|i: int| 0 <= i < s.len() ==> is_hex_digit(#[trigger] s[i])
}

/// The number that the hexadecimal digits `s` denote.
pub open spec fn hex_value(s: Seq<char>) -> nat
    decreases s.len(),
{
    if s.len() == 0 {
        0
    } else {
        hex_value(s.drop_last()) * 16 + hex_digit_value(s.last())
    }
}

proof fn lemma_digit_char(d: nat)
    requires
        d < 16,
    ensures
        is_hex_digit(hex_digit_char(d)),
        hex_digit_value(hex_digit_char(d)) == d,
{
}

/// The hexadecimal text of a number reads back as that number.
pub proof fn lemma_hex_round_trip(n: nat)
    ensures
        is_hex_text(hex_text(n)),
        hex_value(hex_text(n)) == n,
    decreases n,
{
    if n < 16 {
        lemma_digit_char(n);
        assert(hex_text(n).drop_last() =~= Seq::<char>::empty());
        assert(hex_value(Seq::<char>::empty()) == 0);
    } else {
        lemma_hex_round_trip(n / 16);
        lemma_digit_char(n % 16);
        let s = hex_text(n);
        assert(s.drop_last() =~= hex_text(n / 16));
        assert forall|i: int| 0 <= i < s.len() implies is_hex_digit(#[trigger] s[i]) by {
            if i < s.len() - 1 {
                assert(s[i] == hex_text(n / 16)[i]);
            }
        }
        assert(hex_value(s) == (n / 16) * 16 + n % 16);
        assert((n / 16) * 16 + n % 16 == n) by (nonlinear_arith);
    }
}

/// Extending a run of digits never lowers its value.
pub proof fn lemma_hex_value_grows(s: Seq<char>, j: int)
    requires
        0 <= j <= s.len(),
    ensures
        hex_value(s.subrange(0, j)) <= hex_value(s),
    decreases s.len(),
{
    if j < s.len() {
        assert(s.drop_last() =~= s.subrange(0, s.len() - 1));
        assert(s.subrange(0, j) =~= s.drop_last().subrange(0, j));
        lemma_hex_value_grows(s.drop_last(), j);
    } else {
        assert(s.subrange(0, j) =~= s);
    }
}

/// The digit character for `d`, exactly as `hex_digit_char` gives it.
fn digit_char(d: usize) -> (r: char)
    requires
        d < 16,
    ensures
        r == hex_digit_char(d as nat),
{
    if d == 0 { '0' } else if d == 1 { '1' } else if d == 2 { '2' } else if d == 3 { '3' }
    else if d == 4 { '4' } else if d == 5 { '5' } else if d == 6 { '6' } else if d == 7 { '7' }
    else if d == 8 { '8' } else if d == 9 { '9' } else if d == 10 { 'A' } else if d == 11 { 'B' }
    else if d == 12 { 'C' } else if d == 13 { 'D' } else if d == 14 { 'E' } else { 'F' }
}

/// The value of `c` if it is a hexadecimal digit.
pub fn hex_digit(c: char) -> (r: Option<u32>)
    ensures
        r is Some <==> is_hex_digit(c),
        r is Some ==> r->0 as nat == hex_digit_value(c) && r->0 < 16,
{
    if '0' <= c && c <= '9' {
        Some(c as u32 - '0' as u32)
    } else if 'a' <= c && c <= 'f' {
        Some(c as u32 - 'a' as u32 + 10)
    } else if 'A' <= c && c <= 'F' {
        Some(c as u32 - 'A' as u32 + 10)
    } else {
        None
    }
}

/// The upper-case hexadecimal text of `n`.
pub fn format_hex(n: usize) -> (r: String)
    ensures
        r@ == hex_text(n as nat),
    decreases n,
{
    let digits = "0123456789ABCDEF";
    proof {
        reveal_strlit("0123456789ABCDEF");
    }
    let d: usize = n % 16;
    let one = digits.substring_char(d, d + 1);
    assert(one@ =~= seq![hex_digit_char(d as nat)]) by {
        assert(one@[0] == digits@[d as int]);
    }
    if n < 16 {
        String::from_str(one)
    } else {
        let mut s = format_hex(n / 16);
        s.append(one);
        s
    }
}

/// The number that `s` denotes in hexadecimal, when `s` is a non-empty run
/// of hexadecimal digits whose value fits a `usize`.
pub open spec fn hex_number(s: Seq<char>) -> Option<usize> {
    if is_hex_text(s) && hex_value(s) <= usize::MAX {
        Some(hex_value(s) as usize)
    } else {
        None
    }
}

/// Reads `s` as a hexadecimal number.
pub fn parse_hex(s: &str) -> (r: Option<usize>)
    ensures
        r == hex_number(s@),
{
    let len = s.unicode_len();
    if len == 0 {
        return None;
    }
    let mut i: usize = 0;
    let mut n: usize = 0;
    while i < len
        invariant
            len == s@.len(),
            0 <= i <= len,
            forall|k: int| 0 <= k < i ==> is_hex_digit(#[trigger] s@[k]),
            n as nat == hex_value(s@.subrange(0, i as int)),
        decreases len - i,
    {
        let c = s.get_char(i);
        match hex_digit(c) {
            Some(d) => {
                assert(s@.subrange(0, i + 1).drop_last() =~= s@.subrange(0, i as int));
                if n > (usize::MAX - d as usize) / 16 {
                    proof {
                        let nv = n as int;
                        let dv = d as int;
                        assert(nv * 16 + dv > usize::MAX) by (nonlinear_arith)
                            requires
                                nv > (usize::MAX - dv) / 16,
                                0 <= dv < 16,
                        ;
                        lemma_hex_value_grows(s@, i + 1);
                    }
                    return None;
                }
                n = n * 16 + d as usize;
                i = i + 1;
            },
            None => {
                return None;
            },
        }
    }
    assert(s@.subrange(0, i as int) =~= s@);
    Some(n)
}

} // verus!
