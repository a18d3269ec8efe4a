//! Lowercase hexadecimal, the text form of keys and signatures in stamps.

use vstd::prelude::*;
use crate::text::{ascii_lower, lower, string_of};

verus! {

/// The lowercase hex digit of `n < 16`.
pub open spec fn hex_digit(n: int) -> char {
    if n < 10 {
        ((48 + n) as u32) as char
    } else {
        ((87 + n) as u32) as char
    }
}

/// Lowercase hex of `b`: two digits per byte, high nibble first.
pub open spec fn hex_spec(b: Seq<u8>) -> Seq<char> {
    Seq::new(2 * b.len(), |i: int| hex_digit(if i % 2 == 0 { b[i / 2] / 16 } else { b[i / 2] % 16 } as int))
}

/// The value of a lowercase hex digit, if `c` is one.
pub open spec fn hex_value(c: char) -> Option<int> {
    if 48 <= (c as int) && (c as int) <= 57 {
        Some((c as int) - 48)
    } else if 97 <= (c as int) && (c as int) <= 102 {
        Some((c as int) - 87)
    } else {
        None
    }
}

proof fn lemma_hex_digit(n: int)
    requires
        0 <= n < 16,
    ensures
        hex_value(hex_digit(n)) == Some(n),
{
    if n < 10 {
        assert(((48 + n) as u32) as int == 48 + n);
    } else {
        assert(((87 + n) as u32) as int == 87 + n);
    }
}

proof fn lemma_hex_value(c: char)
    requires
        hex_value(c) is Some,
    ensures
        hex_digit(hex_value(c).unwrap()) == c,
{
    let v = hex_value(c).unwrap();
    if v < 10 {
        assert(((48 + v) as u32) as int == c as int);
    } else {
        assert(((87 + v) as u32) as int == c as int);
    }
}

fn digit_of(n: u8) -> (c: char)
    requires
        n < 16,
    ensures
        c == hex_digit(n as int),
{
    let c = match n {
        0 => '0', 1 => '1', 2 => '2', 3 => '3', 4 => '4', 5 => '5', 6 => '6', 7 => '7',
        8 => '8', 9 => '9', 10 => 'a', 11 => 'b', 12 => 'c', 13 => 'd', 14 => 'e', _ => 'f',
    };
    if n < 10 {
        assert(((48 + n) as u32) as int == 48 + n);
    } else {
        assert(((87 + n) as u32) as int == 87 + n);
    }
    c
}

fn value_of(c: char) -> (r: Option<u8>)
    ensures
        r matches Some(v) ==> hex_value(c) == Some(v as int),
        r is None <==> hex_value(c) is None,
{
    if '0' <= c && c <= '9' {
        Some((c as u32 - 48) as u8)
    } else if 'a' <= c && c <= 'f' {
        Some((c as u32 - 87) as u8)
    } else {
        None
    }
}

/// Lowercase hex of `b`.
pub fn hex_encode(b: &[u8]) -> (r: String)
    ensures
        r@ == hex_spec(b@),
{
    let mut out: Vec<char> = Vec::new();
    let mut i: usize = 0;
    while i < b.len()
        invariant
            i <= b@.len(),
            out@.len() == 2 * i,
            forall|k: int| 0 <= k < 2 * i ==> out@[k] == #[trigger] hex_spec(b@)[k],
        decreases b@.len() - i,
    {
        let x = b[i];
        out.push(digit_of(x / 16));
        out.push(digit_of(x % 16));
        proof {
            assert(hex_spec(b@)[2 * i] == hex_digit((b@[i as int] / 16) as int));
            assert(hex_spec(b@)[2 * i + 1] == hex_digit((b@[i as int] % 16) as int));
        }
        i = i + 1;
    }
    assert(out@ =~= hex_spec(b@));
    string_of(out.as_slice())
}

/// The bytes whose lowercase hex is `s`, if any.
pub fn hex_decode(s: &[char]) -> (r: Option<Vec<u8>>)
    ensures
        r matches Some(v) ==> hex_spec(v@) == s@,
        forall|b: Seq<u8>| #[trigger] hex_spec(b) == s@ ==> (r matches Some(v) && v@ == b),
{
    if s.len() % 2 != 0 {
        proof {
            assert forall|b: Seq<u8>| #[trigger] hex_spec(b) == s@ implies false by {
                assert(hex_spec(b).len() == 2 * b.len());
            }
        }
        return None;
    }
    let n = s.len() / 2;
    let mut out: Vec<u8> = Vec::new();
    let mut i: usize = 0;
    while i < n
        invariant
            n * 2 == s@.len(),
            i <= n,
            out@.len() == i,
            forall|k: int| 0 <= k < 2 * i ==> s@[k] == #[trigger] hex_spec(out@)[k],
            forall|b: Seq<u8>| #[trigger] hex_spec(b) == s@ ==> b.len() == n && out@ == b.take(i as int),
        decreases n - i,
    {
        let hi = value_of(s[2 * i]);
        let lo = value_of(s[2 * i + 1]);
        if hi.is_none() || lo.is_none() {
            proof {
                assert forall|b: Seq<u8>| #[trigger] hex_spec(b) == s@ implies false by {
                    assert(hex_spec(b)[2 * i] == hex_digit((b[i as int] / 16) as int));
                    assert(hex_spec(b)[2 * i + 1] == hex_digit((b[i as int] % 16) as int));
                    lemma_hex_digit((b[i as int] / 16) as int);
                    lemma_hex_digit((b[i as int] % 16) as int);
                }
            }
            return None;
        }
        let h = hi.unwrap();
        let l = lo.unwrap();
        let x: u8 = h * 16 + l;
        let ghost prev = out@;
        out.push(x);
        proof {
            assert(x / 16 == h && x % 16 == l);
            lemma_hex_value(s@[2 * i]);
            lemma_hex_value(s@[2 * i + 1]);
            assert forall|k: int| 0 <= k < 2 * (i + 1) implies s@[k] == #[trigger] hex_spec(out@)[k] by {
                if k < 2 * i {
                    assert(out@[k / 2] == prev[k / 2]);
                    assert(hex_spec(prev)[k] == hex_spec(out@)[k]);
                }
            }
            assert forall|b: Seq<u8>| #[trigger] hex_spec(b) == s@ implies b.len() == n && out@ == b.take(i + 1) by {
                assert(hex_spec(b)[2 * i] == hex_digit((b[i as int] / 16) as int));
                assert(hex_spec(b)[2 * i + 1] == hex_digit((b[i as int] % 16) as int));
                lemma_hex_digit((b[i as int] / 16) as int);
                lemma_hex_digit((b[i as int] % 16) as int);
                assert(b[i as int] == (b[i as int] / 16) * 16 + b[i as int] % 16);
                assert(out@ =~= b.take(i + 1));
            }
        }
        i = i + 1;
    }
    assert(hex_spec(out@) =~= s@);
    proof {
        assert forall|b: Seq<u8>| #[trigger] hex_spec(b) == s@ implies out@ == b by {
            assert(b.take(i as int) =~= b);
        }
    }
    Some(out)
}

/// The bytes `s` denotes as hex in either letter case, if any (what
/// `hex::decode` accepts).
pub fn hex_decode_any(s: &str) -> (r: Option<Vec<u8>>)
    ensures
        r matches Some(v) ==> hex_spec(v@) == ascii_lower(s@),
        forall|b: Seq<u8>| #[trigger] hex_spec(b) == ascii_lower(s@) ==> r is Some && r->0@ == b,
{
    let l = lower(s);
    hex_decode(l.as_slice())
}

/// Hex is already lower case.
pub proof fn lemma_hex_is_lowercase(b: Seq<u8>)
    ensures
        ascii_lower(hex_spec(b)) == hex_spec(b),
{
    let h = hex_spec(b);
    assert forall|i: int| 0 <= i < h.len() implies #[trigger] crate::text::lower_char(h[i]) == h[i] by {
        let n: int = if i % 2 == 0 { b[i / 2] / 16 } else { b[i / 2] % 16 } as int;
        lemma_hex_digit(n);
    }
    assert(ascii_lower(h) =~= h);
}

} // verus!
