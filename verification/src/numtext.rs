//! Decimal rendering and parsing of lengths, used by the envelope format to
//! length-prefix free-text blocks.

use vstd::prelude::*;

verus! {

/// The decimal digit for `d < 10`.
pub open spec fn digit_char(d: nat) -> char {
    ((48 + d) as u32) as char
}

/// Whether `c` is an ASCII decimal digit.
pub open spec fn is_digit(c: char) -> bool {
    48 <= (c as int) && (c as int) <= 57
}

/// The canonical decimal rendering of `n`: no sign, no leading zeros
/// (`0` renders as `"0"`).
pub open spec fn dec(n: nat) -> Seq<char>
    decreases n,
{
    if n < 10 {
        seq![digit_char(n)]
    } else {
        dec(n / 10).push(digit_char(n % 10))
    }
}

/// The value of a run of decimal digits (most significant first).
pub open spec fn digits_value(s: Seq<char>) -> nat
    decreases s.len(),
{
    if s.len() == 0 {
        0
    } else {
        digits_value(s.drop_last()) * 10 + ((s.last() as int) - 48) as nat
    }
}

/// A canonical decimal numeral: digits only, non-empty, no leading zero
/// unless it is exactly `"0"`.
pub open spec fn canonical_dec(s: Seq<char>) -> bool {
    &&& s.len() > 0
    &&& forall|i: int| 0 <= i < s.len() ==> is_digit(#[trigger] s[i])
    &&& (s.len() > 1 ==> s[0] != '0')
}

proof fn lemma_digit_char(d: nat)
    requires
        d < 10,
    ensures
        is_digit(digit_char(d)),
        (digit_char(d) as int) - 48 == d,
        digit_char(d) == '0' <==> d == 0,
{
    assert(((48 + d) as u32) as int == 48 + d);
    assert(('0' as int) == 48);
}

/// Appending one digit multiplies the value by ten and adds the digit.
proof fn lemma_digits_value_push(s: Seq<char>, c: char)
    ensures
        digits_value(s.push(c)) == digits_value(s) * 10 + ((c as int) - 48) as nat,
{
    assert(s.push(c).drop_last() =~= s);
    assert(s.push(c).last() == c);
}

/// The value of a single digit.
proof fn lemma_digits_value_single(c: char)
    ensures
        digits_value(seq![c]) == ((c as int) - 48) as nat,
{
    lemma_digits_value_push(Seq::<char>::empty(), c);
    assert(Seq::<char>::empty().push(c) =~= seq![c]);
}

/// `dec(n)` is canonical and reads back as `n`.
pub proof fn lemma_dec(n: nat)
    ensures
        canonical_dec(dec(n)),
        digits_value(dec(n)) == n,
        dec(n).len() <= n + 1,
    decreases n,
{
    if n < 10 {
        lemma_digit_char(n);
        lemma_digits_value_single(digit_char(n));
    } else {
        lemma_dec(n / 10);
        lemma_digit_char(n % 10);
        let p = dec(n / 10);
        let s = dec(n);
        assert(s == p.push(digit_char(n % 10)));
        lemma_digits_value_push(p, digit_char(n % 10));
        assert(n == (n / 10) * 10 + n % 10);
        assert(s[0] == p[0]);
        assert forall|i: int| 0 <= i < s.len() implies is_digit(#[trigger] s[i]) by {
            if i < s.len() - 1 {
                assert(s[i] == p[i]);
            }
        }
        if p.len() == 1 {
            assert(p[0] != '0') by {
                if p[0] == '0' {
                    assert(p =~= seq![p[0]]);
                    lemma_digits_value_single(p[0]);
                    assert(('0' as int) == 48);
                }
            }
        }
    }
}

/// A canonical numeral is the rendering of its value.
pub proof fn lemma_canonical_dec(s: Seq<char>)
    requires
        canonical_dec(s),
    ensures
        dec(digits_value(s)) == s,
    decreases s.len(),
{
    let v = digits_value(s);
    let last = ((s.last() as int) - 48) as nat;
    assert(is_digit(s[s.len() - 1]));
    let p = s.drop_last();
    assert(p.push(s.last()) =~= s);
    lemma_digits_value_push(p, s.last());
    if s.len() == 1 {
        assert(p =~= Seq::<char>::empty());
        assert(v == last);
        assert(digit_char(last) == s[0]) by {
            assert(((48 + last) as u32) as int == s[0] as int);
        }
        assert(dec(v) =~= s);
    } else {
        assert(canonical_dec(p)) by {
            assert forall|i: int| 0 <= i < p.len() implies is_digit(#[trigger] p[i]) by {
                assert(p[i] == s[i]);
            }
            assert(p[0] == s[0]);
        }
        lemma_canonical_dec(p);
        let pv = digits_value(p);
        assert(pv > 0) by {
            if p.len() > 1 {
                lemma_multi_digit_positive(p);
            } else {
                assert(p =~= seq![p[0]]);
                lemma_digits_value_single(p[0]);
                assert(p[0] == s[0]);
                assert(is_digit(p[0]));
                assert(('0' as int) == 48);
                assert(p[0] as int != 48) by {
                    if p[0] as int == 48 {
                        assert(p[0] == '0');
                    }
                }
            }
        }
        assert(v == pv * 10 + last);
        assert(v >= 10);
        assert(v / 10 == pv);
        assert(v % 10 == last);
        assert(digit_char(last) == s.last()) by {
            assert(((48 + last) as u32) as int == s.last() as int);
        }
        assert(dec(v) =~= s);
    }
}

/// A canonical numeral longer than one digit has a non-zero value.
proof fn lemma_multi_digit_positive(s: Seq<char>)
    requires
        canonical_dec(s),
        s.len() > 1,
    ensures
        digits_value(s) > 0,
    decreases s.len(),
{
    let p = s.drop_last();
    assert(p.push(s.last()) =~= s);
    assert(is_digit(s[s.len() - 1]));
    lemma_digits_value_push(p, s.last());
    assert(p[0] == s[0]);
    if p.len() > 1 {
        assert(canonical_dec(p)) by {
            assert forall|i: int| 0 <= i < p.len() implies is_digit(#[trigger] p[i]) by {
                assert(p[i] == s[i]);
            }
        }
        lemma_multi_digit_positive(p);
    } else {
        assert(p =~= seq![p[0]]);
        lemma_digits_value_single(p[0]);
        assert(is_digit(s[0]));
        assert(('0' as int) == 48);
        assert(s[0] as int != 48) by {
            if s[0] as int == 48 {
                assert(s[0] == '0');
            }
        }
    }
}

/// Reads the canonical decimal numeral that starts at `pos` and ends just
/// before the first `term` at or after `pos`; `None` when there is no such
/// numeral or its value exceeds `limit`.
pub fn read_dec_until(c: &[char], pos: usize, term: char, limit: usize) -> (r: Option<(usize, usize)>)
    requires
        pos <= c@.len(),
        !is_digit(term),
    ensures
        r matches Some((v, e)) ==> pos < e < c@.len() && c@[e as int] == term
            && c@.subrange(pos as int, e as int) == dec(v as nat) && v <= limit,
        forall|n: nat, e: int| pos < e < c@.len() && c@[e] == term && n <= limit
            && c@.subrange(pos as int, e) == dec(n) ==> r == Some((n as usize, e as usize)),
{
    let mut i = pos;
    let mut v: usize = 0;
    let mut ok = true;
    while i < c.len() && c[i] != term
        invariant
            pos <= i <= c@.len(),
            ok ==> (forall|k: int| pos <= k < i ==> is_digit(#[trigger] c@[k])),
            ok ==> v == digits_value(c@.subrange(pos as int, i as int)),
            ok ==> v <= limit,
            !ok ==> !(forall|k: int| pos <= k < i ==> is_digit(#[trigger] c@[k]))
                || digits_value(c@.subrange(pos as int, i as int)) > limit,
            forall|k: int| pos <= k < i ==> c@[k] != term,
            !is_digit(term),
        decreases c@.len() - i,
    {
        let ch = c[i];
        let ghost prev = c@.subrange(pos as int, i as int);
        proof {
            assert(c@.subrange(pos as int, i + 1).drop_last() =~= prev);
            assert(c@.subrange(pos as int, i + 1).last() == ch);
        }
        if ok {
            if ch < '0' || ch > '9' {
                ok = false;
            } else {
                let d = (ch as u32 - 48) as usize;
                if v > limit / 10 || d > limit || v * 10 > limit - d {
                    ok = false;
                    proof {
                        assert(digits_value(c@.subrange(pos as int, i + 1)) == v * 10 + d);
                        assert(v * 10 + d > limit) by (nonlinear_arith)
                            requires v > limit / 10 || d > limit || v * 10 > limit - d, d <= 9, limit >= 0;
                    }
                } else {
                    v = v * 10 + d;
                }
            }
        } else {
            proof {
                if forall|k: int| pos <= k < i + 1 ==> is_digit(#[trigger] c@[k]) {
                    assert(forall|k: int| pos <= k < i ==> is_digit(#[trigger] c@[k]));
                    let a = digits_value(prev);
                    assert(digits_value(c@.subrange(pos as int, i + 1)) == a * 10 + ((ch as int) - 48) as nat);
                    assert(a * 10 + ((ch as int) - 48) as nat >= a) by (nonlinear_arith)
                        requires a >= 0, (ch as int) - 48 >= 0;
                }
            }
        }
        i = i + 1;
    }
    let ghost s = c@.subrange(pos as int, i as int);
    let found = i < c.len();
    if !found || !ok || i == pos || (i > pos + 1 && c[pos] == '0') {
        proof {
            assert forall|n: nat, e: int| pos < e < c@.len() && c@[e] == term && n <= limit
                && c@.subrange(pos as int, e) == dec(n) implies false by {
                lemma_dec(n);
                let d = c@.subrange(pos as int, e);
                if e < i {
                    assert(c@[e] != term);
                }
                if e > i {
                    assert(c@[i as int] == term);
                    assert(d[i - pos] == c@[i as int]);
                    assert(is_digit(d[i - pos]));
                }
                assert(e == i);
                assert(d =~= s);
                if !ok {
                    assert(forall|k: int| pos <= k < i ==> is_digit(#[trigger] c@[k])) by {
                        assert forall|k: int| pos <= k < i implies is_digit(#[trigger] c@[k]) by {
                            assert(d[k - pos] == c@[k]);
                        }
                    }
                }
                if i > pos + 1 && c@[pos as int] == '0' {
                    assert(d[0] == c@[pos as int]);
                }
            }
        }
        return None;
    }
    proof {
        assert(canonical_dec(s)) by {
            assert forall|k: int| 0 <= k < s.len() implies is_digit(#[trigger] s[k]) by {
                assert(s[k] == c@[pos + k]);
            }
            assert(s[0] == c@[pos as int]);
        }
        lemma_canonical_dec(s);
        assert forall|n: nat, e: int| pos < e < c@.len() && c@[e] == term && n <= limit
            && c@.subrange(pos as int, e) == dec(n) implies n == v && e == i by {
            lemma_dec(n);
            let d = c@.subrange(pos as int, e);
            if e < i {
                assert(c@[e] != term);
            }
            if e > i {
                assert(d[i - pos] == c@[i as int]);
                assert(is_digit(d[i - pos]));
            }
            assert(d =~= s);
        }
    }
    Some((v, i))
}

/// Appends the decimal rendering of `n` to `out`.
pub fn push_dec(out: &mut Vec<char>, n: usize)
    ensures
        final(out)@ == old(out)@ + dec(n as nat),
    decreases n,
{
    if n < 10 {
        let d = char_of_digit(n);
        out.push(d);
        assert(dec(n as nat) == seq![digit_char(n as nat)]);
    } else {
        push_dec(out, n / 10);
        let d = char_of_digit(n % 10);
        out.push(d);
    }
}

/// Appends the decimal rendering of the 64-bit `n` to `out`.
pub fn push_dec_u64(out: &mut Vec<char>, n: u64)
    ensures
        final(out)@ == old(out)@ + dec(n as nat),
    decreases n,
{
    if n < 10 {
        let d = char_of_digit(n as usize);
        out.push(d);
        assert(dec(n as nat) == seq![digit_char(n as nat)]);
    } else {
        push_dec_u64(out, n / 10);
        let d = char_of_digit((n % 10) as usize);
        out.push(d);
    }
}

/// The digit character for `d < 10`.
pub fn char_of_digit(d: usize) -> (c: char)
    requires
        d < 10,
    ensures
        c == digit_char(d as nat),
{
    let c = match d {
        0 => '0',
        1 => '1',
        2 => '2',
        3 => '3',
        4 => '4',
        5 => '5',
        6 => '6',
        7 => '7',
        8 => '8',
        _ => '9',
    };
    assert(((48 + d) as u32) as int == 48 + d);
    assert(c as int == 48 + d);
    c
}

} // verus!
