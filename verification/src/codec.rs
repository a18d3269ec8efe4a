//! The field codec the envelope format is built on: a file is a flat run
//! of length-prefixed fields, `<decimal length>:<text>`, so any text,
//! including separators and newlines, round-trips unchanged.

use vstd::prelude::*;
use crate::numtext::{dec, is_digit, lemma_dec, push_dec, read_dec_until};
use crate::text::{chars_of, push_str, string_of_range};

verus! {

/// One length-prefixed field.
pub open spec fn field(s: Seq<char>) -> Seq<char> {
    dec(s.len()) + seq![':'] + s
}

/// A run of fields, in order.
pub open spec fn encode_fields(ts: Seq<Seq<char>>) -> Seq<char>
    decreases ts.len(),
{
    if ts.len() == 0 {
        Seq::empty()
    } else {
        field(ts[0]) + encode_fields(ts.drop_first())
    }
}

/// The characters of each string in a list.
pub open spec fn strings_view(v: Seq<String>) -> Seq<Seq<char>> {
    Seq::new(v.len(), |i: int| v[i]@)
}

/// Encoding a list extended by one field appends that field.
pub proof fn lemma_encode_push(ts: Seq<Seq<char>>, x: Seq<char>)
    ensures
        encode_fields(ts.push(x)) == encode_fields(ts) + field(x),
    decreases ts.len(),
{
    if ts.len() == 0 {
        assert(ts.push(x).drop_first() =~= Seq::<Seq<char>>::empty());
        assert(encode_fields(ts.push(x)) =~= field(x) + encode_fields(Seq::<Seq<char>>::empty()));
        assert(encode_fields(ts) + field(x) =~= field(x));
    } else {
        assert(ts.push(x).drop_first() =~= ts.drop_first().push(x));
        lemma_encode_push(ts.drop_first(), x);
        assert(encode_fields(ts.push(x)) =~= field(ts[0]) + (encode_fields(ts.drop_first()) + field(x)));
    }
}

/// Encoding distributes over concatenation of lists.
pub proof fn lemma_encode_append(a: Seq<Seq<char>>, b: Seq<Seq<char>>)
    ensures
        encode_fields(a + b) == encode_fields(a) + encode_fields(b),
    decreases a.len(),
{
    if a.len() == 0 {
        assert(a + b =~= b);
        assert(encode_fields(a) + encode_fields(b) =~= encode_fields(b));
    } else {
        assert((a + b).drop_first() =~= a.drop_first() + b);
        lemma_encode_append(a.drop_first(), b);
        assert(encode_fields(a + b) =~= field(a[0]) + (encode_fields(a.drop_first()) + encode_fields(b)));
    }
}

/// A field is never empty, so a non-empty list never encodes to nothing.
proof fn lemma_encode_len(ts: Seq<Seq<char>>)
    ensures
        ts.len() > 0 ==> encode_fields(ts).len() >= 2,
        encode_fields(ts).len() >= ts.len(),
    decreases ts.len(),
{
    if ts.len() > 0 {
        lemma_dec(ts[0].len());
        lemma_encode_len(ts.drop_first());
    }
}

/// The encoding of a list, split at field `k`.
proof fn lemma_encode_split(t: Seq<Seq<char>>, k: int)
    requires
        0 <= k < t.len(),
    ensures
        encode_fields(t) == encode_fields(t.take(k)) + field(t[k]) + encode_fields(t.skip(k + 1)),
{
    assert(t =~= t.take(k) + (seq![t[k]] + t.skip(k + 1)));
    lemma_encode_append(t.take(k), seq![t[k]] + t.skip(k + 1));
    assert((seq![t[k]] + t.skip(k + 1)).drop_first() =~= t.skip(k + 1));
    assert(encode_fields(seq![t[k]] + t.skip(k + 1)) == field(t[k]) + encode_fields(t.skip(k + 1)));
}

/// Different field lists never share an encoding.
pub proof fn lemma_encode_injective(a: Seq<Seq<char>>, b: Seq<Seq<char>>)
    requires
        encode_fields(a) == encode_fields(b),
    ensures
        a == b,
    decreases a.len(),
{
    lemma_encode_len(a);
    lemma_encode_len(b);
    if a.len() == 0 {
        assert(a =~= b);
    } else {
        let c = encode_fields(a);
        let (x, y) = (a[0], b[0]);
        lemma_dec(x.len());
        lemma_dec(y.len());
        let lx = dec(x.len()).len() as int;
        let ly = dec(y.len()).len() as int;
        assert(c[lx] == ':');
        assert(c[ly] == ':');
        assert forall|k: int| 0 <= k < lx implies is_digit(#[trigger] c[k]) by {
            assert(c[k] == dec(x.len())[k]);
        }
        assert forall|k: int| 0 <= k < ly implies is_digit(#[trigger] c[k]) by {
            assert(c[k] == dec(y.len())[k]);
        }
        assert(!is_digit(':'));
        if lx < ly {
            assert(is_digit(c[lx]));
        }
        if ly < lx {
            assert(is_digit(c[ly]));
        }
        assert(lx == ly);
        assert(dec(x.len()) =~= c.subrange(0, lx));
        assert(dec(y.len()) =~= c.subrange(0, ly));
        assert(x.len() == y.len());
        assert(x =~= c.subrange(lx + 1, lx + 1 + x.len()));
        assert(y =~= c.subrange(ly + 1, ly + 1 + y.len()));
        let rest = c.subrange(lx + 1 + x.len(), c.len() as int);
        assert(encode_fields(a.drop_first()) =~= rest);
        assert(encode_fields(b.drop_first()) =~= rest);
        lemma_encode_injective(a.drop_first(), b.drop_first());
        assert(a =~= seq![x] + a.drop_first());
        assert(b =~= seq![y] + b.drop_first());
    }
}

/// Different record lists never share an encoding.
pub proof fn lemma_encode_records_injective(a: Seq<Seq<Seq<char>>>, b: Seq<Seq<Seq<char>>>)
    requires
        encode_records(a) == encode_records(b),
    ensures
        a == b,
{
    let ea = Seq::new(a.len(), |i: int| encode_fields(a[i]));
    let eb = Seq::new(b.len(), |i: int| encode_fields(b[i]));
    lemma_encode_injective(ea, eb);
    assert forall|i: int| 0 <= i < a.len() implies a[i] == b[i] by {
        assert(ea[i] == eb[i]);
        lemma_encode_injective(a[i], b[i]);
    }
    assert(a =~= b);
}

/// Appends one field to `out`.
pub fn push_field(out: &mut Vec<char>, s: &str)
    ensures
        final(out)@ == old(out)@ + field(s@),
{
    let n = chars_of(s).len();
    push_dec(out, n);
    out.push(':');
    push_str(out, s);
    assert(final(out)@ =~= old(out)@ + field(s@));
}

/// Where the fields of `t` past its first `k` sit inside `encode_fields(t)`.
proof fn lemma_next_field(c: Seq<char>, t: Seq<Seq<char>>, k: int, pos: int)
    requires
        encode_fields(t) == c,
        0 <= k < t.len(),
        encode_fields(t.take(k)) == c.take(pos),
        0 <= pos <= c.len(),
    ensures
        pos + dec(t[k].len()).len() + 1 + t[k].len() <= c.len(),
        c.subrange(pos, pos + dec(t[k].len()).len()) == dec(t[k].len()),
        c[pos + dec(t[k].len()).len()] == ':',
        c.subrange(pos + dec(t[k].len()).len() + 1, pos + dec(t[k].len()).len() + 1 + t[k].len())
            == t[k],
        pos < pos + dec(t[k].len()).len(),
        c.take(pos + dec(t[k].len()).len() + 1 + t[k].len()) == encode_fields(t.take(k + 1)),
{
    lemma_encode_split(t, k);
    let n = t[k].len();
    lemma_dec(n);
    let d = dec(n);
    assert(encode_fields(t.take(k)).len() == pos);
    let f = field(t[k]);
    assert(c.subrange(pos, pos + d.len()) =~= d);
    assert(c[pos + d.len()] == f[d.len() as int]);
    assert(c.subrange(pos + d.len() + 1, pos + d.len() + 1 + n) =~= t[k]);
    assert(t.take(k + 1) =~= t.take(k).push(t[k]));
    lemma_encode_push(t.take(k), t[k]);
    assert(c.take(pos + d.len() + 1 + n) =~= encode_fields(t.take(k)) + f);
}

/// When the first `k` fields of `t` account for all of `encode_fields(t)`,
/// there are no more.
proof fn lemma_all_fields(t: Seq<Seq<char>>, k: int)
    requires
        0 <= k <= t.len(),
        encode_fields(t.take(k)).len() == encode_fields(t).len(),
    ensures
        t.take(k) == t,
{
    if k < t.len() {
        assert(t =~= t.take(k) + t.skip(k));
        lemma_encode_append(t.take(k), t.skip(k));
        lemma_encode_len(t.skip(k));
    }
    assert(t.take(k) =~= t);
}

/// Decodes a run of fields. Exactly the encodings of field lists decode,
/// each to the one list it encodes.
pub fn decode_fields(c: &[char]) -> (r: Option<Vec<String>>)
    ensures
        r matches Some(ts) ==> encode_fields(strings_view(ts@)) == c@,
        forall|t: Seq<Seq<char>>| #[trigger] encode_fields(t) == c@ ==> (r matches Some(ts)
            && strings_view(ts@) == t),
{
    let mut out: Vec<String> = Vec::new();
    let mut pos: usize = 0;
    assert(c@.take(0) =~= Seq::<char>::empty());
    assert(strings_view(out@) =~= Seq::<Seq<char>>::empty());
    while pos < c.len()
        invariant
            pos <= c@.len(),
            encode_fields(strings_view(out@)) == c@.take(pos as int),
            forall|t: Seq<Seq<char>>| #[trigger] encode_fields(t) == c@ ==> out@.len() <= t.len()
                && strings_view(out@) == t.take(out@.len() as int),
        decreases c@.len() - pos,
    {
        proof {
            assert(!is_digit(':'));
        }
        let rd = read_dec_until(c, pos, ':', c.len());
        let ghost before = strings_view(out@);
        let ghost k = out@.len() as int;
        let ok = match rd {
            None => false,
            Some((n, e)) => n <= c.len() - e - 1,
        };
        if !ok {
            proof {
                assert forall|t: Seq<Seq<char>>| #[trigger] encode_fields(t) == c@ implies false by {
                    if k == t.len() {
                        assert(t.take(k) =~= t);
                    } else {
                        lemma_next_field(c@, t, k, pos as int);
                    }
                }
            }
            return None;
        }
        let (n, e) = rd.unwrap();
        let tok = string_of_range(c, e + 1, e + 1 + n);
        out.push(tok);
        proof {
            assert(strings_view(out@) =~= before.push(tok@));
            lemma_encode_push(before, tok@);
            assert(c@.take((e + 1 + n) as int) =~= c@.take(pos as int) + field(tok@));
            assert forall|t: Seq<Seq<char>>| #[trigger] encode_fields(t) == c@ implies out@.len() <= t.len()
                && strings_view(out@) == t.take(out@.len() as int) by {
                if k == t.len() {
                    assert(t.take(k) =~= t);
                } else {
                    lemma_next_field(c@, t, k, pos as int);
                    assert(tok@ =~= t[k]);
                    assert(t.take(k + 1) =~= t.take(k).push(t[k]));
                }
            }
        }
        pos = e + 1 + n;
    }
    proof {
        assert(c@.take(pos as int) =~= c@);
        assert forall|t: Seq<Seq<char>>| #[trigger] encode_fields(t) == c@ implies strings_view(out@) == t by {
            lemma_all_fields(t, out@.len() as int);
        }
    }
    Some(out)
}

/// The characters of each string of each record in a list.
pub open spec fn records_view(v: Seq<Vec<String>>) -> Seq<Seq<Seq<char>>> {
    Seq::new(v.len(), |i: int| strings_view(v[i]@))
}

/// A list of records, each record encoded as one nested field run.
pub open spec fn encode_records(rs: Seq<Seq<Seq<char>>>) -> Seq<char> {
    encode_fields(Seq::new(rs.len(), |i: int| encode_fields(rs[i])))
}

/// Every record has `w` fields.
pub open spec fn all_width(rs: Seq<Seq<Seq<char>>>, w: nat) -> bool {
    forall|i: int| 0 <= i < rs.len() ==> (#[trigger] rs[i]).len() == w
}

/// Decodes a list of records of `width` fields each. Exactly the
/// encodings of such lists decode, each to the one list it encodes.
pub fn decode_records(c: &[char], width: usize) -> (r: Option<Vec<Vec<String>>>)
    ensures
        r matches Some(rs) ==> all_width(records_view(rs@), width as nat)
            && encode_records(records_view(rs@)) == c@,
        forall|t: Seq<Seq<Seq<char>>>| #[trigger] encode_records(t) == c@ && all_width(t, width as nat)
            ==> (r matches Some(rs) && records_view(rs@) == t),
{
    let items = match decode_fields(c) {
        Some(items) => items,
        None => {
            proof {
                assert forall|t: Seq<Seq<Seq<char>>>| #[trigger] encode_records(t) == c@ && all_width(t, width as nat)
                    implies false by {
                    let enc = Seq::new(t.len(), |i: int| encode_fields(t[i]));
                    assert(encode_fields(enc) == c@);
                }
            }
            return None;
        },
    };
    let mut out: Vec<Vec<String>> = Vec::new();
    let mut j: usize = 0;
    while j < items.len()
        invariant
            j <= items@.len(),
            out@.len() == j,
            encode_fields(strings_view(items@)) == c@,
            forall|t: Seq<Seq<char>>| #[trigger] encode_fields(t) == c@ ==> strings_view(items@) == t,
            forall|k: int| 0 <= k < j ==> (#[trigger] records_view(out@)[k]).len() == width
                && encode_fields(records_view(out@)[k]) == items@[k]@,
            forall|t: Seq<Seq<Seq<char>>>| #[trigger] encode_records(t) == c@ && all_width(t, width as nat)
                ==> t.len() == items@.len() && records_view(out@) == t.take(j as int),
        decreases items@.len() - j,
    {
        let item = chars_of(items[j].as_str());
        let dec = decode_fields(item.as_slice());
        let ghost prev = records_view(out@);
        let ok = match &dec {
            Some(v) => v.len() == width,
            None => false,
        };
        if !ok {
            proof {
                assert forall|t: Seq<Seq<Seq<char>>>| #[trigger] encode_records(t) == c@ && all_width(t, width as nat)
                    implies false by {
                    let enc = Seq::new(t.len(), |i: int| encode_fields(t[i]));
                    assert(strings_view(items@) == enc);
                    assert(strings_view(items@)[j as int] == items@[j as int]@);
                    assert(encode_fields(t[j as int]) == item@);
                }
            }
            return None;
        }
        let v = dec.unwrap();
        out.push(v);
        proof {
            assert(records_view(out@) =~= prev.push(strings_view(v@)));
            assert(strings_view(items@)[j as int] == items@[j as int]@);
            assert forall|t: Seq<Seq<Seq<char>>>| #[trigger] encode_records(t) == c@ && all_width(t, width as nat)
                implies t.len() == items@.len() && records_view(out@) == t.take(j + 1) by {
                let enc = Seq::new(t.len(), |i: int| encode_fields(t[i]));
                assert(strings_view(items@) == enc);
                assert(encode_fields(t[j as int]) == item@);
                assert(t.take(j + 1) =~= t.take(j as int).push(t[j as int]));
            }
        }
        j = j + 1;
    }
    proof {
        let rv = records_view(out@);
        let enc = Seq::new(rv.len(), |i: int| encode_fields(rv[i]));
        assert(enc =~= strings_view(items@));
        assert forall|t: Seq<Seq<Seq<char>>>| #[trigger] encode_records(t) == c@ && all_width(t, width as nat)
            implies records_view(out@) == t by {
            assert(t.take(j as int) =~= t);
        }
    }
    Some(out)
}

/// The text of a run of fields.
pub fn fields_text(ts: &Vec<String>) -> (r: String)
    ensures
        r@ == encode_fields(strings_view(ts@)),
{
    let mut out: Vec<char> = Vec::new();
    let mut k: usize = 0;
    while k < ts.len()
        invariant
            k <= ts@.len(),
            out@ == encode_fields(strings_view(ts@).take(k as int)),
        decreases ts@.len() - k,
    {
        push_field(&mut out, ts[k].as_str());
        proof {
            lemma_encode_push(strings_view(ts@).take(k as int), ts@[k as int]@);
            assert(strings_view(ts@).take(k + 1) =~= strings_view(ts@).take(k as int).push(ts@[k as int]@));
        }
        k = k + 1;
    }
    assert(strings_view(ts@).take(k as int) =~= strings_view(ts@));
    crate::text::string_of(out.as_slice())
}

/// The text of a list of records.
pub fn records_text(rs: &Vec<Vec<String>>) -> (r: String)
    ensures
        r@ == encode_records(records_view(rs@)),
{
    let mut inner: Vec<String> = Vec::new();
    let mut j: usize = 0;
    while j < rs.len()
        invariant
            j <= rs@.len(),
            inner@.len() == j,
            forall|i: int| 0 <= i < j ==> (#[trigger] inner@[i])@ == encode_fields(strings_view(rs@[i]@)),
        decreases rs@.len() - j,
    {
        let one = fields_text(&rs[j]);
        inner.push(one);
        j = j + 1;
    }
    let ghost rv = records_view(rs@);
    assert(strings_view(inner@) =~= Seq::new(rv.len(), |i: int| encode_fields(rv[i])));
    fields_text(&inner)
}

} // verus!
