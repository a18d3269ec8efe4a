//! The manifest collation for section-level attestation.
//!
//! The digest `CorpusSigner` signs is a concatenation in manifest order, so
//! the order is part of the signature: the collation is an explicit,
//! configurable parameter of the signature rather than an accident of
//! directory-walk order.

use vstd::prelude::*;
use vstd::multiset::*;
use crate::error::EinmoError;
use crate::stage::{
    deep_chars, id_views, lemma_split_slash_injective, split_components, split_slash, EinmoId,
};
use crate::text::{
    compare_chars, concat, lemma_seq_lt_irreflexive, lemma_seq_lt_transitive,
    lemma_seq_lt_trichotomy, seq_lt, str_eq, Order,
};

verus! {

/// How a section's files are ordered before digesting. Part of the signed
/// parameters: its stable identifier is recorded in `.section.sig`.
#[derive(Debug, Clone, Copy, PartialEq, Eq, Structural)]
pub enum Collation {
    /// The default. Component-wise, byte-wise within a component. No locale,
    /// no normalization, no case folding.
    PathBytes,
}

/// The stable identifier of a collation.
pub open spec fn collation_identifier(c: Collation) -> Seq<char> {
    match c {
        Collation::PathBytes => seq!['p', 'a', 't', 'h', '-', 'b', 'y', 't', 'e', 's'],
    }
}

/// Strict lexicographic order on component lists, each component ordered by
/// `seq_lt`; a proper prefix sorts first.
pub open spec fn comps_lt(a: Seq<Seq<char>>, b: Seq<Seq<char>>) -> bool
    decreases a.len(),
{
    if a.len() == 0 {
        b.len() > 0
    } else if b.len() == 0 {
        false
    } else if seq_lt(a[0], b[0]) {
        true
    } else if a[0] == b[0] {
        comps_lt(a.drop_first(), b.drop_first())
    } else {
        false
    }
}

/// The `PathBytes` order on ids: component-wise, never raw-string order.
pub open spec fn path_lt(x: Seq<char>, y: Seq<char>) -> bool {
    comps_lt(split_slash(x), split_slash(y))
}

/// Nondecreasing under `path_lt`.
pub open spec fn path_sorted(s: Seq<Seq<char>>) -> bool {
    forall|i: int, j: int| 0 <= i < j < s.len() ==> !path_lt(#[trigger] s[j], #[trigger] s[i])
}

/// Strictly increasing under `path_lt`.
pub open spec fn path_strictly_sorted(s: Seq<Seq<char>>) -> bool {
    forall|i: int, j: int| 0 <= i < j < s.len() ==> path_lt(#[trigger] s[i], #[trigger] s[j])
}

pub proof fn lemma_comps_lt_irreflexive(a: Seq<Seq<char>>)
    ensures
        !comps_lt(a, a),
    decreases a.len(),
{
    if a.len() > 0 {
        lemma_seq_lt_irreflexive(a[0]);
        lemma_comps_lt_irreflexive(a.drop_first());
    }
}

pub proof fn lemma_comps_lt_trichotomy(a: Seq<Seq<char>>, b: Seq<Seq<char>>)
    ensures
        comps_lt(a, b) || a == b || comps_lt(b, a),
        !(comps_lt(a, b) && comps_lt(b, a)),
        comps_lt(a, b) ==> a != b,
    decreases a.len(),
{
    if a.len() == 0 || b.len() == 0 {
        if a.len() == 0 && b.len() == 0 {
            assert(a =~= b);
        }
    } else {
        lemma_seq_lt_trichotomy(a[0], b[0]);
        if a[0] == b[0] {
            lemma_comps_lt_trichotomy(a.drop_first(), b.drop_first());
            if a.drop_first() == b.drop_first() {
                assert(a =~= seq![a[0]] + a.drop_first());
                assert(b =~= seq![b[0]] + b.drop_first());
            }
        }
    }
    if comps_lt(a, b) && a == b {
        lemma_comps_lt_irreflexive(a);
    }
}

pub proof fn lemma_comps_lt_transitive(a: Seq<Seq<char>>, b: Seq<Seq<char>>, c: Seq<Seq<char>>)
    requires
        comps_lt(a, b),
        comps_lt(b, c),
    ensures
        comps_lt(a, c),
    decreases a.len(),
{
    if a.len() > 0 && b.len() > 0 && c.len() > 0 {
        if seq_lt(a[0], b[0]) && seq_lt(b[0], c[0]) {
            lemma_seq_lt_transitive(a[0], b[0], c[0]);
        } else if a[0] == b[0] && b[0] == c[0] {
            lemma_comps_lt_transitive(a.drop_first(), b.drop_first(), c.drop_first());
        }
    }
}

/// `path_lt` is a strict total order on ids (it never ties two distinct
/// paths): irreflexive, asymmetric, total, transitive.
pub proof fn lemma_path_lt_total_order(x: Seq<char>, y: Seq<char>, z: Seq<char>)
    ensures
        !path_lt(x, x),
        path_lt(x, y) || x == y || path_lt(y, x),
        !(path_lt(x, y) && path_lt(y, x)),
        path_lt(x, y) && path_lt(y, z) ==> path_lt(x, z),
{
    lemma_comps_lt_irreflexive(split_slash(x));
    lemma_comps_lt_trichotomy(split_slash(x), split_slash(y));
    if split_slash(x) == split_slash(y) {
        lemma_split_slash_injective(x, y);
    }
    if path_lt(x, y) && path_lt(y, z) {
        lemma_comps_lt_transitive(split_slash(x), split_slash(y), split_slash(z));
    }
}

/// Three-way comparison of two component lists.
fn compare_comps(a: &Vec<Vec<char>>, b: &Vec<Vec<char>>) -> (r: Order)
    ensures
        r == Order::Equal <==> deep_chars(a@) == deep_chars(b@),
        r == Order::Less <==> comps_lt(deep_chars(a@), deep_chars(b@)),
{
    let ghost da = deep_chars(a@);
    let ghost db = deep_chars(b@);
    let mut i: usize = 0;
    assert(da.skip(0) =~= da);
    assert(db.skip(0) =~= db);
    while i < a.len() && i < b.len()
        invariant
            da == deep_chars(a@),
            db == deep_chars(b@),
            i <= a@.len(),
            i <= b@.len(),
            da.take(i as int) == db.take(i as int),
            comps_lt(da, db) == comps_lt(da.skip(i as int), db.skip(i as int)),
        decreases a@.len() - i,
    {
        let o = compare_chars(a[i].as_slice(), b[i].as_slice());
        assert(da.skip(i as int)[0] == da[i as int]);
        assert(db.skip(i as int)[0] == db[i as int]);
        proof {
            lemma_seq_lt_trichotomy(da[i as int], db[i as int]);
        }
        match o {
            Order::Less => {
                assert(da != db) by {
                    if da == db {
                        lemma_seq_lt_irreflexive(da[i as int]);
                    }
                }
                return Order::Less;
            }
            Order::Greater => {
                assert(da != db) by {
                    if da == db {
                        assert(da[i as int] == db[i as int]);
                    }
                }
                return Order::Greater;
            }
            Order::Equal => {}
        }
        assert(da.skip(i as int).drop_first() =~= da.skip(i + 1));
        assert(db.skip(i as int).drop_first() =~= db.skip(i + 1));
        assert(da.take(i + 1) =~= da.take(i as int).push(da[i as int]));
        assert(db.take(i + 1) =~= db.take(i as int).push(db[i as int]));
        i = i + 1;
    }
    if a.len() == b.len() {
        assert(da =~= da.take(i as int));
        assert(db =~= db.take(i as int));
        proof {
            lemma_comps_lt_irreflexive(da);
        }
        Order::Equal
    } else if i == a.len() {
        assert(da.skip(i as int).len() == 0);
        assert(da != db);
        Order::Less
    } else {
        assert(db.skip(i as int).len() == 0);
        assert(da != db);
        proof {
            lemma_comps_lt_trichotomy(da, db);
        }
        Order::Greater
    }
}

/// `PathBytes` comparison of two ids, structural rather than raw-string:
/// `a/b` sorts before `a-b`, and a shorter component prefix sorts first.
pub fn compare_paths(a: &EinmoId, b: &EinmoId) -> (r: Order)
    ensures
        r == Order::Equal <==> a@ == b@,
        r == Order::Less <==> path_lt(a@, b@),
        r == Order::Greater <==> path_lt(b@, a@),
{
    let ca = a.chars();
    let cb = b.chars();
    let pa = split_components(ca.as_slice());
    let pb = split_components(cb.as_slice());
    let r = compare_comps(&pa, &pb);
    proof {
        lemma_path_lt_total_order(a@, b@, b@);
        if split_slash(a@) == split_slash(b@) {
            lemma_split_slash_injective(a@, b@);
        }
    }
    r
}

proof fn lemma_insert_multiset(s: Seq<Seq<char>>, k: int, a: Seq<char>)
    requires
        0 <= k <= s.len(),
    ensures
        s.insert(k, a).to_multiset() =~= s.to_multiset().insert(a),
{
    broadcast use group_multiset_axioms;
    let t = s.insert(k, a);
    s.insert_ensures(k, a);
    t.to_multiset_ensures();
    assert(t.remove(k) =~= s);
    assert(t.contains(a)) by {
        assert(t[k] == a);
    }
}

/// The message an unrecognized collation identifier is refused with.
pub open spec fn unknown_collation_message(identifier: Seq<char>) -> Seq<char> {
    "unknown collation identifier "@ + identifier
}

/// The message a tie under `PathBytes` is refused with, naming the id.
pub open spec fn duplicate_path_message(id: Seq<char>) -> Seq<char> {
    "duplicate path under collation \"path-bytes\": "@ + id
}

impl Collation {
    /// The suite default when configuration names none.
    pub fn default_collation() -> (r: Collation)
        ensures
            r == Collation::PathBytes,
    {
        Collation::PathBytes
    }

    /// The stable identifier recorded in `.section.sig`.
    pub fn identifier(self) -> (r: &'static str)
        ensures
            r@ == collation_identifier(self),
    {
        proof {
            reveal_strlit("path-bytes");
        }
        match self {
            Collation::PathBytes => "path-bytes",
        }
    }

    /// Parse a collation identifier.
    ///
    /// # Errors
    /// [`EinmoError::CorpusSignature`] naming the identifier as an unknown
    /// collation: deliberately distinct from a digest mismatch.
    pub fn parse(identifier: &str) -> (r: Result<Collation, EinmoError>)
        ensures
            r matches Ok(c) ==> collation_identifier(c) == identifier@,
            r is Err <==> identifier@ != collation_identifier(Collation::PathBytes),
            r matches Err(e) ==> e matches EinmoError::CorpusSignature(m) && m@ == unknown_collation_message(identifier@),
    {
        proof {
            reveal_strlit("path-bytes");
            assert("path-bytes"@ =~= collation_identifier(Collation::PathBytes));
        }
        if str_eq(identifier, "path-bytes") {
            Ok(Collation::PathBytes)
        } else {
            Err(EinmoError::CorpusSignature(concat("unknown collation identifier ", identifier)))
        }
    }

    /// Sort `ids` in place per this collation.
    ///
    /// On return `ids` is a permutation of its old content, nondecreasing
    /// under `path_lt`; it is `Ok` exactly when no id occurs twice, and then
    /// strictly increasing.
    ///
    /// # Errors
    /// [`EinmoError::CorpusSignature`] if two entries compare equal (a tie
    /// is always a hard error, never a silent tiebreak).
    pub fn sort(self, ids: &mut Vec<EinmoId>) -> (r: Result<(), EinmoError>)
        ensures
            id_views(final(ids)@).to_multiset() == id_views(old(ids)@).to_multiset(),
            final(ids)@.len() == old(ids)@.len(),
            path_sorted(id_views(final(ids)@)),
            r is Ok <==> id_views(old(ids)@).no_duplicates(),
            r is Ok ==> path_strictly_sorted(id_views(final(ids)@)),
            r matches Err(e) ==> e matches EinmoError::CorpusSignature(m) && exists|x: Seq<char>|
                id_views(old(ids)@).contains(x) && m@ == duplicate_path_message(x),
    {
        match self {
            Collation::PathBytes => sort_path_bytes(ids),
        }
    }
}

fn sort_path_bytes(ids: &mut Vec<EinmoId>) -> (r: Result<(), EinmoError>)
    ensures
        id_views(final(ids)@).to_multiset() == id_views(old(ids)@).to_multiset(),
        final(ids)@.len() == old(ids)@.len(),
        path_sorted(id_views(final(ids)@)),
        r is Ok <==> id_views(old(ids)@).no_duplicates(),
        r is Ok ==> path_strictly_sorted(id_views(final(ids)@)),
        r matches Err(e) ==> e matches EinmoError::CorpusSignature(m) && exists|x: Seq<char>|
            id_views(old(ids)@).contains(x) && m@ == duplicate_path_message(x),
{
    let ghost orig = id_views(ids@);
    let n = ids.len();
    let mut out: Vec<EinmoId> = Vec::new();
    let mut i: usize = 0;
    proof {
        assert(orig.take(0) =~= Seq::<Seq<char>>::empty());
        assert(id_views(out@) =~= Seq::<Seq<char>>::empty());
    }
    while i < n
        invariant
            n == ids@.len(),
            orig == id_views(ids@),
            i <= n,
            out@.len() == i,
            id_views(out@).to_multiset() == orig.take(i as int).to_multiset(),
            path_sorted(id_views(out@)),
        decreases n - i,
    {
        let x = ids[i].duplicate();
        // first position whose entry is strictly greater than x
        let mut k: usize = 0;
        while k < out.len() && !matches!(compare_paths(&x, &out[k]), Order::Less)
            invariant
                k <= out@.len(),
                forall|j: int| 0 <= j < k ==> !path_lt(x@, #[trigger] id_views(out@)[j]),
            decreases out@.len() - k,
        {
            k = k + 1;
        }
        let ghost before = id_views(out@);
        proof {
            assert forall|j: int| 0 <= j < k implies !path_lt(x@, #[trigger] before[j]) by {}
            assert forall|j: int| k <= j < before.len() implies path_lt(x@, #[trigger] before[j]) by {
                lemma_path_lt_total_order(x@, before[k as int], before[j]);
                if j > k {
                    lemma_path_lt_total_order(before[k as int], before[j], x@);
                    lemma_path_lt_total_order(x@, before[k as int], before[j]);
                    lemma_path_lt_total_order(before[j], before[k as int], x@);
                    if before[j] == before[k as int] {
                    } else {
                        lemma_path_lt_total_order(before[k as int], before[j], before[j]);
                    }
                }
            }
        }
        out.insert(k, x);
        proof {
            let after = id_views(out@);
            assert(after =~= before.insert(k as int, x@));
            before.insert_ensures(k as int, x@);
            lemma_insert_multiset(before, k as int, x@);
            assert(orig.take(i + 1) =~= orig.take(i as int).push(orig[i as int]));
            orig.take(i as int).to_multiset_ensures();
            assert forall|a: int, b: int| 0 <= a < b < after.len() implies !path_lt(#[trigger] after[b], #[trigger] after[a]) by {
                if a < k && b < k {
                } else if a < k && b == k {
                    lemma_path_lt_total_order(x@, before[a], before[a]);
                } else if a < k && b > k {
                    assert(after[b] == before[b - 1]);
                } else if a == k {
                    assert(after[b] == before[b - 1]);
                    lemma_path_lt_total_order(x@, before[b - 1], before[b - 1]);
                } else {
                    assert(after[a] == before[a - 1]);
                    assert(after[b] == before[b - 1]);
                }
            }
        }
        i = i + 1;
    }
    proof {
        assert(orig.take(n as int) =~= orig);
    }
    *ids = out;
    // ties: adjacent equal entries
    let m = ids.len();
    let mut j: usize = 1;
    while j < m
        invariant
            m == ids@.len(),
            m == n,
            n == old(ids)@.len(),
            orig == id_views(old(ids)@),
            1 <= j,
            j <= m || m == 0,
            path_sorted(id_views(ids@)),
            id_views(ids@).to_multiset() == orig.to_multiset(),
            forall|a: int| 0 <= a < j - 1 ==> #[trigger] id_views(ids@)[a] != id_views(ids@)[a + 1],
        decreases m - j,
    {
        if matches!(compare_paths(&ids[j - 1], &ids[j]), Order::Equal) {
            proof {
                let v = id_views(ids@);
                assert(v[j - 1] == v[j as int]);
                assert(!v.no_duplicates());
                if orig.no_duplicates() {
                    orig.lemma_multiset_has_no_duplicates();
                    v.lemma_multiset_has_no_duplicates_conv();
                }
                reveal_strlit("duplicate path under collation \"path-bytes\": ");
                assert(v[j as int] == ids@[j as int]@);
                let x = ids@[j as int]@;
                assert(v.contains(x));
                assert(orig.contains(x)) by {
                    broadcast use vstd::seq_lib::group_to_multiset_ensures;
                    assert(v.to_multiset().count(x) > 0);
                    assert(orig.to_multiset().count(x) > 0);
                }
                assert(orig == id_views(old(ids)@));
            }
            let msg = concat("duplicate path under collation \"path-bytes\": ", ids[j].as_str());
            proof {
                let x = ids@[j as int]@;
                assert(msg@ == duplicate_path_message(x));
                assert(id_views(old(ids)@).contains(x));
            }
            return Err(EinmoError::CorpusSignature(msg));
        }
        j = j + 1;
    }
    proof {
        let v = id_views(ids@);
        assert forall|a: int, b: int| 0 <= a < b < v.len() implies path_lt(#[trigger] v[a], #[trigger] v[b]) by {
            lemma_strict_from_adjacent(v, a, b);
        }
        assert(v.no_duplicates()) by {
            assert forall|a: int, b: int| 0 <= a < v.len() && 0 <= b < v.len() && a != b implies v[a] != v[b] by {
                if a < b {
                    lemma_path_lt_total_order(v[a], v[b], v[b]);
                } else {
                    lemma_path_lt_total_order(v[b], v[a], v[a]);
                }
            }
        }
        v.lemma_multiset_has_no_duplicates();
        orig.lemma_multiset_has_no_duplicates_conv();
    }
    Ok(())
}

proof fn lemma_strict_from_adjacent(v: Seq<Seq<char>>, a: int, b: int)
    requires
        path_sorted(v),
        forall|x: int| 0 <= x < v.len() - 1 ==> #[trigger] v[x] != v[x + 1],
        0 <= a < b < v.len(),
    ensures
        path_lt(v[a], v[b]),
    decreases b - a,
{
    assert(v[a] != v[a + 1]);
    assert(!path_lt(v[a + 1], v[a]));
    lemma_path_lt_total_order(v[a], v[a + 1], v[a + 1]);
    if b > a + 1 {
        lemma_strict_from_adjacent(v, a + 1, b);
        lemma_path_lt_total_order(v[a], v[a + 1], v[b]);
    }
}

} // verus!
