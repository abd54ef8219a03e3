//! Byte-lexicographic ordering of relative paths, and the sort that the
//! walker's output and the tree builder rely on.

use vstd::prelude::*;
use vstd::relations::{sorted_by, total_ordering};
use vstd::seq_lib::lemma_sorted_unique;
use vstd::multiset::Multiset;

verus! {

/// Byte-lexicographic "less than or equal" on byte strings: the order of the
/// flat path list.
pub open spec fn lex_le(a: Seq<u8>, b: Seq<u8>) -> bool
    decreases a.len(),
{
    if a.len() == 0 {
        true
    } else if b.len() == 0 {
        false
    } else if a[0] < b[0] {
        true
    } else if a[0] > b[0] {
        false
    } else {
        lex_le(a.skip(1), b.skip(1))
    }
}

/// `lex_le` as a first-class relation, for `sorted_by` and `sort_by`.
pub open spec fn lex_leq() -> spec_fn(Seq<u8>, Seq<u8>) -> bool {
    |a: Seq<u8>, b: Seq<u8>| lex_le(a, b)
}

pub proof fn lemma_lex_le_refl(a: Seq<u8>)
    ensures
        lex_le(a, a),
    decreases a.len(),
{
    if a.len() != 0 {
        lemma_lex_le_refl(a.skip(1));
    }
}

pub proof fn lemma_lex_le_connected(a: Seq<u8>, b: Seq<u8>)
    ensures
        lex_le(a, b) || lex_le(b, a),
    decreases a.len(),
{
    if a.len() != 0 && b.len() != 0 && a[0] == b[0] {
        lemma_lex_le_connected(a.skip(1), b.skip(1));
    }
}

pub proof fn lemma_lex_le_antisym(a: Seq<u8>, b: Seq<u8>)
    requires
        lex_le(a, b),
        lex_le(b, a),
    ensures
        a == b,
    decreases a.len(),
{
    if a.len() == 0 {
        assert(a =~= b);
    } else {
        assert(b.len() != 0);
        assert(a[0] == b[0]);
        lemma_lex_le_antisym(a.skip(1), b.skip(1));
        assert(a.len() == b.len());
        assert forall|i: int| 0 <= i < a.len() implies a[i] == b[i] by {
            if i > 0 {
                assert(a[i] == a.skip(1)[i - 1]);
                assert(b[i] == b.skip(1)[i - 1]);
            }
        }
        assert(a =~= b);
    }
}

pub proof fn lemma_lex_le_trans(a: Seq<u8>, b: Seq<u8>, c: Seq<u8>)
    requires
        lex_le(a, b),
        lex_le(b, c),
    ensures
        lex_le(a, c),
    decreases a.len(),
{
    if a.len() != 0 && b.len() != 0 && c.len() != 0 && a[0] == b[0] && b[0] == c[0] {
        lemma_lex_le_trans(a.skip(1), b.skip(1), c.skip(1));
    }
}

/// `lex_le` is a total order, so a sorted path list is unique per multiset.
pub proof fn lemma_lex_total_ordering()
    ensures
        total_ordering(lex_leq()),
{
    let leq = lex_leq();
    assert forall|x: Seq<u8>| #[trigger] leq(x, x) by {
        lemma_lex_le_refl(x);
    }
    assert forall|x: Seq<u8>, y: Seq<u8>| #[trigger] leq(x, y) && #[trigger] leq(y, x) implies x
        == y by {
        lemma_lex_le_antisym(x, y);
    }
    assert forall|x: Seq<u8>, y: Seq<u8>, z: Seq<u8>|
        #[trigger] leq(x, y) && #[trigger] leq(y, z) implies leq(x, z) by {
        lemma_lex_le_trans(x, y, z);
    }
    assert forall|x: Seq<u8>, y: Seq<u8>| #[trigger] leq(x, y) || #[trigger] leq(y, x) by {
        lemma_lex_le_connected(x, y);
    }
}

/// Byte-lexicographic comparison of two paths.
pub fn bytes_le(a: &Vec<u8>, b: &Vec<u8>) -> (r: bool)
    ensures
        r == lex_le(a@, b@),
{
    proof {
        assert(a@.skip(0) =~= a@);
        assert(b@.skip(0) =~= b@);
    }
    let mut i: usize = 0;
    loop
        invariant
            i <= a@.len(),
            i <= b@.len(),
            lex_le(a@, b@) == lex_le(a@.skip(i as int), b@.skip(i as int)),
        decreases a@.len() - i,
    {
        if i >= a.len() {
            proof {
                assert(a@.skip(i as int) =~= Seq::<u8>::empty());
            }
            return true;
        }
        if i >= b.len() {
            proof {
                assert(b@.skip(i as int) =~= Seq::<u8>::empty());
            }
            return false;
        }
        let x = a[i];
        let y = b[i];
        if x < y {
            return true;
        }
        if x > y {
            return false;
        }
        proof {
            assert(a@.skip(i as int).skip(1) =~= a@.skip(i as int + 1));
            assert(b@.skip(i as int).skip(1) =~= b@.skip(i as int + 1));
        }
        i = i + 1;
    }
}

proof fn lemma_sorted_insert(s: Seq<Seq<u8>>, pos: int, x: Seq<u8>)
    requires
        sorted_by(s, lex_leq()),
        0 <= pos <= s.len(),
        forall|j: int| 0 <= j < pos ==> lex_le(#[trigger] s[j], x),
        forall|j: int| pos <= j < s.len() ==> lex_le(x, #[trigger] s[j]),
    ensures
        sorted_by(s.insert(pos, x), lex_leq()),
{
    let t = s.insert(pos, x);
    assert forall|i: int, j: int| 0 <= i < j < t.len() implies #[trigger] lex_leq()(t[i], t[j]) by {
        if i < pos && j < pos {
            assert(lex_leq()(s[i], s[j]));
        } else if i < pos && j == pos {
            assert(lex_le(s[i], x));
        } else if i < pos && j > pos {
            assert(lex_leq()(s[i], s[j - 1]));
        } else if i == pos && j > pos {
            assert(lex_le(x, s[j - 1]));
        } else if i > pos && j > pos {
            assert(lex_leq()(s[i - 1], s[j - 1]));
        }
    }
}

/// Sorts the flat path list into byte-lexicographic order: the result is
/// exactly the mathematical sort of the input sequence.
pub fn sort_paths(v: Vec<Vec<u8>>) -> (r: Vec<Vec<u8>>)
    ensures
        r.deep_view() == v.deep_view().sort_by(lex_leq()),
        sorted_by(r.deep_view(), lex_leq()),
        r.deep_view().to_multiset() == v.deep_view().to_multiset(),
{
    broadcast use vstd::seq_lib::to_multiset_insert;
    broadcast use vstd::seq_lib::to_multiset_remove;
    broadcast use vstd::seq_lib::group_to_multiset_ensures;
    broadcast use vstd::multiset::group_multiset_axioms;

    let ghost orig = v.deep_view();
    let mut rest = v;
    let mut out: Vec<Vec<u8>> = Vec::new();
    proof {
        assert(out.deep_view() =~= Seq::<Seq<u8>>::empty());
        assert(Seq::<Seq<u8>>::empty().to_multiset() =~= Multiset::<Seq<u8>>::empty());
        assert(out.deep_view().to_multiset().add(rest.deep_view().to_multiset()) =~= orig.to_multiset());
    }
    while rest.len() > 0
        invariant
            sorted_by(out.deep_view(), lex_leq()),
            out.deep_view().to_multiset().add(rest.deep_view().to_multiset()) == orig.to_multiset(),
        decreases rest.len(),
    {
        let ghost rest0 = rest.deep_view();
        let ghost out0 = out.deep_view();
        let x = rest.remove(0);
        proof {
            assert(rest0.len() > 0);
            assert(rest.deep_view() =~= rest0.remove(0));
            assert(x.deep_view() =~= x@);
            assert(x@ == rest0[0]);
            vstd::seq_lib::to_multiset_remove(rest0, 0);
        }
        let mut pos: usize = 0;
        while pos < out.len() && bytes_le(&out[pos], &x)
            invariant
                pos <= out@.len(),
                out.deep_view() == out0,
                forall|j: int| 0 <= j < pos ==> lex_le(#[trigger] out0[j], x@),
            decreases out@.len() - pos,
        {
            proof {
                assert(out@[pos as int].deep_view() =~= out@[pos as int]@);
            }
            pos = pos + 1;
        }
        proof {
            if pos < out0.len() {
                assert(out@[pos as int].deep_view() =~= out@[pos as int]@);
                assert(!lex_le(out0[pos as int], x@));
                lemma_lex_le_connected(out0[pos as int], x@);
                assert forall|j: int| pos <= j < out0.len() implies lex_le(
                    x@,
                    #[trigger] out0[j],
                ) by {
                    if j > pos {
                        assert(lex_leq()(out0[pos as int], out0[j]));
                        lemma_lex_le_trans(x@, out0[pos as int], out0[j]);
                    }
                }
            }
            lemma_sorted_insert(out0, pos as int, x@);
        }
        let ghost xv = x@;
        out.insert(pos, x);
        proof {
            assert(out.deep_view() =~= out0.insert(pos as int, xv));
            vstd::seq_lib::to_multiset_insert(out0, pos as int, xv);
            assert(rest0.contains(xv));
            vstd::seq_lib::to_multiset_contains(rest0, xv);
            assert(rest0.to_multiset().count(xv) > 0);
            assert(out.deep_view().to_multiset() =~= out0.to_multiset().insert(xv));
            assert(rest.deep_view().to_multiset() =~= rest0.to_multiset().remove(xv));
            assert(out.deep_view().to_multiset().add(rest.deep_view().to_multiset()) =~= orig.to_multiset());
        }
    }
    proof {
        assert(rest.deep_view() =~= Seq::<Seq<u8>>::empty());
        assert(rest.deep_view().to_multiset() =~= Multiset::<Seq<u8>>::empty());
        assert(out.deep_view().to_multiset() =~= orig.to_multiset());
        lemma_lex_total_ordering();
        orig.lemma_sort_by_ensures(lex_leq());
        lemma_sorted_unique(out.deep_view(), orig.sort_by(lex_leq()), lex_leq());
        assert(out.deep_view() =~= orig.sort_by(lex_leq()));
    }
    out
}

} // verus!
