//! Relative paths: splitting into components, the walk-level filter, and the
//! selection of the flat path list that the rest of the pipeline consumes.

use vstd::prelude::*;
use crate::order::{lex_le, lex_leq, sort_paths};

verus! {

pub const SLASH: u8 = 47;

pub const DOT: u8 = 46;

/// The index of the first `/` in `s`, if there is one.
pub open spec fn find_slash(s: Seq<u8>) -> Option<int>
    decreases s.len(),
{
    if s.len() == 0 {
        None
    } else if s[0] == SLASH {
        Some(0)
    } else {
        match find_slash(s.skip(1)) {
            None => None,
            Some(i) => Some(i + 1),
        }
    }
}

pub proof fn lemma_find_slash_bounds(s: Seq<u8>)
    ensures
        match find_slash(s) {
            None => forall|t: int| 0 <= t < s.len() ==> s[t] != SLASH,
            Some(i) => 0 <= i < s.len() && s[i] == SLASH && forall|t: int| 0 <= t < i ==> s[t] != SLASH,
        },
    decreases s.len(),
{
    if s.len() != 0 && s[0] != SLASH {
        lemma_find_slash_bounds(s.skip(1));
        match find_slash(s.skip(1)) {
            None => {
                assert forall|t: int| 0 <= t < s.len() implies s[t] != SLASH by {
                    if t > 0 {
                        assert(s.skip(1)[t - 1] != SLASH);
                    }
                }
            },
            Some(i) => {
                assert(s[i + 1] == s.skip(1)[i]);
                assert forall|t: int| 0 <= t < i + 1 implies s[t] != SLASH by {
                    if t > 0 {
                        assert(s.skip(1)[t - 1] != SLASH);
                    }
                }
            },
        }
    }
}

/// The components of a relative path, split at `/`.
pub open spec fn segments(p: Seq<u8>) -> Seq<Seq<u8>>
    decreases p.len(),
    via segments_decreases
{
    match find_slash(p) {
        None => seq![p],
        Some(i) => seq![p.take(i)] + segments(p.skip(i + 1)),
    }
}

#[via_fn]
proof fn segments_decreases(p: Seq<u8>) {
    lemma_find_slash_bounds(p);
}

/// A split path always has at least one component.
pub proof fn lemma_segments_nonempty(p: Seq<u8>)
    ensures
        segments(p).len() >= 1,
{
    lemma_find_slash_bounds(p);
}

proof fn lemma_find_slash_none(s: Seq<u8>)
    requires
        forall|t: int| 0 <= t < s.len() ==> s[t] != SLASH,
    ensures
        find_slash(s) == None::<int>,
    decreases s.len(),
{
    if s.len() != 0 {
        lemma_find_slash_none(s.skip(1));
    }
}

proof fn lemma_find_slash_some(s: Seq<u8>, k: int)
    requires
        0 <= k < s.len(),
        s[k] == SLASH,
        forall|t: int| 0 <= t < k ==> s[t] != SLASH,
    ensures
        find_slash(s) == Some(k),
    decreases s.len(),
{
    if k > 0 {
        lemma_find_slash_some(s.skip(1), k - 1);
    }
}

/// Splits a path into its components.
pub fn split_segments(p: &Vec<u8>) -> (r: Vec<Vec<u8>>)
    ensures
        r.deep_view() == segments(p@),
{
    let mut out: Vec<Vec<u8>> = Vec::new();
    let mut start: usize = 0;
    proof {
        assert(out.deep_view() =~= Seq::<Seq<u8>>::empty());
        assert(p@.skip(0) =~= p@);
    }
    loop
        invariant
            start <= p@.len(),
            segments(p@) == out.deep_view() + segments(p@.skip(start as int)),
        decreases p@.len() - start,
    {
        let ghost out0 = out.deep_view();
        let mut j: usize = start;
        while j < p.len() && p[j] != SLASH
            invariant
                start <= j <= p@.len(),
                forall|t: int| start <= t < j ==> p@[t] != SLASH,
            decreases p@.len() - j,
        {
            j = j + 1;
        }
        let mut seg: Vec<u8> = Vec::new();
        let mut k: usize = start;
        while k < j
            invariant
                start <= k <= j <= p@.len(),
                seg@ == p@.subrange(start as int, k as int),
            decreases j - k,
        {
            seg.push(p[k]);
            proof {
                assert(seg@ =~= p@.subrange(start as int, k as int + 1));
            }
            k = k + 1;
        }
        let ghost segv = seg@;
        out.push(seg);
        proof {
            let rem = p@.skip(start as int);
            assert(out.deep_view() =~~= out0.push(segv));
            if j == p@.len() {
                assert forall|t: int| 0 <= t < rem.len() implies rem[t] != SLASH by {
                    assert(rem[t] == p@[start + t]);
                }
                lemma_find_slash_none(rem);
                assert(segments(rem) == seq![rem]);
                assert(segv =~= rem);
                assert(out.deep_view() =~= out0 + segments(rem));
            } else {
                assert(p@[j as int] == SLASH);
                assert forall|t: int| 0 <= t < j - start implies rem[t] != SLASH by {
                    assert(rem[t] == p@[start + t]);
                }
                assert(rem[j - start] == SLASH);
                lemma_find_slash_some(rem, j - start);
                assert(segments(rem) == seq![rem.take(j - start)] + segments(rem.skip(j - start + 1)));
                assert(rem.take(j - start) =~= segv);
                assert(rem.skip(j - start + 1) =~= p@.skip(j + 1));
                assert(out.deep_view() + segments(p@.skip(j + 1)) =~= (out0 + seq![segv])
                    + segments(p@.skip(j + 1)));
                assert((out0 + seq![segv]) + segments(p@.skip(j + 1)) =~= out0 + (seq![segv]
                    + segments(p@.skip(j + 1))));
            }
        }
        if j == p.len() {
            return out;
        }
        start = j + 1;
    }
}

/// Byte-for-byte equality of two paths.
pub fn bytes_eq(a: &Vec<u8>, b: &Vec<u8>) -> (r: bool)
    ensures
        r == (a@ == b@),
{
    if a.len() != b.len() {
        return false;
    }
    let mut i: usize = 0;
    while i < a.len()
        invariant
            i <= a@.len(),
            a@.len() == b@.len(),
            forall|t: int| 0 <= t < i ==> a@[t] == b@[t],
        decreases a@.len() - i,
    {
        if a[i] != b[i] {
            return false;
        }
        i = i + 1;
    }
    proof {
        assert(a@ =~= b@);
    }
    true
}

/// Strict byte-lexicographic comparison of two paths.
pub fn bytes_lt(a: &Vec<u8>, b: &Vec<u8>) -> (r: bool)
    ensures
        r == (lex_le(a@, b@) && a@ != b@),
{
    if crate::order::bytes_le(a, b) {
        !bytes_eq(a, b)
    } else {
        false
    }
}

/// The name of the version-control metadata directory.
pub open spec fn vcs_dir_name() -> Seq<u8> {
    seq![DOT, 103, 105, 116]
}

/// Whether the walk may visit an entry: its final component is not the
/// version-control metadata directory, and it is not the output artifact.
/// `same_file_as_output` reports whether the entry resolved to the same file
/// as the artifact, when resolution succeeded for both sides; on `None` the
/// normalized relative paths are compared instead. Ignore-rule exclusion is
/// the walk engine's own concern and comes on top of this.
pub open spec fn spec_should_visit(p: Seq<u8>, same_file_as_output: Option<bool>, output: Seq<u8>) -> bool {
    &&& segments(p).last() != vcs_dir_name()
    &&& match same_file_as_output {
        Some(same) => !same,
        None => p != output,
    }
}

/// The walk-level filter on one entry.
pub fn should_visit(p: &Vec<u8>, same_file_as_output: Option<bool>, output: &Vec<u8>) -> (r: bool)
    ensures
        r == spec_should_visit(p@, same_file_as_output, output@),
{
    let segs = split_segments(p);
    proof {
        lemma_segments_nonempty(p@);
    }
    let last = &segs[segs.len() - 1];
    let mut vcs: Vec<u8> = Vec::new();
    vcs.push(DOT);
    vcs.push(103);
    vcs.push(105);
    vcs.push(116);
    proof {
        assert(vcs@ =~= vcs_dir_name());
        assert(last@ == segs.deep_view().last());
    }
    if bytes_eq(last, &vcs) {
        return false;
    }
    match same_file_as_output {
        Some(same) => !same,
        None => !bytes_eq(p, output),
    }
}

/// The filter on one path, as a first-class predicate.
pub open spec fn visible_pred(output: Seq<u8>) -> spec_fn(Seq<u8>) -> bool {
    |q: Seq<u8>| spec_should_visit(q, None, output)
}

/// What one walk over `all` keeps: everything the filter lets through, in
/// byte-lexicographic order.
pub open spec fn walk_selects(all: Seq<Seq<u8>>, output: Seq<u8>) -> Seq<Seq<u8>> {
    all.filter(visible_pred(output)).sort_by(lex_leq())
}

/// Applies the filter to a collected path list and sorts what remains.
pub fn select_paths(all: Vec<Vec<u8>>, output: &Vec<u8>) -> (r: Vec<Vec<u8>>)
    ensures
        r.deep_view() == walk_selects(all.deep_view(), output@),
{
    let ghost allv = all.deep_view();
    let mut kept: Vec<Vec<u8>> = Vec::new();
    let mut i: usize = 0;
    proof {
        reveal(Seq::filter);
        assert(allv.take(0) =~= Seq::<Seq<u8>>::empty());
        assert(kept.deep_view() =~= allv.take(0).filter(visible_pred(output@)));
    }
    while i < all.len()
        invariant
            i <= all@.len(),
            allv == all.deep_view(),
            kept.deep_view() == allv.take(i as int).filter(visible_pred(output@)),
        decreases all@.len() - i,
    {
        let ghost kept0 = kept.deep_view();
        let x = &all[i];
        proof {
            assert(allv[i as int] == x@);
        }
        if should_visit(x, None, output) {
            let copy = clone_bytes(x);
            kept.push(copy);
            proof {
                assert(kept.deep_view() =~~= kept0.push(x@));
            }
        }
        proof {
            reveal(Seq::filter);
            let t1 = allv.take(i as int + 1);
            assert(t1.len() > 0);
            assert(t1.drop_last() =~= allv.take(i as int));
            assert(t1.last() == x@);
            let pred = visible_pred(output@);
            assert(pred(t1.last()) == spec_should_visit(t1.last(), None, output@));
            if spec_should_visit(x@, None, output@) {
                assert(pred(t1.last()));
                assert(t1.filter(pred) == t1.drop_last().filter(pred).push(t1.last()));
                assert(kept.deep_view() == kept0.push(x@));
                assert(kept.deep_view() =~= t1.filter(pred));
            } else {
                assert(!pred(t1.last()));
                assert(t1.filter(pred) == t1.drop_last().filter(pred));
                assert(kept.deep_view() =~= t1.filter(pred));
            }
        }
        i = i + 1;
    }
    proof {
        assert(allv.take(allv.len() as int) =~= allv);
    }
    sort_paths(kept)
}

/// Copies a byte string.
pub fn clone_bytes(a: &Vec<u8>) -> (r: Vec<u8>)
    ensures
        r@ == a@,
{
    let mut out: Vec<u8> = Vec::new();
    let mut i: usize = 0;
    while i < a.len()
        invariant
            i <= a@.len(),
            out@ == a@.take(i as int),
        decreases a@.len() - i,
    {
        out.push(a[i]);
        proof {
            assert(out@ =~= a@.take(i as int + 1));
        }
        i = i + 1;
    }
    proof {
        assert(a@.take(a@.len() as int) =~= a@);
    }
    out
}

/// With nothing excluded, the selection is exactly the sorted input list.
pub proof fn lemma_walk_keeps_everything(all: Seq<Seq<u8>>, output: Seq<u8>)
    requires
        forall|k: int| 0 <= k < all.len() ==> spec_should_visit(#[trigger] all[k], None, output),
    ensures
        walk_selects(all, output) == all.sort_by(lex_leq()),
{
    assert forall|k: int| 0 <= k < all.len() implies visible_pred(output)(#[trigger] all[k]) by {
        assert(spec_should_visit(all[k], None, output));
    }
    lemma_filter_everything(all, visible_pred(output));
}

proof fn lemma_filter_everything(s: Seq<Seq<u8>>, pred: spec_fn(Seq<u8>) -> bool)
    requires
        forall|k: int| 0 <= k < s.len() ==> pred(#[trigger] s[k]),
    ensures
        s.filter(pred) == s,
    decreases s.len(),
{
    reveal(Seq::filter);
    if s.len() == 0 {
    } else {
        lemma_filter_everything(s.drop_last(), pred);
        assert(s.filter(pred) =~= s);
    }
}

} // verus!
