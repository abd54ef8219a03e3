//! Reconstruction of the directory tree from the flat, filtered path list,
//! and the directory/file counts of the structure summary.

use vstd::prelude::*;
use vstd::seq_lib::lemma_sorted_unique;
use crate::order::{lex_le, lex_leq, lemma_lex_le_antisym, lemma_lex_le_connected,
    lemma_lex_le_trans, lemma_lex_total_ordering, sort_paths};
use crate::paths::{segments, split_segments, DOT};

verus! {

broadcast use
    vstd::seq::axiom_seq_index_decreases,
    vstd::seq::axiom_seq_subrange_decreases,
    vstd::std_specs::vec::axiom_vec_decreases_to_view;

/// One node of the reconstructed hierarchy: a path component and its
/// children, ordered by label.
pub struct TreeNode {
    pub label: Vec<u8>,
    pub children: Vec<TreeNode>,
}

/// The mathematical shape of a tree node.
pub ghost struct TreeView {
    pub label: Seq<u8>,
    pub children: Seq<TreeView>,
}

/// The shape of one node.
pub open spec fn node_view(n: TreeNode) -> TreeView
    decreases n,
{
    TreeView { label: n.label@, children: forest_view(n.children@) }
}

/// The shapes of a list of sibling nodes.
pub open spec fn forest_view(ns: Seq<TreeNode>) -> Seq<TreeView>
    decreases ns,
{
    if ns.len() == 0 {
        Seq::empty()
    } else {
        forest_view(ns.drop_last()).push(node_view(ns.last()))
    }
}

impl View for TreeNode {
    type V = TreeView;

    open spec fn view(&self) -> TreeView {
        node_view(*self)
    }
}

pub proof fn lemma_forest_view_index(ns: Seq<TreeNode>)
    ensures
        forest_view(ns).len() == ns.len(),
        forall|i: int| 0 <= i < ns.len() ==> forest_view(ns)[i] == node_view(ns[i]),
    decreases ns.len(),
{
    if ns.len() != 0 {
        lemma_forest_view_index(ns.drop_last());
        assert forall|i: int| 0 <= i < ns.len() implies forest_view(ns)[i] == node_view(ns[i]) by {
            if i < ns.len() - 1 {
                assert(forest_view(ns.drop_last())[i] == node_view(ns.drop_last()[i]));
            }
        }
    }
}

/// A chain of single-child nodes for the given path components.
pub open spec fn make_chain(segs: Seq<Seq<u8>>) -> TreeView
    recommends
        segs.len() >= 1,
    decreases segs.len(),
{
    if segs.len() <= 1 {
        TreeView {
            label: if segs.len() == 1 { segs[0] } else { Seq::empty() },
            children: Seq::empty(),
        }
    } else {
        TreeView { label: segs[0], children: seq![make_chain(segs.skip(1))] }
    }
}

/// Inserts one path, given as components, into a forest whose siblings are
/// ordered by label: an existing node with the first component's label is
/// descended into, otherwise a chain is placed at its ordered position.
pub open spec fn forest_insert(forest: Seq<TreeView>, segs: Seq<Seq<u8>>) -> Seq<TreeView>
    decreases segs.len(), forest.len(),
{
    if segs.len() == 0 {
        forest
    } else if forest.len() == 0 {
        seq![make_chain(segs)]
    } else if forest[0].label == segs[0] {
        forest.update(
            0,
            TreeView {
                label: forest[0].label,
                children: forest_insert(forest[0].children, segs.skip(1)),
            },
        )
    } else if lex_le(segs[0], forest[0].label) {
        seq![make_chain(segs)] + forest
    } else {
        seq![forest[0]] + forest_insert(forest.skip(1), segs)
    }
}

/// The forest that a path list reconstructs, one insertion per path.
pub open spec fn forest_of(paths: Seq<Seq<u8>>) -> Seq<TreeView>
    decreases paths.len(),
{
    if paths.len() == 0 {
        Seq::empty()
    } else {
        forest_insert(forest_of(paths.drop_last()), segments(paths.last()))
    }
}

/// The tree that a path list reconstructs: the sorted list is folded into a
/// forest under the sentinel root label `.`.
pub open spec fn tree_model(paths: Seq<Seq<u8>>) -> TreeView {
    TreeView { label: seq![DOT], children: forest_of(paths.sort_by(lex_leq())) }
}

/// Where one insertion lands, given the position of the first sibling that is
/// not strictly below the new label: a matching sibling is descended into,
/// anything else makes room for a new chain.
proof fn lemma_forest_insert_at(forest: Seq<TreeView>, segs: Seq<Seq<u8>>, pos: int)
    requires
        segs.len() > 0,
        0 <= pos <= forest.len(),
        forall|j: int| 0 <= j < pos ==> lex_le(#[trigger] forest[j].label, segs[0])
            && forest[j].label != segs[0],
        pos < forest.len() ==> (forest[pos].label == segs[0] || (lex_le(segs[0], forest[pos].label)
            && segs[0] != forest[pos].label)),
    ensures
        forest_insert(forest, segs) == (if pos < forest.len() && forest[pos].label == segs[0] {
            forest.update(
                pos,
                TreeView {
                    label: forest[pos].label,
                    children: forest_insert(forest[pos].children, segs.skip(1)),
                },
            )
        } else {
            forest.insert(pos, make_chain(segs))
        }),
    decreases pos,
{
    if pos == 0 {
        if forest.len() == 0 {
            assert(seq![make_chain(segs)] =~= forest.insert(0, make_chain(segs)));
        } else if forest[0].label == segs[0] {
        } else {
            assert(lex_le(segs[0], forest[0].label));
            assert(seq![make_chain(segs)] + forest =~= forest.insert(0, make_chain(segs)));
        }
    } else {
        assert(lex_le(forest[0].label, segs[0]) && forest[0].label != segs[0]);
        if lex_le(segs[0], forest[0].label) {
            lemma_lex_le_antisym(segs[0], forest[0].label);
            assert(false);
        }
        let rest = forest.skip(1);
        assert forall|j: int| 0 <= j < pos - 1 implies lex_le(#[trigger] rest[j].label, segs[0])
            && rest[j].label != segs[0] by {
            assert(rest[j] == forest[j + 1]);
        }
        lemma_forest_insert_at(rest, segs, pos - 1);
        assert(forest_insert(forest, segs) == seq![forest[0]] + forest_insert(rest, segs));
        if pos < forest.len() && forest[pos].label == segs[0] {
            assert(rest[pos - 1] == forest[pos]);
            let upd = TreeView {
                label: forest[pos].label,
                children: forest_insert(forest[pos].children, segs.skip(1)),
            };
            assert(seq![forest[0]] + rest.update(pos - 1, upd) =~= forest.update(pos, upd));
        } else {
            assert(seq![forest[0]] + rest.insert(pos - 1, make_chain(segs)) =~= forest.insert(
                pos,
                make_chain(segs),
            ));
        }
    }
}

/// Builds the chain of nodes for the components `segs[from..]`.
fn make_chain_node(segs: &Vec<Vec<u8>>, from: usize) -> (t: TreeNode)
    requires
        from < segs@.len(),
    ensures
        node_view(t) == make_chain(segs.deep_view().skip(from as int)),
    decreases segs@.len() - from,
{
    let label = crate::paths::clone_bytes(&segs[from]);
    let ghost ss = segs.deep_view().skip(from as int);
    proof {
        assert(ss[0] == segs@[from as int].deep_view());
        assert(segs@[from as int].deep_view() =~= segs@[from as int]@);
    }
    if from == segs.len() - 1 {
        let t = TreeNode { label, children: Vec::new() };
        proof {
            assert(t.children@ =~= Seq::<TreeNode>::empty());
            assert(forest_view(t.children@) =~= Seq::<TreeView>::empty());
            assert(node_view(t) == make_chain(ss));
        }
        t
    } else {
        let child = make_chain_node(segs, from + 1);
        let ghost childv = node_view(child);
        let mut children: Vec<TreeNode> = Vec::new();
        children.push(child);
        let t = TreeNode { label, children };
        proof {
            assert(t.children@.drop_last() =~= Seq::<TreeNode>::empty());
            assert(forest_view(t.children@.drop_last()) =~= Seq::<TreeView>::empty());
            assert(t.children@.last() == child);
            assert(forest_view(t.children@) =~= seq![childv]);
            assert(ss.skip(1) =~= segs.deep_view().skip(from as int + 1));
            assert(node_view(t).children =~= make_chain(ss).children);
            assert(node_view(t) == make_chain(ss));
        }
        t
    }
}

/// Inserts the path with components `segs[from..]` into an ordered forest.
fn insert_forest(forest: &mut Vec<TreeNode>, segs: &Vec<Vec<u8>>, from: usize)
    requires
        from < segs@.len(),
    ensures
        forest_view(final(forest)@) == forest_insert(
            forest_view(old(forest)@),
            segs.deep_view().skip(from as int),
        ),
    decreases segs@.len() - from,
{
    let ghost f0 = forest_view(forest@);
    let ghost n0 = forest@;
    let ghost ss = segs.deep_view().skip(from as int);
    proof {
        lemma_forest_view_index(forest@);
        assert(ss.len() > 0);
        assert(ss[0] == segs@[from as int].deep_view());
        assert(segs@[from as int].deep_view() =~= segs@[from as int]@);
    }
    let seg = &segs[from];
    let mut pos: usize = 0;
    while pos < forest.len() && crate::paths::bytes_lt(&forest[pos].label, seg)
        invariant
            pos <= forest@.len(),
            forest@ == n0,
            f0 == forest_view(n0),
            f0.len() == n0.len(),
            forall|j: int| 0 <= j < n0.len() ==> f0[j] == node_view(n0[j]),
            ss.len() > 0,
            ss[0] == seg@,
            forall|j: int| 0 <= j < pos ==> lex_le(#[trigger] f0[j].label, ss[0])
                && f0[j].label != ss[0],
        decreases forest@.len() - pos,
    {
        pos = pos + 1;
    }
    let descend = pos < forest.len() && crate::paths::bytes_eq(&forest[pos].label, seg);
    proof {
        if pos < n0.len() && !descend {
            assert(!(lex_le(n0[pos as int].label@, seg@) && n0[pos as int].label@ != seg@));
            assert(n0[pos as int].label@ != seg@);
            lemma_lex_le_connected(ss[0], f0[pos as int].label);
        }
        lemma_forest_insert_at(f0, ss, pos as int);
    }
    if descend {
        let mut child = forest.remove(pos);
        proof {
            assert(child == n0[pos as int]);
        }
        let ghost lbl = child.label@;
        if from < segs.len() - 1 {
            insert_forest(&mut child.children, segs, from + 1);
            proof {
                assert(segs.deep_view().skip(from as int + 1) =~= ss.skip(1));
            }
        } else {
            proof {
                assert(ss.skip(1) =~= Seq::<Seq<u8>>::empty());
                assert(forest_insert(forest_view(child.children@), ss.skip(1))
                    == forest_view(child.children@));
            }
        }
        let ghost newv = node_view(child);
        forest.insert(pos, child);
        proof {
            assert(newv == TreeView {
                label: f0[pos as int].label,
                children: forest_insert(f0[pos as int].children, ss.skip(1)),
            });
            assert(forest@ =~= n0.update(pos as int, forest@[pos as int]));
            lemma_forest_view_index(forest@);
            assert(forest_view(forest@) =~= f0.update(pos as int, newv));
        }
    } else {
        let chain = make_chain_node(segs, from);
        let ghost chainv = node_view(chain);
        forest.insert(pos, chain);
        proof {
            lemma_forest_view_index(forest@);
            assert forall|j: int| 0 <= j < forest@.len() implies forest_view(forest@)[j]
                == f0.insert(pos as int, chainv)[j] by {
                if j < pos {
                    assert(forest@[j] == n0[j]);
                } else if j > pos {
                    assert(forest@[j] == n0[j - 1]);
                }
            }
            assert(forest_view(forest@) =~= f0.insert(pos as int, chainv));
        }
    }
}

/// Reconstructs the tree from the flat path list: the list is sorted and each
/// path's components are inserted in turn under the sentinel root.
pub fn build_tree(paths: &Vec<Vec<u8>>) -> (t: TreeNode)
    ensures
        t@ == tree_model(paths.deep_view()),
{
    let mut copies: Vec<Vec<u8>> = Vec::new();
    let mut i: usize = 0;
    proof {
        assert(copies.deep_view() =~= paths.deep_view().take(0));
    }
    while i < paths.len()
        invariant
            i <= paths@.len(),
            copies.deep_view() == paths.deep_view().take(i as int),
        decreases paths@.len() - i,
    {
        let ghost c0 = copies.deep_view();
        let c = crate::paths::clone_bytes(&paths[i]);
        copies.push(c);
        proof {
            assert(paths@[i as int].deep_view() =~= paths@[i as int]@);
            assert(copies.deep_view() =~~= c0.push(paths.deep_view()[i as int]));
            assert(copies.deep_view() =~= paths.deep_view().take(i as int + 1));
        }
        i = i + 1;
    }
    proof {
        assert(paths.deep_view().take(paths.deep_view().len() as int) =~= paths.deep_view());
    }
    let sorted = sort_paths(copies);
    let ghost sv = sorted.deep_view();
    let mut forest: Vec<TreeNode> = Vec::new();
    let mut k: usize = 0;
    proof {
        assert(forest_view(forest@) =~= Seq::<TreeView>::empty());
        assert(sv.take(0) =~= Seq::<Seq<u8>>::empty());
    }
    while k < sorted.len()
        invariant
            k <= sorted@.len(),
            sv == sorted.deep_view(),
            forest_view(forest@) == forest_of(sv.take(k as int)),
        decreases sorted@.len() - k,
    {
        let ghost fv0 = forest_view(forest@);
        let segs = split_segments(&sorted[k]);
        proof {
            crate::paths::lemma_segments_nonempty(sorted@[k as int]@);
            assert(segs.deep_view().len() >= 1);
        }
        insert_forest(&mut forest, &segs, 0);
        proof {
            assert(sorted@[k as int].deep_view() =~= sorted@[k as int]@);
            assert(segs.deep_view().skip(0) =~= segs.deep_view());
            let t1 = sv.take(k as int + 1);
            assert(t1.drop_last() =~= sv.take(k as int));
            assert(t1.last() == sv[k as int]);
            assert(forest_of(t1) == forest_insert(forest_of(sv.take(k as int)), segments(sv[k as int])));
            assert(forest_view(forest@) == forest_of(t1));
        }
        k = k + 1;
    }
    let mut label: Vec<u8> = Vec::new();
    label.push(DOT);
    let t = TreeNode { label, children: forest };
    proof {
        assert(sv.take(sv.len() as int) =~= sv);
        assert(t.label@ =~= seq![DOT]);
        assert(t@ == tree_model(paths.deep_view()));
    }
    t
}

/// Whether the forest has a node at exactly the given component path.
pub open spec fn forest_contains(forest: Seq<TreeView>, segs: Seq<Seq<u8>>) -> bool
    decreases segs.len(),
{
    segs.len() > 0 && exists|i: int|
        0 <= i < forest.len() && (#[trigger] forest[i]).label == segs[0] && (segs.len() == 1
            || forest_contains(forest[i].children, segs.skip(1)))
}

proof fn lemma_chain_contains(forest: Seq<TreeView>, i: int, segs: Seq<Seq<u8>>)
    requires
        segs.len() > 0,
        0 <= i < forest.len(),
        forest[i] == make_chain(segs),
    ensures
        forest_contains(forest, segs),
    decreases segs.len(),
{
    if segs.len() == 1 {
    } else {
        lemma_chain_contains(seq![make_chain(segs.skip(1))], 0, segs.skip(1));
    }
}

proof fn lemma_insert_contains_inserted(forest: Seq<TreeView>, segs: Seq<Seq<u8>>)
    requires
        segs.len() > 0,
    ensures
        forest_contains(forest_insert(forest, segs), segs),
    decreases segs.len(), forest.len(),
{
    let fi = forest_insert(forest, segs);
    if forest.len() == 0 {
        lemma_chain_contains(fi, 0, segs);
    } else if forest[0].label == segs[0] {
        if segs.len() == 1 {
            assert(fi[0].label == segs[0]);
        } else {
            lemma_insert_contains_inserted(forest[0].children, segs.skip(1));
            assert(fi[0].label == segs[0]);
            assert(fi[0].children == forest_insert(forest[0].children, segs.skip(1)));
        }
    } else if lex_le(segs[0], forest[0].label) {
        lemma_chain_contains(fi, 0, segs);
    } else {
        lemma_insert_contains_inserted(forest.skip(1), segs);
        let rest = forest_insert(forest.skip(1), segs);
        let i = choose|i: int|
            0 <= i < rest.len() && (#[trigger] rest[i]).label == segs[0] && (segs.len() == 1
                || forest_contains(rest[i].children, segs.skip(1)));
        assert(fi[i + 1] == rest[i]);
    }
}

proof fn lemma_insert_keeps_contained(forest: Seq<TreeView>, segs: Seq<Seq<u8>>, t: Seq<Seq<u8>>)
    requires
        segs.len() > 0,
        forest_contains(forest, t),
    ensures
        forest_contains(forest_insert(forest, segs), t),
    decreases segs.len(), forest.len(),
{
    let fi = forest_insert(forest, segs);
    let i = choose|i: int|
        0 <= i < forest.len() && (#[trigger] forest[i]).label == t[0] && (t.len() == 1
            || forest_contains(forest[i].children, t.skip(1)));
    if forest[0].label == segs[0] {
        if i == 0 {
            assert(fi[0].label == forest[0].label);
            if t.len() > 1 {
                if segs.len() > 1 {
                    lemma_insert_keeps_contained(forest[0].children, segs.skip(1), t.skip(1));
                } else {
                    assert(segs.skip(1).len() == 0);
                }
                assert(fi[0].children == forest_insert(forest[0].children, segs.skip(1)));
            }
        } else {
            assert(fi[i] == forest[i]);
        }
    } else if lex_le(segs[0], forest[0].label) {
        assert(fi[i + 1] == forest[i]);
    } else {
        if i == 0 {
            assert(fi[0] == forest[0]);
        } else {
            let rest = forest.skip(1);
            assert(rest[i - 1] == forest[i]);
            assert(forest_contains(rest, t));
            lemma_insert_keeps_contained(rest, segs, t);
            let ri = forest_insert(rest, segs);
            let j = choose|j: int|
                0 <= j < ri.len() && (#[trigger] ri[j]).label == t[0] && (t.len() == 1
                    || forest_contains(ri[j].children, t.skip(1)));
            assert(fi[j + 1] == ri[j]);
        }
    }
}

proof fn lemma_every_listed_path_in_forest(l: Seq<Seq<u8>>)
    ensures
        forall|k: int| 0 <= k < l.len() ==> forest_contains(forest_of(l), segments(#[trigger] l[k])),
    decreases l.len(),
{
    if l.len() > 0 {
        lemma_every_listed_path_in_forest(l.drop_last());
        crate::paths::lemma_segments_nonempty(l.last());
        lemma_insert_contains_inserted(forest_of(l.drop_last()), segments(l.last()));
        assert forall|k: int| 0 <= k < l.len() implies forest_contains(
            forest_of(l),
            segments(#[trigger] l[k]),
        ) by {
            if k < l.len() - 1 {
                assert(l.drop_last()[k] == l[k]);
                assert(forest_contains(forest_of(l.drop_last()), segments(l[k])));
                crate::paths::lemma_segments_nonempty(l[k]);
                lemma_insert_keeps_contained(
                    forest_of(l.drop_last()),
                    segments(l.last()),
                    segments(l[k]),
                );
            }
        }
    }
}

/// Every entry of the flat path list has a node in the reconstructed tree at
/// exactly its component path.
pub proof fn lemma_every_entry_in_tree(l: Seq<Seq<u8>>)
    ensures
        forall|k: int| 0 <= k < l.len() ==> forest_contains(
            tree_model(l).children,
            segments(#[trigger] l[k]),
        ),
{
    broadcast use vstd::seq_lib::group_to_multiset_ensures;

    lemma_lex_total_ordering();
    l.lemma_sort_by_ensures(lex_leq());
    let sorted = l.sort_by(lex_leq());
    lemma_every_listed_path_in_forest(sorted);
    assert forall|k: int| 0 <= k < l.len() implies forest_contains(
        tree_model(l).children,
        segments(#[trigger] l[k]),
    ) by {
        assert(l.to_multiset().contains(l[k]));
        assert(sorted.to_multiset().contains(l[k]));
        assert(sorted.contains(l[k]));
        let j = choose|j: int| 0 <= j < sorted.len() && sorted[j] == l[k];
        assert(forest_contains(forest_of(sorted), segments(sorted[j])));
    }
}

/// Whether the component path `a` is a (possibly full) prefix of `b`.
pub open spec fn is_seg_prefix(a: Seq<Seq<u8>>, b: Seq<Seq<u8>>) -> bool {
    a.len() <= b.len() && a == b.take(a.len() as int)
}

/// The tree also holds every nonempty prefix of a contained path: the
/// ancestors of a node are nodes.
pub proof fn lemma_contains_prefix(forest: Seq<TreeView>, t: Seq<Seq<u8>>, m: int)
    requires
        forest_contains(forest, t),
        1 <= m <= t.len(),
    ensures
        forest_contains(forest, t.take(m)),
    decreases t.len(),
{
    let i = choose|i: int|
        0 <= i < forest.len() && (#[trigger] forest[i]).label == t[0] && (t.len() == 1
            || forest_contains(forest[i].children, t.skip(1)));
    assert(t.take(m)[0] == t[0]);
    if m == 1 {
        assert(forest[i].label == t.take(1)[0]);
    } else {
        lemma_contains_prefix(forest[i].children, t.skip(1), m - 1);
        assert(t.skip(1).take(m - 1) =~= t.take(m).skip(1));
        assert(forest[i].label == t.take(m)[0]);
    }
}

proof fn lemma_chain_paths(s: Seq<Seq<u8>>, t: Seq<Seq<u8>>)
    requires
        s.len() > 0,
        forest_contains(seq![make_chain(s)], t),
    ensures
        is_seg_prefix(t, s),
    decreases s.len(),
{
    let forest = seq![make_chain(s)];
    let i = choose|i: int|
        0 <= i < forest.len() && (#[trigger] forest[i]).label == t[0] && (t.len() == 1
            || forest_contains(forest[i].children, t.skip(1)));
    assert(i == 0);
    assert(t[0] == s[0]);
    if t.len() == 1 {
        assert(t =~= s.take(1));
    } else {
        assert(s.len() > 1);
        assert(make_chain(s).children =~= seq![make_chain(s.skip(1))]);
        lemma_chain_paths(s.skip(1), t.skip(1));
        assert(t.skip(1) == s.skip(1).take(t.len() - 1));
        assert forall|j: int| 0 <= j < t.len() implies t[j] == s.take(t.len() as int)[j] by {
            if j > 0 {
                assert(t[j] == t.skip(1)[j - 1]);
                assert(s.skip(1).take(t.len() - 1)[j - 1] == s[j]);
            }
        }
        assert(t =~= s.take(t.len() as int));
    }
}

proof fn lemma_insert_paths(forest: Seq<TreeView>, s: Seq<Seq<u8>>, t: Seq<Seq<u8>>)
    requires
        s.len() > 0,
        forest_contains(forest_insert(forest, s), t),
    ensures
        forest_contains(forest, t) || is_seg_prefix(t, s),
    decreases s.len(), forest.len(),
{
    let fi = forest_insert(forest, s);
    let i = choose|i: int|
        0 <= i < fi.len() && (#[trigger] fi[i]).label == t[0] && (t.len() == 1 || forest_contains(
            fi[i].children,
            t.skip(1),
        ));
    if forest.len() == 0 {
        lemma_chain_paths(s, t);
    } else if forest[0].label == s[0] {
        if i != 0 {
            assert(fi[i] == forest[i]);
        } else {
            assert(t[0] == forest[0].label);
            if t.len() == 1 {
                assert(forest[0].label == t[0]);
            } else {
                if s.len() == 1 {
                    assert(s.skip(1).len() == 0);
                    assert(forest_insert(forest[0].children, s.skip(1)) == forest[0].children);
                    assert(fi[0].children == forest[0].children);
                } else {
                    lemma_insert_paths(forest[0].children, s.skip(1), t.skip(1));
                    if !forest_contains(forest[0].children, t.skip(1)) {
                        assert(t.skip(1) == s.skip(1).take(t.len() - 1));
                        assert forall|j: int| 0 <= j < t.len() implies t[j] == s.take(
                            t.len() as int,
                        )[j] by {
                            if j > 0 {
                                assert(t[j] == t.skip(1)[j - 1]);
                                assert(s.skip(1).take(t.len() - 1)[j - 1] == s[j]);
                            }
                        }
                        assert(t =~= s.take(t.len() as int));
                    }
                }
            }
        }
    } else if lex_le(s[0], forest[0].label) {
        if i == 0 {
            assert(fi[0] == make_chain(s));
            assert(seq![make_chain(s)][0] == make_chain(s));
            lemma_chain_paths(s, t);
        } else {
            assert(fi[i] == forest[i - 1]);
        }
    } else {
        if i == 0 {
            assert(fi[0] == forest[0]);
        } else {
            let ri = forest_insert(forest.skip(1), s);
            assert(fi[i] == ri[i - 1]);
            lemma_insert_paths(forest.skip(1), s, t);
            if forest_contains(forest.skip(1), t) {
                let rest = forest.skip(1);
                let j = choose|j: int|
                    0 <= j < rest.len() && (#[trigger] rest[j]).label == t[0] && (t.len() == 1
                        || forest_contains(rest[j].children, t.skip(1)));
                assert(forest[j + 1] == rest[j]);
            }
        }
    }
}

proof fn lemma_forest_of_paths(l: Seq<Seq<u8>>, t: Seq<Seq<u8>>)
    requires
        forest_contains(forest_of(l), t),
    ensures
        exists|k: int| 0 <= k < l.len() && is_seg_prefix(t, segments(#[trigger] l[k])),
    decreases l.len(),
{
    assert(l.len() > 0);
    crate::paths::lemma_segments_nonempty(l.last());
    lemma_insert_paths(forest_of(l.drop_last()), segments(l.last()), t);
    if forest_contains(forest_of(l.drop_last()), t) {
        lemma_forest_of_paths(l.drop_last(), t);
        let k = choose|k: int|
            0 <= k < l.drop_last().len() && is_seg_prefix(t, segments(#[trigger] l.drop_last()[k]));
        assert(l.drop_last()[k] == l[k]);
        assert(is_seg_prefix(t, segments(l[k])));
    } else {
        assert(is_seg_prefix(t, segments(l[l.len() - 1])));
    }
}

/// The tree holds nothing the list did not put there: every node of the
/// reconstructed tree stands at a prefix of some entry's component path.
/// Together with `lemma_every_entry_in_tree` and `lemma_contains_prefix` this
/// pins the node set down exactly: a component path has a node if and only if
/// it is a nonempty prefix of an entry.
pub proof fn lemma_tree_has_only_entries(l: Seq<Seq<u8>>, t: Seq<Seq<u8>>)
    requires
        forest_contains(tree_model(l).children, t),
    ensures
        exists|k: int| 0 <= k < l.len() && is_seg_prefix(t, segments(#[trigger] l[k])),
{
    broadcast use vstd::seq_lib::group_to_multiset_ensures;

    lemma_lex_total_ordering();
    l.lemma_sort_by_ensures(lex_leq());
    let sorted = l.sort_by(lex_leq());
    lemma_forest_of_paths(sorted, t);
    let j = choose|j: int| 0 <= j < sorted.len() && is_seg_prefix(t, segments(#[trigger] sorted[j]));
    assert(sorted.contains(sorted[j]));
    assert(sorted.to_multiset().contains(sorted[j]));
    assert(l.to_multiset().contains(sorted[j]));
    assert(l.contains(sorted[j]));
    let k = choose|k: int| 0 <= k < l.len() && l[k] == sorted[j];
    assert(is_seg_prefix(t, segments(l[k])));
}

/// Whether the forest has a node at the given component path with no
/// children: a leaf.
pub open spec fn forest_has_leaf(forest: Seq<TreeView>, t: Seq<Seq<u8>>) -> bool
    decreases t.len(),
{
    t.len() > 0 && exists|i: int|
        0 <= i < forest.len() && (#[trigger] forest[i]).label == t[0] && (if t.len() == 1 {
            forest[i].children.len() == 0
        } else {
            forest_has_leaf(forest[i].children, t.skip(1))
        })
}

proof fn lemma_seg_prefix_trans(a: Seq<Seq<u8>>, b: Seq<Seq<u8>>, c: Seq<Seq<u8>>)
    requires
        is_seg_prefix(a, b),
        is_seg_prefix(b, c),
    ensures
        is_seg_prefix(a, c),
{
    assert(b.take(a.len() as int) =~= c.take(a.len() as int));
}

proof fn lemma_chain_has_leaf(s: Seq<Seq<u8>>)
    requires
        s.len() > 0,
    ensures
        forest_has_leaf(seq![make_chain(s)], s),
    decreases s.len(),
{
    let forest = seq![make_chain(s)];
    assert(forest[0] == make_chain(s));
    if s.len() > 1 {
        lemma_chain_has_leaf(s.skip(1));
        assert(make_chain(s).children == seq![make_chain(s.skip(1))]);
        assert(forest_has_leaf(forest[0].children, s.skip(1)));
    } else {
        assert(forest[0].label == s[0] && forest[0].children.len() == 0);
    }
}

proof fn lemma_insert_makes_leaf(forest: Seq<TreeView>, s: Seq<Seq<u8>>)
    requires
        s.len() > 0,
        forall|t: Seq<Seq<u8>>| forest_contains(forest, t) ==> !is_seg_prefix(s, t),
    ensures
        forest_has_leaf(forest_insert(forest, s), s),
    decreases s.len(), forest.len(),
{
    let fi = forest_insert(forest, s);
    if forest.len() == 0 {
        lemma_chain_has_leaf(s);
        assert(fi[0] == seq![make_chain(s)][0]);
        assert(forest_has_leaf(fi, s));
    } else if forest[0].label == s[0] {
        if s.len() == 1 {
            assert(forest_contains(forest, s));
            assert(is_seg_prefix(s, s)) by {
                assert(s =~= s.take(s.len() as int));
            }
            assert(false);
        } else {
            assert forall|t2: Seq<Seq<u8>>|
                forest_contains(forest[0].children, t2) implies !is_seg_prefix(
                s.skip(1),
                t2,
            ) by {
                let full = seq![s[0]] + t2;
                assert(full[0] == forest[0].label);
                assert(full.skip(1) =~= t2);
                assert(forest_contains(forest, full));
                if is_seg_prefix(s.skip(1), t2) {
                    assert forall|j: int| 0 <= j < s.len() implies s[j] == full.take(
                        s.len() as int,
                    )[j] by {
                        if j > 0 {
                            assert(s.skip(1)[j - 1] == t2.take(s.len() - 1)[j - 1]);
                        }
                    }
                    assert(s =~= full.take(s.len() as int));
                    assert(is_seg_prefix(s, full));
                }
            }
            lemma_insert_makes_leaf(forest[0].children, s.skip(1));
            assert(fi[0].label == s[0]);
            assert(fi[0].children == forest_insert(forest[0].children, s.skip(1)));
        }
    } else if lex_le(s[0], forest[0].label) {
        lemma_chain_has_leaf(s);
        assert(fi[0] == seq![make_chain(s)][0]);
        if s.len() > 1 {
            assert(forest_has_leaf(fi[0].children, s.skip(1)));
        }
        assert(forest_has_leaf(fi, s));
    } else {
        let rest = forest.skip(1);
        assert forall|t2: Seq<Seq<u8>>| forest_contains(rest, t2) implies !is_seg_prefix(
            s,
            t2,
        ) by {
            let j = choose|j: int|
                0 <= j < rest.len() && (#[trigger] rest[j]).label == t2[0] && (t2.len() == 1
                    || forest_contains(rest[j].children, t2.skip(1)));
            assert(forest[j + 1] == rest[j]);
            assert(forest_contains(forest, t2));
        }
        lemma_insert_makes_leaf(rest, s);
        let ri = forest_insert(rest, s);
        let i = choose|i: int|
            0 <= i < ri.len() && (#[trigger] ri[i]).label == s[0] && (if s.len() == 1 {
                ri[i].children.len() == 0
            } else {
                forest_has_leaf(ri[i].children, s.skip(1))
            });
        assert(fi[i + 1] == ri[i]);
    }
}

proof fn lemma_insert_keeps_leaf(forest: Seq<TreeView>, s: Seq<Seq<u8>>, t: Seq<Seq<u8>>)
    requires
        s.len() > 0,
        forest_has_leaf(forest, t),
        !is_seg_prefix(t, s),
    ensures
        forest_has_leaf(forest_insert(forest, s), t),
    decreases s.len(), forest.len(),
{
    let fi = forest_insert(forest, s);
    let i = choose|i: int|
        0 <= i < forest.len() && (#[trigger] forest[i]).label == t[0] && (if t.len() == 1 {
            forest[i].children.len() == 0
        } else {
            forest_has_leaf(forest[i].children, t.skip(1))
        });
    if forest[0].label == s[0] {
        if i != 0 {
            assert(fi[i] == forest[i]);
        } else {
            if t.len() == 1 && t[0] == s[0] {
                assert(t =~= s.take(1));
                assert(is_seg_prefix(t, s));
                assert(false);
            }
            assert(t.len() > 1);
            if s.len() == 1 {
                assert(s.skip(1).len() == 0);
                assert(forest_insert(forest[0].children, s.skip(1)) == forest[0].children);
                assert(fi[0].children == forest[0].children);
            } else {
                if is_seg_prefix(t.skip(1), s.skip(1)) {
                    assert forall|j: int| 0 <= j < t.len() implies t[j] == s.take(
                        t.len() as int,
                    )[j] by {
                        if j > 0 {
                            assert(t.skip(1)[j - 1] == s.skip(1).take(t.len() - 1)[j - 1]);
                        }
                    }
                    assert(t =~= s.take(t.len() as int));
                    assert(false);
                }
                lemma_insert_keeps_leaf(forest[0].children, s.skip(1), t.skip(1));
                assert(fi[0].children == forest_insert(forest[0].children, s.skip(1)));
            }
            assert(fi[0].label == t[0]);
        }
    } else if lex_le(s[0], forest[0].label) {
        assert(fi[i + 1] == forest[i]);
    } else {
        if i == 0 {
            assert(fi[0] == forest[0]);
        } else {
            let rest = forest.skip(1);
            assert(rest[i - 1] == forest[i]);
            assert(forest_has_leaf(rest, t));
            lemma_insert_keeps_leaf(rest, s, t);
            let ri = forest_insert(rest, s);
            let j = choose|j: int|
                0 <= j < ri.len() && (#[trigger] ri[j]).label == t[0] && (if t.len() == 1 {
                    ri[j].children.len() == 0
                } else {
                    forest_has_leaf(ri[j].children, t.skip(1))
                });
            assert(fi[j + 1] == ri[j]);
        }
    }
}

proof fn lemma_fold_entries_are_leaves(l: Seq<Seq<u8>>)
    requires
        l.no_duplicates(),
        forall|a: Seq<u8>, b: Seq<u8>| l.contains(a) && l.contains(b) && a != b
            ==> !is_seg_prefix(segments(a), segments(b)),
    ensures
        forall|k: int| 0 <= k < l.len() ==> forest_has_leaf(forest_of(l), segments(#[trigger] l[k])),
    decreases l.len(),
{
    if l.len() > 0 {
        let prev = l.drop_last();
        assert forall|a: Seq<u8>, b: Seq<u8>|
            prev.contains(a) && prev.contains(b) && a != b implies !is_seg_prefix(
            segments(a),
            segments(b),
        ) by {
            let ia = choose|ia: int| 0 <= ia < prev.len() && prev[ia] == a;
            let ib = choose|ib: int| 0 <= ib < prev.len() && prev[ib] == b;
            assert(l[ia] == a && l[ib] == b);
        }
        lemma_fold_entries_are_leaves(prev);
        let s = segments(l.last());
        crate::paths::lemma_segments_nonempty(l.last());
        assert forall|t: Seq<Seq<u8>>| forest_contains(forest_of(prev), t) implies !is_seg_prefix(
            s,
            t,
        ) by {
            lemma_forest_of_paths(prev, t);
            let k = choose|k: int|
                0 <= k < prev.len() && is_seg_prefix(t, segments(#[trigger] prev[k]));
            if is_seg_prefix(s, t) {
                lemma_seg_prefix_trans(s, t, segments(prev[k]));
                assert(l[k] == prev[k]);
                assert(l.contains(l[k]) && l.contains(l.last()));
                assert(l.last() != l[k]);
            }
        }
        lemma_insert_makes_leaf(forest_of(prev), s);
        assert forall|k: int| 0 <= k < l.len() implies forest_has_leaf(
            forest_of(l),
            segments(#[trigger] l[k]),
        ) by {
            if k < l.len() - 1 {
                assert(prev[k] == l[k]);
                assert(forest_has_leaf(forest_of(prev), segments(l[k])));
                crate::paths::lemma_segments_nonempty(l[k]);
                assert(l.contains(l[k]) && l.contains(l.last()));
                assert(l[k] != l.last());
                lemma_insert_keeps_leaf(forest_of(prev), s, segments(l[k]));
            }
        }
    }
}

/// Every entry of a duplicate-free path list in which no entry is an ancestor
/// of another has a leaf of the reconstructed tree at exactly its component
/// path. (An entry that is an ancestor of another, as a directory listed
/// beside its own files is, has children and is no leaf.)
pub proof fn lemma_entries_are_leaves(l: Seq<Seq<u8>>)
    requires
        l.no_duplicates(),
        forall|a: Seq<u8>, b: Seq<u8>| l.contains(a) && l.contains(b) && a != b
            ==> !is_seg_prefix(segments(a), segments(b)),
    ensures
        forall|k: int| 0 <= k < l.len() ==> forest_has_leaf(
            tree_model(l).children,
            segments(#[trigger] l[k]),
        ),
{
    broadcast use vstd::seq_lib::group_to_multiset_ensures;

    lemma_lex_total_ordering();
    l.lemma_sort_by_ensures(lex_leq());
    let sorted = l.sort_by(lex_leq());
    l.lemma_multiset_has_no_duplicates();
    sorted.lemma_multiset_has_no_duplicates_conv();
    assert forall|a: Seq<u8>, b: Seq<u8>|
        sorted.contains(a) && sorted.contains(b) && a != b implies !is_seg_prefix(
        segments(a),
        segments(b),
    ) by {
        assert(sorted.to_multiset().contains(a) && sorted.to_multiset().contains(b));
        assert(l.to_multiset().contains(a) && l.to_multiset().contains(b));
        assert(l.contains(a) && l.contains(b));
    }
    lemma_fold_entries_are_leaves(sorted);
    assert forall|k: int| 0 <= k < l.len() implies forest_has_leaf(
        tree_model(l).children,
        segments(#[trigger] l[k]),
    ) by {
        assert(l.contains(l[k]));
        assert(l.to_multiset().contains(l[k]));
        assert(sorted.to_multiset().contains(l[k]));
        assert(sorted.contains(l[k]));
        let j = choose|j: int| 0 <= j < sorted.len() && sorted[j] == l[k];
        assert(forest_has_leaf(forest_of(sorted), segments(sorted[j])));
    }
}

/// Well-formedness of a forest: sibling labels strictly ascend at every
/// level, so every component path names at most one node.
pub open spec fn forest_wf(forest: Seq<TreeView>) -> bool
    decreases forest,
{
    &&& forall|i: int, j: int| 0 <= i < j < forest.len() ==> lex_le(
        (#[trigger] forest[i]).label,
        (#[trigger] forest[j]).label,
    ) && forest[i].label != forest[j].label
    &&& forall|i: int| 0 <= i < forest.len() ==> forest_wf((#[trigger] forest[i]).children)
}

proof fn lemma_chain_wf(s: Seq<Seq<u8>>)
    ensures
        forest_wf(seq![make_chain(s)]),
    decreases s.len(),
{
    let forest = seq![make_chain(s)];
    if s.len() <= 1 {
        assert(forest[0].children =~= Seq::<TreeView>::empty());
        assert(forest_wf(forest[0].children));
    } else {
        lemma_chain_wf(s.skip(1));
        assert(forest[0].children == seq![make_chain(s.skip(1))]);
    }
}

proof fn lemma_insert_preserves_wf(forest: Seq<TreeView>, s: Seq<Seq<u8>>)
    requires
        s.len() > 0,
        forest_wf(forest),
    ensures
        forest_wf(forest_insert(forest, s)),
    decreases s.len(), forest.len(),
{
    let fi = forest_insert(forest, s);
    if forest.len() == 0 {
        lemma_chain_wf(s);
    } else if forest[0].label == s[0] {
        if s.len() == 1 {
            assert(s.skip(1).len() == 0);
            assert(forest_insert(forest[0].children, s.skip(1)) == forest[0].children);
            assert(fi =~= forest);
        } else {
            lemma_insert_preserves_wf(forest[0].children, s.skip(1));
            assert forall|i: int| 0 <= i < fi.len() implies forest_wf(
                (#[trigger] fi[i]).children,
            ) by {
                if i != 0 {
                    assert(fi[i] == forest[i]);
                }
            }
            assert forall|i: int, j: int| 0 <= i < j < fi.len() implies lex_le(
                (#[trigger] fi[i]).label,
                (#[trigger] fi[j]).label,
            ) && fi[i].label != fi[j].label by {
                assert(fi[i].label == forest[i].label);
                assert(fi[j].label == forest[j].label);
            }
        }
    } else if lex_le(s[0], forest[0].label) {
        lemma_chain_wf(s);
        assert(fi[0] == make_chain(s));
        assert(seq![make_chain(s)][0] == make_chain(s));
        assert forall|i: int, j: int| 0 <= i < j < fi.len() implies lex_le(
            (#[trigger] fi[i]).label,
            (#[trigger] fi[j]).label,
        ) && fi[i].label != fi[j].label by {
            if i == 0 {
                assert(fi[j] == forest[j - 1]);
                if j > 1 {
                    lemma_lex_le_trans(s[0], forest[0].label, forest[j - 1].label);
                    if s[0] == forest[j - 1].label {
                        lemma_lex_le_antisym(forest[0].label, forest[j - 1].label);
                    }
                }
            } else {
                assert(fi[i] == forest[i - 1]);
                assert(fi[j] == forest[j - 1]);
            }
        }
        assert forall|i: int| 0 <= i < fi.len() implies forest_wf((#[trigger] fi[i]).children) by {
            if i > 0 {
                assert(fi[i] == forest[i - 1]);
            }
        }
    } else {
        let rest = forest.skip(1);
        lemma_lex_le_connected(s[0], forest[0].label);
        assert(lex_le(forest[0].label, s[0]) && forest[0].label != s[0]);
        assert(forest_wf(rest)) by {
            assert forall|i: int, j: int| 0 <= i < j < rest.len() implies lex_le(
                (#[trigger] rest[i]).label,
                (#[trigger] rest[j]).label,
            ) && rest[i].label != rest[j].label by {
                assert(rest[i] == forest[i + 1]);
                assert(rest[j] == forest[j + 1]);
            }
            assert forall|i: int| 0 <= i < rest.len() implies forest_wf(
                (#[trigger] rest[i]).children,
            ) by {
                assert(rest[i] == forest[i + 1]);
            }
        }
        lemma_insert_preserves_wf(rest, s);
        let ri = forest_insert(rest, s);
        // every label in the inserted rest is either an old label of rest or
        // the new one, so it stays strictly above the head's label
        assert forall|j: int| 0 <= j < ri.len() implies lex_le(forest[0].label, (#[trigger] ri[j]).label)
            && forest[0].label != ri[j].label by {
            lemma_insert_labels(rest, s, j);
            if ri[j].label == s[0] {
            } else {
                let k = choose|k: int| 0 <= k < rest.len() && (#[trigger] rest[k]).label == ri[j].label;
                assert(rest[k] == forest[k + 1]);
                if k > 0 {
                    lemma_lex_le_trans(forest[0].label, forest[1].label, forest[k + 1].label);
                }
                if forest[0].label == forest[k + 1].label {
                    assert(false);
                }
            }
        }
        assert forall|i: int, j: int| 0 <= i < j < fi.len() implies lex_le(
            (#[trigger] fi[i]).label,
            (#[trigger] fi[j]).label,
        ) && fi[i].label != fi[j].label by {
            assert(fi[j] == ri[j - 1]);
            if i > 0 {
                assert(fi[i] == ri[i - 1]);
            }
        }
        assert forall|i: int| 0 <= i < fi.len() implies forest_wf((#[trigger] fi[i]).children) by {
            if i > 0 {
                assert(fi[i] == ri[i - 1]);
            }
        }
    }
}

/// Every label after an insertion is an old label or the inserted one.
proof fn lemma_insert_labels(forest: Seq<TreeView>, s: Seq<Seq<u8>>, j: int)
    requires
        s.len() > 0,
        0 <= j < forest_insert(forest, s).len(),
    ensures
        forest_insert(forest, s)[j].label == s[0] || exists|k: int|
            0 <= k < forest.len() && (#[trigger] forest[k]).label == forest_insert(
                forest,
                s,
            )[j].label,
    decreases s.len(), forest.len(),
{
    let fi = forest_insert(forest, s);
    if forest.len() == 0 {
    } else if forest[0].label == s[0] {
        assert(fi[j].label == forest[j].label);
    } else if lex_le(s[0], forest[0].label) {
        if j > 0 {
            assert(fi[j] == forest[j - 1]);
        }
    } else {
        if j == 0 {
            assert(fi[0] == forest[0]);
        } else {
            let rest = forest.skip(1);
            assert(fi[j] == forest_insert(rest, s)[j - 1]);
            lemma_insert_labels(rest, s, j - 1);
            if fi[j].label != s[0] {
                let k = choose|k: int| 0 <= k < rest.len() && (#[trigger] rest[k]).label == fi[j].label;
                assert(forest[k + 1] == rest[k]);
            }
        }
    }
}

proof fn lemma_forest_of_wf(l: Seq<Seq<u8>>)
    ensures
        forest_wf(forest_of(l)),
    decreases l.len(),
{
    if l.len() == 0 {
        assert(forest_wf(Seq::<TreeView>::empty()));
    } else {
        lemma_forest_of_wf(l.drop_last());
        crate::paths::lemma_segments_nonempty(l.last());
        lemma_insert_preserves_wf(forest_of(l.drop_last()), segments(l.last()));
    }
}

/// In a well-formed forest a leaf path is no proper prefix of a contained
/// path: the node a path names is unique, and a leaf has no children.
proof fn lemma_leaf_has_no_extension(forest: Seq<TreeView>, t: Seq<Seq<u8>>, u: Seq<Seq<u8>>)
    requires
        forest_wf(forest),
        forest_has_leaf(forest, t),
        forest_contains(forest, u),
        is_seg_prefix(t, u),
    ensures
        t == u,
    decreases t.len(),
{
    let i = choose|i: int|
        0 <= i < forest.len() && (#[trigger] forest[i]).label == t[0] && (if t.len() == 1 {
            forest[i].children.len() == 0
        } else {
            forest_has_leaf(forest[i].children, t.skip(1))
        });
    let j = choose|j: int|
        0 <= j < forest.len() && (#[trigger] forest[j]).label == u[0] && (u.len() == 1
            || forest_contains(forest[j].children, u.skip(1)));
    assert(t[0] == u.take(t.len() as int)[0]);
    assert(i == j) by {
        if i < j {
            assert(lex_le(forest[i].label, forest[j].label) && forest[i].label != forest[j].label);
        }
        if j < i {
            assert(lex_le(forest[j].label, forest[i].label) && forest[j].label != forest[i].label);
        }
    }
    if t.len() == 1 {
        if u.len() > 1 {
            assert(forest_contains(forest[j].children, u.skip(1)));
            assert(forest[i].children.len() == 0);
            assert(false);
        }
        assert(t =~= u);
    } else {
        assert(u.len() >= t.len());
        assert(is_seg_prefix(t.skip(1), u.skip(1))) by {
            assert forall|m: int| 0 <= m < t.len() - 1 implies t.skip(1)[m] == u.skip(1).take(
                t.len() - 1,
            )[m] by {
                assert(t[m + 1] == u.take(t.len() as int)[m + 1]);
            }
            assert(t.skip(1) =~= u.skip(1).take(t.len() - 1));
        }
        assert(forest_wf(forest[i].children));
        lemma_leaf_has_no_extension(forest[i].children, t.skip(1), u.skip(1));
        assert forall|m: int| 0 <= m < t.len() implies t[m] == u[m] by {
            if m > 0 {
                assert(t.skip(1)[m - 1] == u.skip(1)[m - 1]);
            }
        }
        assert(t =~= u);
    }
}

proof fn lemma_leaf_is_contained(forest: Seq<TreeView>, t: Seq<Seq<u8>>)
    requires
        forest_has_leaf(forest, t),
    ensures
        forest_contains(forest, t),
    decreases t.len(),
{
    let i = choose|i: int|
        0 <= i < forest.len() && (#[trigger] forest[i]).label == t[0] && (if t.len() == 1 {
            forest[i].children.len() == 0
        } else {
            forest_has_leaf(forest[i].children, t.skip(1))
        });
    if t.len() > 1 {
        lemma_leaf_is_contained(forest[i].children, t.skip(1));
    }
}

/// Every leaf of the reconstructed tree stands at exactly the component path
/// of one entry of the list. With `lemma_entries_are_leaves` this makes the
/// leaves and the entries of a duplicate-free, ancestor-free path list
/// correspond one to one.
pub proof fn lemma_leaves_are_entries(l: Seq<Seq<u8>>, t: Seq<Seq<u8>>)
    requires
        forest_has_leaf(tree_model(l).children, t),
    ensures
        exists|k: int| 0 <= k < l.len() && t == segments(#[trigger] l[k]),
{
    let sorted = l.sort_by(lex_leq());
    lemma_leaf_is_contained(tree_model(l).children, t);
    lemma_tree_has_only_entries(l, t);
    let k = choose|k: int| 0 <= k < l.len() && is_seg_prefix(t, segments(#[trigger] l[k]));
    lemma_lex_total_ordering();
    l.lemma_sort_by_ensures(lex_leq());
    lemma_forest_of_wf(sorted);
    lemma_every_entry_in_tree(l);
    assert(forest_contains(tree_model(l).children, segments(l[k])));
    lemma_leaf_has_no_extension(forest_of(sorted), t, segments(l[k]));
    assert(t == segments(l[k]));
}

/// The on-disk kind of one listed path at counting time.
#[derive(Clone, Copy, PartialEq, Eq, Structural, Debug)]
pub enum EntryKind {
    Directory,
    File,
    Other,
}

/// How many entries of a list have the given kind.
pub open spec fn count_kind(ks: Seq<EntryKind>, k: EntryKind) -> int
    decreases ks.len(),
{
    if ks.len() == 0 {
        0
    } else {
        count_kind(ks.drop_last(), k) + if ks.last() == k {
            1int
        } else {
            0int
        }
    }
}

/// Counts directories and files over the path list's on-disk kinds. Entries
/// that are neither count toward neither total, so the two counts together
/// never exceed the list's length.
pub fn count_entries(kinds: &Vec<EntryKind>) -> (counts: (u64, u64))
    requires
        kinds@.len() <= u64::MAX,
    ensures
        counts.0 == count_kind(kinds@, EntryKind::Directory),
        counts.1 == count_kind(kinds@, EntryKind::File),
        counts.0 + counts.1 <= kinds@.len(),
{
    let mut dirs: u64 = 0;
    let mut files: u64 = 0;
    let mut i: usize = 0;
    proof {
        assert(kinds@.take(0) =~= Seq::<EntryKind>::empty());
        lemma_count_both_bound(kinds@.take(0));
    }
    while i < kinds.len()
        invariant
            i <= kinds@.len(),
            kinds@.len() <= u64::MAX,
            dirs == count_kind(kinds@.take(i as int), EntryKind::Directory),
            files == count_kind(kinds@.take(i as int), EntryKind::File),
            dirs + files <= i,
        decreases kinds@.len() - i,
    {
        let ghost t1 = kinds@.take(i as int + 1);
        proof {
            assert(t1.drop_last() =~= kinds@.take(i as int));
            assert(t1.last() == kinds@[i as int]);
        }
        match kinds[i] {
            EntryKind::Directory => {
                dirs = dirs + 1;
            },
            EntryKind::File => {
                files = files + 1;
            },
            EntryKind::Other => {},
        }
        i = i + 1;
    }
    proof {
        assert(kinds@.take(kinds@.len() as int) =~= kinds@);
    }
    (dirs, files)
}

/// The two counts together never exceed the number of counted entries.
pub proof fn lemma_count_both_bound(ks: Seq<EntryKind>)
    ensures
        count_kind(ks, EntryKind::Directory) + count_kind(ks, EntryKind::File) <= ks.len(),
        count_kind(ks, EntryKind::Directory) >= 0,
        count_kind(ks, EntryKind::File) >= 0,
    decreases ks.len(),
{
    if ks.len() != 0 {
        lemma_count_both_bound(ks.drop_last());
    }
}

/// Tree reconstruction only depends on the path multiset: permuting the
/// input list yields the identical tree, because construction re-sorts.
pub proof fn lemma_tree_order_independent(l1: Seq<Seq<u8>>, l2: Seq<Seq<u8>>)
    requires
        l1.to_multiset() == l2.to_multiset(),
    ensures
        tree_model(l1) == tree_model(l2),
{
    lemma_lex_total_ordering();
    l1.lemma_sort_by_ensures(lex_leq());
    l2.lemma_sort_by_ensures(lex_leq());
    lemma_sorted_unique(l1.sort_by(lex_leq()), l2.sort_by(lex_leq()), lex_leq());
    assert(l1.sort_by(lex_leq()) == l2.sort_by(lex_leq()));
}

} // verus!
