//! The transitive search over inferred parent links.
//!
//! A label name belongs to the lineage of a root name when a chain of parent
//! links leads from it up to the root. The search returns every record that
//! carries a label whose name lies in that lineage.

use vstd::prelude::*;

use crate::bird::{bird_carries, Bird};
use crate::hierarchy::{
    count_in, inferred_parent, lemma_count_pos_carried, lemma_parent_count_greater, node_for,
};
use crate::label::Classification;

verus! {

/// `name` reaches `root` in at most `k` upward steps through the parent links
/// recorded in `nodes`.
pub open spec fn reaches(
    nodes: Seq<Classification>,
    root: Seq<char>,
    name: Seq<char>,
    k: nat,
) -> bool
    decreases k,
{
    ||| name == root
    ||| (k > 0 && exists|i: int|
        {
            &&& 0 <= i < nodes.len()
            &&& (#[trigger] nodes[i]).name@ == name
            &&& nodes[i].parent_classification matches Some(p) && reaches(
                nodes,
                root,
                p.name@,
                (k - 1) as nat,
            )
        })
}

/// `name` is the root itself or a descendant of it.
pub open spec fn in_lineage(nodes: Seq<Classification>, root: Seq<char>, name: Seq<char>) -> bool {
    exists|k: nat| reaches(nodes, root, name, k)
}

/// All the labels of a grouping, flattened bucket by bucket.
pub open spec fn tree_nodes(tree: Seq<(usize, Vec<Classification>)>) -> Seq<Classification>
    decreases tree.len(),
{
    if tree.len() == 0 {
        Seq::empty()
    } else {
        tree_nodes(tree.drop_last()) + tree.last().1@
    }
}

/// The record carries some label whose name lies in the root's lineage.
pub open spec fn bird_matches_lineage(b: Bird, nodes: Seq<Classification>, root: Seq<char>) -> bool {
    exists|j: int|
        0 <= j < b.parent_nodes@.len() && in_lineage(
            nodes,
            root,
            (#[trigger] b.parent_nodes@[j]).name@,
        )
}

/// The records whose label set meets the root's lineage, in record order.
pub open spec fn lineage_filter(
    birds: Seq<Bird>,
    nodes: Seq<Classification>,
    root: Seq<char>,
) -> Seq<Bird>
    decreases birds.len(),
{
    if birds.len() == 0 {
        Seq::empty()
    } else {
        let pre = lineage_filter(birds.drop_last(), nodes, root);
        if bird_matches_lineage(birds.last(), nodes, root) {
            pre.push(birds.last())
        } else {
            pre
        }
    }
}

/// The step equation for `lineage_filter` over a growing prefix of records.
pub proof fn lemma_lineage_filter_take_step(
    birds: Seq<Bird>,
    i: int,
    nodes: Seq<Classification>,
    root: Seq<char>,
)
    requires
        0 <= i < birds.len(),
    ensures
        lineage_filter(birds.take(i + 1), nodes, root) == if bird_matches_lineage(
            birds[i],
            nodes,
            root,
        ) {
            lineage_filter(birds.take(i), nodes, root).push(birds[i])
        } else {
            lineage_filter(birds.take(i), nodes, root)
        },
{
    assert(birds.take(i + 1).drop_last() =~= birds.take(i));
    assert(birds.take(i + 1).last() == birds[i]);
}

/// `name` occurs among the strings, compared by contents.
pub open spec fn name_in(cl: Seq<String>, name: Seq<char>) -> bool {
    exists|t: int| 0 <= t < cl.len() && (#[trigger] cl[t])@ == name
}

/// A set of names is closed under the child-of relation recorded in `nodes`:
/// whenever a node's parent name is in the set, the node's own name is too.
pub open spec fn closed_under_children(nodes: Seq<Classification>, cl: Seq<String>) -> bool {
    forall|i: int|
        ({
            &&& 0 <= i < nodes.len()
            &&& (#[trigger] nodes[i]).parent_classification matches Some(p) && name_in(cl, p.name@)
        }) ==> name_in(cl, nodes[i].name@)
}

/// Whether the list of names holds the given one, compared by contents.
pub fn contains_name(cl: &Vec<String>, name: &String) -> (r: bool)
    ensures
        r == name_in(cl@, name@),
{
    let mut t: usize = 0;
    while t < cl.len()
        invariant
            t <= cl@.len(),
            forall|s: int| 0 <= s < t ==> (#[trigger] cl@[s])@ != name@,
        decreases cl@.len() - t,
    {
        if cl[t] == *name {
            return true;
        }
        t = t + 1;
    }
    false
}

/// Any name that reaches the root lies in every set of names that holds the
/// root and is closed under the child-of relation.
pub proof fn lemma_closed_covers(
    nodes: Seq<Classification>,
    root: Seq<char>,
    cl: Seq<String>,
    name: Seq<char>,
    k: nat,
)
    requires
        name_in(cl, root),
        closed_under_children(nodes, cl),
        reaches(nodes, root, name, k),
    ensures
        name_in(cl, name),
    decreases k,
{
    if name != root {
        let i = choose|i: int|
            {
                &&& 0 <= i < nodes.len()
                &&& (#[trigger] nodes[i]).name@ == name
                &&& nodes[i].parent_classification matches Some(p) && reaches(
                    nodes,
                    root,
                    p.name@,
                    (k - 1) as nat,
                )
            };
        let p = nodes[i].parent_classification->Some_0;
        lemma_closed_covers(nodes, root, cl, p.name@, (k - 1) as nat);
    }
}

/// No two of the strings hold the same characters.
pub open spec fn distinct_views(cl: Seq<String>) -> bool {
    forall|a: int, b: int| 0 <= a < b < cl.len() ==> (#[trigger] cl[a])@ != (#[trigger] cl[b])@
}

/// A duplicate-free list of names drawn from the root and the node names is
/// never longer than the node count plus one.
pub proof fn lemma_closure_bound(nodes: Seq<Classification>, root: Seq<char>, cl: Seq<String>)
    requires
        distinct_views(cl),
        forall|t: int|
            0 <= t < cl.len() ==> (#[trigger] cl[t])@ == root || exists|i: int|
                0 <= i < nodes.len() && (#[trigger] nodes[i]).name@ == cl[t]@,
    ensures
        cl.len() <= nodes.len() + 1,
{
    let vs = cl.map_values(|s: String| s@);
    assert(vs.len() == cl.len());
    assert(vs.no_duplicates()) by {
        assert forall|a: int, b: int| 0 <= a < b < vs.len() implies vs[a] != vs[b] by {
            assert(cl[a]@ != cl[b]@);
        }
    }
    let names = nodes.map_values(|c: Classification| c.name@);
    let bound = names.to_set().insert(root);
    assert(names.len() == nodes.len());
    names.lemma_cardinality_of_set();
    assert(bound.len() <= names.to_set().len() + 1);
    assert forall|t: int| 0 <= t < vs.len() implies bound.contains(#[trigger] vs[t]) by {
        assert(vs[t] == cl[t]@);
        if cl[t]@ != root {
            let i = choose|i: int| 0 <= i < nodes.len() && (#[trigger] nodes[i]).name@ == cl[t]@;
            assert(names[i] == cl[t]@);
            assert(names.to_set().contains(cl[t]@));
        }
    }
    vs.unique_seq_to_set();
    assert(vs.to_set().subset_of(bound));
    vstd::set_lib::lemma_len_subset(vs.to_set(), bound);
}

/// Pushing a string keeps every name that was already present.
pub proof fn lemma_name_in_push(cl: Seq<String>, x: String, n: Seq<char>)
    requires
        name_in(cl, n),
    ensures
        name_in(cl.push(x), n),
{
    let t = choose|t: int| 0 <= t < cl.len() && (#[trigger] cl[t])@ == n;
    assert(cl.push(x)[t]@ == n);
}

/// The step equation for `tree_nodes` over a growing prefix of buckets.
pub proof fn lemma_tree_nodes_take_step(tree: Seq<(usize, Vec<Classification>)>, k: int)
    requires
        0 <= k < tree.len(),
    ensures
        tree_nodes(tree.take(k + 1)) == tree_nodes(tree.take(k)) + tree[k].1@,
{
    assert(tree.take(k + 1).drop_last() =~= tree.take(k));
    assert(tree.take(k + 1).last() == tree[k]);
}

/// When no record carries the root name, nothing but the root itself lies in
/// its lineage: a parent link into the root would force the root's count
/// above zero.
pub proof fn lemma_lineage_only_root(
    birds: Seq<Bird>,
    nodes: Seq<Classification>,
    root: Seq<char>,
    name: Seq<char>,
    k: nat,
)
    requires
        forall|i: int| 0 <= i < birds.len() ==> !bird_carries(#[trigger] birds[i], root),
        forall|t: int| 0 <= t < nodes.len() ==> node_for(birds, #[trigger] nodes[t], nodes[t].name@),
        reaches(nodes, root, name, k),
    ensures
        name == root,
    decreases k,
{
    if name != root {
        let i = choose|i: int|
            {
                &&& 0 <= i < nodes.len()
                &&& (#[trigger] nodes[i]).name@ == name
                &&& nodes[i].parent_classification matches Some(p) && reaches(
                    nodes,
                    root,
                    p.name@,
                    (k - 1) as nat,
                )
            };
        let p = nodes[i].parent_classification->Some_0;
        lemma_lineage_only_root(birds, nodes, root, p.name@, (k - 1) as nat);
        assert(inferred_parent(birds, name) == Some(root));
        lemma_parent_count_greater(birds, name, root);
        lemma_count_pos_carried(birds, root);
    }
}

/// Unknown-root search: a root name that no record carries matches no record
/// at all, provided the parent links were inferred from those records.
pub proof fn lemma_unknown_root_search_empty(
    birds: Seq<Bird>,
    nodes: Seq<Classification>,
    root: Seq<char>,
)
    requires
        forall|i: int| 0 <= i < birds.len() ==> !bird_carries(#[trigger] birds[i], root),
        forall|t: int| 0 <= t < nodes.len() ==> node_for(birds, #[trigger] nodes[t], nodes[t].name@),
    ensures
        lineage_filter(birds, nodes, root) == Seq::<Bird>::empty(),
{
    assert forall|i: int| 0 <= i < birds.len() implies !bird_matches_lineage(
        #[trigger] birds[i],
        nodes,
        root,
    ) by {
        if bird_matches_lineage(birds[i], nodes, root) {
            let j = choose|j: int|
                0 <= j < birds[i].parent_nodes@.len() && in_lineage(
                    nodes,
                    root,
                    (#[trigger] birds[i].parent_nodes@[j]).name@,
                );
            let n = birds[i].parent_nodes@[j].name@;
            let k = choose|k: nat| reaches(nodes, root, n, k);
            lemma_lineage_only_root(birds, nodes, root, n, k);
            assert(bird_carries(birds[i], root));
        }
    }
    lemma_filter_of_unmatched(birds, nodes, root);
}

/// Every label of a grouping whose buckets match the engine's contract names
/// a (record, label) pair and carries that name's inferred parent, so the
/// flattened grouping satisfies the hypothesis of the unknown-root law.
pub proof fn lemma_tree_nodes_consistent(birds: Seq<Bird>, tree: Seq<(usize, Vec<Classification>)>)
    requires
        forall|k: int|
            0 <= k < tree.len() ==> crate::hierarchy::bucket_matches(
                birds,
                (#[trigger] tree[k]).0 as nat,
                tree[k].1@,
            ),
    ensures
        forall|t: int|
            0 <= t < tree_nodes(tree).len() ==> node_for(
                birds,
                #[trigger] tree_nodes(tree)[t],
                tree_nodes(tree)[t].name@,
            ),
    decreases tree.len(),
{
    if tree.len() > 0 {
        assert(forall|k: int|
            0 <= k < tree.drop_last().len() ==> crate::hierarchy::bucket_matches(
                birds,
                (#[trigger] tree.drop_last()[k]).0 as nat,
                tree.drop_last()[k].1@,
            ));
        lemma_tree_nodes_consistent(birds, tree.drop_last());
        let pre = tree_nodes(tree.drop_last());
        let bucket = tree.last().1@;
        assert(crate::hierarchy::bucket_matches(birds, tree[tree.len() - 1].0 as nat, bucket));
        assert forall|t: int| 0 <= t < tree_nodes(tree).len() implies node_for(
            birds,
            #[trigger] tree_nodes(tree)[t],
            tree_nodes(tree)[t].name@,
        ) by {
            if t < pre.len() {
                assert(tree_nodes(tree)[t] == pre[t]);
            } else {
                let names = crate::hierarchy::names_with_count(
                    crate::hierarchy::flat_names(birds),
                    birds,
                    tree[tree.len() - 1].0 as nat,
                );
                assert(node_for(birds, bucket[t - pre.len()], names[t - pre.len()]));
                assert(tree_nodes(tree)[t] == bucket[t - pre.len()]);
            }
        }
    }
}

proof fn lemma_filter_of_unmatched(birds: Seq<Bird>, nodes: Seq<Classification>, root: Seq<char>)
    requires
        forall|i: int|
            0 <= i < birds.len() ==> !bird_matches_lineage(#[trigger] birds[i], nodes, root),
    ensures
        lineage_filter(birds, nodes, root) == Seq::<Bird>::empty(),
    decreases birds.len(),
{
    if birds.len() > 0 {
        assert(!bird_matches_lineage(birds[birds.len() - 1], nodes, root));
        lemma_filter_of_unmatched(birds.drop_last(), nodes, root);
    }
}

} // verus!
