//! The registry: the deduplicated label set, the record list, and the
//! inferred grouping, with the operations the surrounding application drives.

use vstd::prelude::*;

use crate::bird::{bird_carries, birds_equal, Bird};
use crate::hierarchy::{
    dedup_first, flat_names, lemma_dedup_first_contains, lemma_dedup_first_no_duplicates,
    lemma_dedup_first_push, names_of,
};
use crate::label::Classification;
use crate::lineage::{
    bird_matches_lineage, closed_under_children, contains_name, distinct_views, in_lineage,
    lemma_closed_covers, lemma_closure_bound, lemma_lineage_filter_take_step, lemma_name_in_push,
    lemma_tree_nodes_take_step, lineage_filter, name_in, reaches, tree_nodes,
};
use crate::text::{contains_subseq, str_contains};

verus! {

/// The catalogue: the labels added so far, the records, and the grouping the
/// hierarchy inference engine produced from them.
pub struct Collection {
    pub classifications: Vec<Classification>,
    pub classification_tree: Vec<(usize, Vec<Classification>)>,
    pub birds: Vec<Bird>,
}

/// The records whose name contains the query, in record order.
pub open spec fn name_match_filter(birds: Seq<Bird>, q: Seq<char>) -> Seq<Bird>
    decreases birds.len(),
{
    if birds.len() == 0 {
        Seq::empty()
    } else {
        let pre = name_match_filter(birds.drop_last(), q);
        if contains_subseq(birds.last().name@, q) {
            pre.push(birds.last())
        } else {
            pre
        }
    }
}

/// The records whose common name contains the query, in record order.
pub open spec fn common_name_match_filter(birds: Seq<Bird>, q: Seq<char>) -> Seq<Bird>
    decreases birds.len(),
{
    if birds.len() == 0 {
        Seq::empty()
    } else {
        let pre = common_name_match_filter(birds.drop_last(), q);
        if contains_subseq(birds.last().common_name@, q) {
            pre.push(birds.last())
        } else {
            pre
        }
    }
}

proof fn lemma_name_filter_take_step(birds: Seq<Bird>, i: int, q: Seq<char>)
    requires
        0 <= i < birds.len(),
    ensures
        name_match_filter(birds.take(i + 1), q) == if contains_subseq(birds[i].name@, q) {
            name_match_filter(birds.take(i), q).push(birds[i])
        } else {
            name_match_filter(birds.take(i), q)
        },
        common_name_match_filter(birds.take(i + 1), q) == if contains_subseq(
            birds[i].common_name@,
            q,
        ) {
            common_name_match_filter(birds.take(i), q).push(birds[i])
        } else {
            common_name_match_filter(birds.take(i), q)
        },
{
    assert(birds.take(i + 1).drop_last() =~= birds.take(i));
    assert(birds.take(i + 1).last() == birds[i]);
}

/// A name occurs among the flattened pair names exactly when some record
/// carries it.
pub proof fn lemma_flat_names_carried(birds: Seq<Bird>, n: Seq<char>)
    ensures
        flat_names(birds).contains(n) <==> exists|i: int|
            0 <= i < birds.len() && bird_carries(#[trigger] birds[i], n),
    decreases birds.len(),
{
    if birds.len() > 0 {
        lemma_flat_names_carried(birds.drop_last(), n);
        let flat = flat_names(birds);
        let pre = flat_names(birds.drop_last());
        let raw = names_of(birds.last().parent_nodes@);
        let own = dedup_first(raw);
        assert(raw.len() == birds.last().parent_nodes@.len());
        lemma_dedup_first_contains(raw, n);
        if flat.contains(n) {
            let t = choose|t: int| 0 <= t < flat.len() && flat[t] == n;
            if t < pre.len() {
                assert(pre[t] == n);
                let i = choose|i: int|
                    0 <= i < birds.drop_last().len() && bird_carries(
                        #[trigger] birds.drop_last()[i],
                        n,
                    );
                assert(bird_carries(birds[i], n));
            } else {
                assert(own[t - pre.len()] == n);
                assert(own.contains(n));
                let s = choose|s: int| 0 <= s < raw.len() && raw[s] == n;
                assert(birds.last().parent_nodes@[s].name@ == n);
                assert(bird_carries(birds[birds.len() - 1], n));
            }
        }
        if exists|i: int| 0 <= i < birds.len() && bird_carries(#[trigger] birds[i], n) {
            let i = choose|i: int| 0 <= i < birds.len() && bird_carries(#[trigger] birds[i], n);
            if i < birds.len() - 1 {
                assert(bird_carries(birds.drop_last()[i], n));
                let t = choose|t: int| 0 <= t < pre.len() && pre[t] == n;
                assert(flat[t] == n);
            } else {
                let j = choose|j: int|
                    0 <= j < birds[i].parent_nodes@.len() && (#[trigger] birds[i].parent_nodes@[j]).name@
                        == n;
                assert(raw[j] == n);
                assert(raw.contains(n));
                let u = choose|u: int| 0 <= u < own.len() && own[u] == n;
                assert(flat[pre.len() + u] == n);
            }
        }
    }
}

/// Distinctness of the label listing: it repeats no name and holds exactly
/// the names that at least one record carries.
pub proof fn lemma_distinct_labels_exact(birds: Seq<Bird>)
    ensures
        dedup_first(flat_names(birds)).no_duplicates(),
        forall|n: Seq<char>|
            #[trigger] dedup_first(flat_names(birds)).contains(n) <==> exists|i: int|
                0 <= i < birds.len() && bird_carries(#[trigger] birds[i], n),
{
    lemma_dedup_first_no_duplicates(flat_names(birds));
    assert forall|n: Seq<char>|
        #[trigger] dedup_first(flat_names(birds)).contains(n) <==> exists|i: int|
            0 <= i < birds.len() && bird_carries(#[trigger] birds[i], n) by {
        lemma_dedup_first_contains(flat_names(birds), n);
        lemma_flat_names_carried(birds, n);
    }
}

/// Counts strictly increase along a chain of parent links.
proof fn lemma_chain_counts_increase(all: Seq<Bird>, chain: Seq<Seq<char>>, i: int, j: int)
    requires
        forall|t: int|
            0 <= t < chain.len() - 1 ==> crate::hierarchy::inferred_parent(
                all,
                #[trigger] chain[t],
            ) == Some(chain[t + 1]),
        0 <= i < j < chain.len(),
    ensures
        crate::hierarchy::count_in(all, chain[i]) < crate::hierarchy::count_in(all, chain[j]),
    decreases j - i,
{
    crate::hierarchy::lemma_parent_count_greater(all, chain[j - 1], chain[j]);
    if i < j - 1 {
        lemma_chain_counts_increase(all, chain, i, j - 1);
    }
}

/// Acyclicity, measured against the label listing: following parent links
/// never takes more steps than there are distinct label names, since every
/// step strictly raises the count and every link target is a listed label.
pub proof fn lemma_parent_chain_within_distinct_labels(all: Seq<Bird>, chain: Seq<Seq<char>>)
    requires
        chain.len() >= 1,
        forall|t: int|
            0 <= t < chain.len() - 1 ==> crate::hierarchy::inferred_parent(
                all,
                #[trigger] chain[t],
            ) == Some(chain[t + 1]),
    ensures
        chain.len() - 1 <= dedup_first(flat_names(all)).len(),
{
    let dd = dedup_first(flat_names(all));
    lemma_dedup_first_no_duplicates(flat_names(all));
    let tail = chain.subrange(1, chain.len() as int);
    assert(tail.no_duplicates()) by {
        assert forall|a: int, b: int| 0 <= a < b < tail.len() implies tail[a] != tail[b] by {
            lemma_chain_counts_increase(all, chain, a + 1, b + 1);
        }
    }
    assert forall|t: int| 0 <= t < tail.len() implies dd.contains(#[trigger] tail[t]) by {
        crate::hierarchy::lemma_parent_count_greater(all, chain[t], chain[t + 1]);
        crate::hierarchy::lemma_count_pos_carried(all, chain[t + 1]);
        lemma_flat_names_carried(all, chain[t + 1]);
        lemma_dedup_first_contains(flat_names(all), chain[t + 1]);
        assert(dd.contains(chain[t + 1]));
    }
    tail.unique_seq_to_set();
    dd.unique_seq_to_set();
    assert(tail.to_set().subset_of(dd.to_set()));
    vstd::set_lib::lemma_len_subset(tail.to_set(), dd.to_set());
}

impl Collection {
    pub fn new() -> (r: Collection)
        ensures
            r.classifications@.len() == 0,
            r.classification_tree@.len() == 0,
            r.birds@.len() == 0,
    {
        Collection { classifications: Vec::new(), birds: Vec::new(), classification_tree: Vec::new() }
    }

    /// Substring search over record names, case sensitive, in record order.
    pub fn search_bird_by_name(&self, name: String) -> (r: Vec<&Bird>)
        ensures
            r@.len() == name_match_filter(self.birds@, name@).len(),
            forall|t: int|
                0 <= t < r@.len() ==> *(#[trigger] r@[t]) == name_match_filter(
                    self.birds@,
                    name@,
                )[t],
    {
        let mut matched_birds: Vec<&Bird> = Vec::new();
        let mut i: usize = 0;
        while i < self.birds.len()
            invariant
                i <= self.birds@.len(),
                matched_birds@.len() == name_match_filter(self.birds@.take(i as int), name@).len(),
                forall|t: int|
                    0 <= t < matched_birds@.len() ==> *(#[trigger] matched_birds@[t])
                        == name_match_filter(self.birds@.take(i as int), name@)[t],
            decreases self.birds@.len() - i,
        {
            proof {
                lemma_name_filter_take_step(self.birds@, i as int, name@);
            }
            if str_contains(&self.birds[i].name, &name) {
                matched_birds.push(&self.birds[i]);
            }
            i = i + 1;
        }
        proof {
            assert(self.birds@.take(self.birds@.len() as int) =~= self.birds@);
        }
        matched_birds
    }

    /// Substring search over common names, case sensitive, in record order.
    pub fn search_bird_by_common_name(&self, name: String) -> (r: Vec<&Bird>)
        ensures
            r@.len() == common_name_match_filter(self.birds@, name@).len(),
            forall|t: int|
                0 <= t < r@.len() ==> *(#[trigger] r@[t]) == common_name_match_filter(
                    self.birds@,
                    name@,
                )[t],
    {
        let mut matched_birds: Vec<&Bird> = Vec::new();
        let mut i: usize = 0;
        while i < self.birds.len()
            invariant
                i <= self.birds@.len(),
                matched_birds@.len() == common_name_match_filter(
                    self.birds@.take(i as int),
                    name@,
                ).len(),
                forall|t: int|
                    0 <= t < matched_birds@.len() ==> *(#[trigger] matched_birds@[t])
                        == common_name_match_filter(self.birds@.take(i as int), name@)[t],
            decreases self.birds@.len() - i,
        {
            proof {
                lemma_name_filter_take_step(self.birds@, i as int, name@);
            }
            if str_contains(&self.birds[i].common_name, &name) {
                matched_birds.push(&self.birds[i]);
            }
            i = i + 1;
        }
        proof {
            assert(self.birds@.take(self.birds@.len() as int) =~= self.birds@);
        }
        matched_birds
    }

    /// Inserts a label of the given name unless one exists; duplicates are
    /// rejected and leave the registry untouched. A freshly created label has
    /// no parent, whatever the argument carried: only the hierarchy inference
    /// engine ever assigns parent links.
    pub fn add_and_check_for_duplicates_classifications(
        &mut self,
        classification: &Classification,
    ) -> (r: Option<usize>)
        ensures
            match r {
                Option::None => {
                    &&& exists|i: int|
                        0 <= i < old(self).classifications@.len()
                            && (#[trigger] old(self).classifications@[i]).name@
                            == classification.name@
                    &&& *final(self) == *old(self)
                },
                Option::Some(n) => {
                    &&& forall|i: int|
                        0 <= i < old(self).classifications@.len()
                            ==> (#[trigger] old(self).classifications@[i]).name@
                            != classification.name@
                    &&& final(self).classifications@.len() == old(self).classifications@.len() + 1
                    &&& forall|i: int|
                        0 <= i < old(self).classifications@.len()
                            ==> (#[trigger] final(self).classifications@[i])
                            == old(self).classifications@[i]
                    &&& final(self).classifications@.last().name@ == classification.name@
                    &&& final(self).classifications@.last().parent_classification is None
                    &&& final(self).classification_tree == old(self).classification_tree
                    &&& final(self).birds == old(self).birds
                    &&& n == old(self).classifications@.len() + 1
                },
            },
    {
        let mut i: usize = 0;
        while i < self.classifications.len()
            invariant
                i <= self.classifications@.len(),
                forall|t: int|
                    0 <= t < i ==> (#[trigger] self.classifications@[t]).name@
                        != classification.name@,
            decreases self.classifications@.len() - i,
        {
            if self.classifications[i].name == classification.name {
                return None;
            }
            i = i + 1;
        }
        self.classifications.push(Classification::new(classification.name.clone(), None));
        Some(self.classifications.len())
    }

    /// Inserts the record unless an equal one exists — equality compares the
    /// name, the common name and the full label list; duplicates are rejected
    /// and leave the registry untouched. On success the returned number is
    /// the new record count, identifying the appended record.
    pub fn add_and_check_for_duplicates_bird(&mut self, bird: Bird) -> (r: Option<usize>)
        ensures
            match r {
                Option::None => {
                    &&& exists|i: int|
                        0 <= i < old(self).birds@.len() && birds_equal(
                            #[trigger] old(self).birds@[i],
                            bird,
                        )
                    &&& *final(self) == *old(self)
                },
                Option::Some(n) => {
                    &&& forall|i: int|
                        0 <= i < old(self).birds@.len() ==> !birds_equal(
                            #[trigger] old(self).birds@[i],
                            bird,
                        )
                    &&& final(self).birds@ == old(self).birds@.push(bird)
                    &&& final(self).classifications == old(self).classifications
                    &&& final(self).classification_tree == old(self).classification_tree
                    &&& n == old(self).birds@.len() + 1
                },
            },
    {
        let mut i: usize = 0;
        while i < self.birds.len()
            invariant
                i <= self.birds@.len(),
                forall|t: int| 0 <= t < i ==> !birds_equal(#[trigger] self.birds@[t], bird),
            decreases self.birds@.len() - i,
        {
            if self.birds[i].same_as(&bird) {
                return None;
            }
            i = i + 1;
        }
        self.birds.push(bird);
        Some(self.birds.len())
    }

    /// Transitive search: every record that carries the root name itself or
    /// any label whose chain of inferred parent links reaches it, in record
    /// order. An unknown root can only match records that carry it literally.
    pub fn search_bird_by_species(&self, name: String) -> (r: Vec<&Bird>)
        ensures
            r@.len() == lineage_filter(
                self.birds@,
                tree_nodes(self.classification_tree@),
                name@,
            ).len(),
            forall|t: int|
                0 <= t < r@.len() ==> *(#[trigger] r@[t]) == lineage_filter(
                    self.birds@,
                    tree_nodes(self.classification_tree@),
                    name@,
                )[t],
    {
        let ghost nodes_spec = tree_nodes(self.classification_tree@);

        // Flatten the grouping's buckets into one list of labels.
        let mut nodes: Vec<Classification> = Vec::new();
        let mut k: usize = 0;
        while k < self.classification_tree.len()
            invariant
                k <= self.classification_tree@.len(),
                nodes@ == tree_nodes(self.classification_tree@.take(k as int)),
            decreases self.classification_tree@.len() - k,
        {
            let bucket = &self.classification_tree[k];
            let mut u: usize = 0;
            while u < bucket.1.len()
                invariant
                    u <= bucket.1@.len(),
                    bucket.1@ == self.classification_tree@[k as int].1@,
                    k < self.classification_tree@.len(),
                    nodes@ == tree_nodes(self.classification_tree@.take(k as int)) + bucket.1@.take(
                        u as int,
                    ),
                decreases bucket.1@.len() - u,
            {
                nodes.push(bucket.1[u].clone());
                proof {
                    assert(nodes@ =~= tree_nodes(self.classification_tree@.take(k as int))
                        + bucket.1@.take(u + 1));
                }
                u = u + 1;
            }
            proof {
                lemma_tree_nodes_take_step(self.classification_tree@, k as int);
                assert(bucket.1@.take(bucket.1@.len() as int) =~= bucket.1@);
                assert(nodes@ =~= tree_nodes(self.classification_tree@.take(k + 1)));
            }
            k = k + 1;
        }
        proof {
            assert(self.classification_tree@.take(self.classification_tree@.len() as int)
                =~= self.classification_tree@);
            assert(nodes@ == nodes_spec);
        }

        // Grow the closure of names reachable downward from the root until a
        // full pass adds nothing.
        let mut closure: Vec<String> = Vec::new();
        closure.push(name.clone());
        proof {
            assert(closure@[0]@ == name@);
            assert(reaches(nodes_spec, name@, name@, 0));
            assert(in_lineage(nodes_spec, name@, closure@[0]@));
        }
        let mut changed = true;
        while changed
            invariant
                nodes@ == nodes_spec,
                name_in(closure@, name@),
                distinct_views(closure@),
                forall|t: int|
                    0 <= t < closure@.len() ==> in_lineage(
                        nodes_spec,
                        name@,
                        (#[trigger] closure@[t])@,
                    ),
                forall|t: int|
                    0 <= t < closure@.len() ==> ((#[trigger] closure@[t])@ == name@ || exists|i: int|
                        0 <= i < nodes_spec.len() && (#[trigger] nodes_spec[i]).name@
                            == closure@[t]@),
                closure@.len() <= nodes_spec.len() + 1,
                !changed ==> closed_under_children(nodes_spec, closure@),
            decreases nodes_spec.len() + 1 - closure@.len() + (if changed {
                1int
            } else {
                0int
            }),
        {
            changed = false;
            let ghost cl0 = closure@;
            let mut idx: usize = 0;
            while idx < nodes.len()
                invariant
                    nodes@ == nodes_spec,
                    idx <= nodes@.len(),
                    name_in(closure@, name@),
                    distinct_views(closure@),
                    forall|t: int|
                        0 <= t < closure@.len() ==> in_lineage(
                            nodes_spec,
                            name@,
                            (#[trigger] closure@[t])@,
                        ),
                    forall|t: int|
                        0 <= t < closure@.len() ==> ((#[trigger] closure@[t])@ == name@
                            || exists|i: int|
                            0 <= i < nodes_spec.len() && (#[trigger] nodes_spec[i]).name@
                                == closure@[t]@),
                    closure@.len() <= nodes_spec.len() + 1,
                    closure@.len() >= cl0.len(),
                    !changed ==> closure@ == cl0,
                    !changed ==> forall|i: int|
                        ({
                            &&& 0 <= i < idx
                            &&& (#[trigger] nodes_spec[i]).parent_classification matches Some(p)
                                && name_in(closure@, p.name@)
                        }) ==> name_in(closure@, nodes_spec[i].name@),
                    changed ==> closure@.len() > cl0.len(),
                decreases nodes@.len() - idx,
            {
                let node = &nodes[idx];
                let mut pushed = false;
                match &node.parent_classification {
                    Some(p) => {
                        if contains_name(&closure, &p.name) && !contains_name(
                            &closure,
                            &node.name,
                        ) {
                            proof {
                                // The parent is already known reachable, so
                                // one more step reaches the child.
                                let t = choose|t: int|
                                    0 <= t < closure@.len() && (#[trigger] closure@[t])@
                                        == p.name@;
                                let kk = choose|kk: nat|
                                    reaches(nodes_spec, name@, closure@[t]@, kk);
                                assert(nodes_spec[idx as int].name@ == node.name@);
                                assert(nodes_spec[idx as int].parent_classification
                                    matches Some(q) && reaches(nodes_spec, name@, q.name@, kk));
                                assert(reaches(nodes_spec, name@, node.name@, kk + 1));
                            }
                            let ghost clb = closure@;
                            closure.push(node.name.clone());
                            pushed = true;
                            proof {
                                lemma_name_in_push(clb, closure@[clb.len() as int], name@);
                                assert(closure@[clb.len() as int]@ == node.name@);
                                assert forall|t: int| 0 <= t < closure@.len() implies in_lineage(
                                    nodes_spec,
                                    name@,
                                    (#[trigger] closure@[t])@,
                                ) by {
                                    if t < clb.len() {
                                        assert(closure@[t] == clb[t]);
                                    } else {
                                        assert(in_lineage(nodes_spec, name@, node.name@));
                                    }
                                }
                                lemma_closure_bound(nodes_spec, name@, closure@);
                            }
                        }
                    },
                    None => {},
                }
                if pushed {
                    changed = true;
                }
                idx = idx + 1;
            }
        }

        // Keep, in order, every record with a label in the closure.
        let mut matched_birds: Vec<&Bird> = Vec::new();
        let mut i: usize = 0;
        while i < self.birds.len()
            invariant
                i <= self.birds@.len(),
                name_in(closure@, name@),
                closed_under_children(nodes_spec, closure@),
                forall|t: int|
                    0 <= t < closure@.len() ==> in_lineage(
                        nodes_spec,
                        name@,
                        (#[trigger] closure@[t])@,
                    ),
                matched_birds@.len() == lineage_filter(
                    self.birds@.take(i as int),
                    nodes_spec,
                    name@,
                ).len(),
                forall|t: int|
                    0 <= t < matched_birds@.len() ==> *(#[trigger] matched_birds@[t])
                        == lineage_filter(self.birds@.take(i as int), nodes_spec, name@)[t],
            decreases self.birds@.len() - i,
        {
            let bird = &self.birds[i];
            let mut m = false;
            let mut j: usize = 0;
            while j < bird.parent_nodes.len()
                invariant
                    j <= bird.parent_nodes@.len(),
                    bird == &self.birds@[i as int],
                    i < self.birds@.len(),
                    m ==> exists|jj: int|
                        0 <= jj < bird.parent_nodes@.len() && name_in(
                            closure@,
                            (#[trigger] bird.parent_nodes@[jj]).name@,
                        ),
                    !m ==> forall|jj: int|
                        0 <= jj < j ==> !name_in(
                            closure@,
                            (#[trigger] bird.parent_nodes@[jj]).name@,
                        ),
                decreases bird.parent_nodes@.len() - j,
            {
                if !m && contains_name(&closure, &bird.parent_nodes[j].name) {
                    m = true;
                }
                j = j + 1;
            }
            proof {
                if m {
                    let jj = choose|jj: int|
                        0 <= jj < bird.parent_nodes@.len() && name_in(
                            closure@,
                            (#[trigger] bird.parent_nodes@[jj]).name@,
                        );
                    let t = choose|t: int|
                        0 <= t < closure@.len() && (#[trigger] closure@[t])@
                            == bird.parent_nodes@[jj].name@;
                    assert(in_lineage(nodes_spec, name@, bird.parent_nodes@[jj].name@));
                    assert(bird_matches_lineage(self.birds@[i as int], nodes_spec, name@));
                } else {
                    if bird_matches_lineage(self.birds@[i as int], nodes_spec, name@) {
                        let jj = choose|jj: int|
                            0 <= jj < bird.parent_nodes@.len() && in_lineage(
                                nodes_spec,
                                name@,
                                (#[trigger] bird.parent_nodes@[jj]).name@,
                            );
                        let kk = choose|kk: nat|
                            reaches(nodes_spec, name@, bird.parent_nodes@[jj].name@, kk);
                        lemma_closed_covers(
                            nodes_spec,
                            name@,
                            closure@,
                            bird.parent_nodes@[jj].name@,
                            kk,
                        );
                    }
                    assert(!bird_matches_lineage(self.birds@[i as int], nodes_spec, name@));
                }
                lemma_lineage_filter_take_step(self.birds@, i as int, nodes_spec, name@);
            }
            if m {
                matched_birds.push(bird);
            }
            i = i + 1;
        }
        proof {
            assert(self.birds@.take(self.birds@.len() as int) =~= self.birds@);
        }
        matched_birds
    }

    /// Every label name carried by at least one record, exactly once, in
    /// first-seen order: by record order, then by each record's label order.
    pub fn distinct_labels(&self) -> (r: Vec<String>)
        ensures
            r@.map_values(|s: String| s@) == dedup_first(flat_names(self.birds@)),
    {
        let mut result: Vec<String> = Vec::new();
        let mut i: usize = 0;
        while i < self.birds.len()
            invariant
                i <= self.birds@.len(),
                result@.map_values(|s: String| s@) =~= dedup_first(
                    flat_names(self.birds@.take(i as int)),
                ),
            decreases self.birds@.len() - i,
        {
            let labels = &self.birds[i].parent_nodes;
            let mut j: usize = 0;
            while j < labels.len()
                invariant
                    j <= labels@.len(),
                    labels@ == self.birds@[i as int].parent_nodes@,
                    i < self.birds@.len(),
                    result@.map_values(|s: String| s@) =~= dedup_first(
                        flat_names(self.birds@.take(i as int)) + dedup_first(
                            names_of(labels@.take(j as int)),
                        ),
                    ),
                decreases labels@.len() - j,
            {
                let ghost prefix = flat_names(self.birds@.take(i as int));
                let ghost inner = dedup_first(names_of(labels@.take(j as int)));
                let ghost x = labels@[j as int].name@;
                let ghost deduped = dedup_first(prefix + inner);
                proof {
                    // The record's deduplicated prefix grows by `x` only when
                    // `x` is new to it, and the combined listing absorbs `x`
                    // whenever it already holds it.
                    assert(names_of(labels@.take(j + 1)) =~= names_of(labels@.take(j as int)).push(
                        x,
                    ));
                    lemma_dedup_first_push(names_of(labels@.take(j as int)), x);
                    lemma_dedup_first_contains(names_of(labels@.take(j as int)), x);
                    lemma_dedup_first_contains(prefix + inner, x);
                    if inner.contains(x) {
                        let u = choose|u: int| 0 <= u < inner.len() && inner[u] == x;
                        assert((prefix + inner)[prefix.len() + u] == x);
                        assert((prefix + inner).contains(x));
                    } else {
                        assert((prefix + inner).push(x) =~= prefix + inner.push(x));
                        lemma_dedup_first_push(prefix + inner, x);
                    }
                }
                let seen = crate::lineage::contains_name(&result, &labels[j].name);
                proof {
                    if seen {
                        let t = choose|t: int|
                            0 <= t < result@.len() && (#[trigger] result@[t])@ == x;
                        assert(deduped[t] == x);
                        assert(deduped.contains(x));
                    } else {
                        if deduped.contains(x) {
                            let t = choose|t: int| 0 <= t < deduped.len() && deduped[t] == x;
                            assert((result@[t])@ == x);
                        }
                        assert(!deduped.contains(x));
                    }
                }
                if !seen {
                    let ghost result0 = result@;
                    result.push(labels[j].name.clone());
                    proof {
                        assert(result@.map_values(|s: String| s@) =~= result0.map_values(
                            |s: String| s@,
                        ).push(x));
                    }
                }
                j = j + 1;
            }
            proof {
                crate::hierarchy::lemma_flat_names_take_step(self.birds@, i as int);
                assert(labels@.take(labels@.len() as int) =~= labels@);
            }
            i = i + 1;
        }
        proof {
            assert(self.birds@.take(self.birds@.len() as int) =~= self.birds@);
        }
        result
    }
}

} // verus!
