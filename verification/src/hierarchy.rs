//! The hierarchy inference engine.
//!
//! The engine reads the full record set and infers, for every label name, an
//! optional parent label. A label's count is the number of records that carry
//! it; a label can only become the parent of another when it is carried by
//! strictly more records and the two share a record. When several candidates
//! qualify, the last one encountered — scanning records in order and, within
//! a record, labels in order — wins.

use vstd::prelude::*;

use crate::bird::{bird_carries, Bird};
use crate::label::Classification;

verus! {

/// How many of the given records carry the label name. A record contributes
/// at most one, however often the name repeats inside its label list.
pub open spec fn count_in(birds: Seq<Bird>, name: Seq<char>) -> nat
    decreases birds.len(),
{
    if birds.len() == 0 {
        0
    } else {
        count_in(birds.drop_last(), name) + if bird_carries(birds.last(), name) {
            1nat
        } else {
            0nat
        }
    }
}

/// The last label in the list whose count exceeds `c`, if any: the qualifying
/// parent candidate that an in-order overwrite leaves behind.
pub open spec fn last_candidate(labels: Seq<Classification>, all: Seq<Bird>, c: nat) -> Option<
    Seq<char>,
>
    decreases labels.len(),
{
    if labels.len() == 0 {
        None
    } else if count_in(all, labels.last().name@) > c {
        Some(labels.last().name@)
    } else {
        last_candidate(labels.drop_last(), all, c)
    }
}

/// The parent assigned to `name` after the first `n` records have been
/// scanned: each record that carries `name` overwrites the assignment with
/// its own last qualifying candidate, if it has one.
pub open spec fn parent_upto(all: Seq<Bird>, n: int, name: Seq<char>) -> Option<Seq<char>>
    decreases n,
{
    if n <= 0 {
        None
    } else {
        let prev = parent_upto(all, n - 1, name);
        if bird_carries(all[n - 1], name) {
            match last_candidate(all[n - 1].parent_nodes@, all, count_in(all, name)) {
                Option::Some(p) => Some(p),
                Option::None => prev,
            }
        } else {
            prev
        }
    }
}

/// The parent the engine assigns to `name`, given the full record set.
pub open spec fn inferred_parent(all: Seq<Bird>, name: Seq<char>) -> Option<Seq<char>> {
    parent_upto(all, all.len() as int, name)
}

/// An executable option over names matches a spec one when both are absent or
/// both hold the same name.
pub open spec fn opt_name_matches(o: Option<String>, m: Option<Seq<char>>) -> bool {
    match (o, m) {
        (Option::None, Option::None) => true,
        (Option::Some(s), Option::Some(p)) => s@ == p,
        _ => false,
    }
}

/// A count never exceeds the number of records.
pub proof fn lemma_count_le_len(birds: Seq<Bird>, name: Seq<char>)
    ensures
        count_in(birds, name) <= birds.len(),
    decreases birds.len(),
{
    if birds.len() > 0 {
        lemma_count_le_len(birds.drop_last(), name);
    }
}

/// A name with a positive count is carried by some record.
pub proof fn lemma_count_pos_carried(birds: Seq<Bird>, name: Seq<char>)
    requires
        count_in(birds, name) > 0,
    ensures
        exists|i: int| 0 <= i < birds.len() && bird_carries(#[trigger] birds[i], name),
    decreases birds.len(),
{
    if birds.len() > 0 {
        if bird_carries(birds.last(), name) {
            assert(bird_carries(birds[birds.len() - 1], name));
        } else {
            lemma_count_pos_carried(birds.drop_last(), name);
            let i = choose|i: int|
                0 <= i < birds.drop_last().len() && bird_carries(
                    #[trigger] birds.drop_last()[i],
                    name,
                );
            assert(bird_carries(birds[i], name));
        }
    }
}

/// Counting over a longer prefix: the step equation used by counting loops.
pub proof fn lemma_count_take_step(birds: Seq<Bird>, i: int, name: Seq<char>)
    requires
        0 <= i < birds.len(),
    ensures
        count_in(birds.take(i + 1), name) == count_in(birds.take(i), name) + if bird_carries(
            birds[i],
            name,
        ) {
            1nat
        } else {
            0nat
        },
{
    assert(birds.take(i + 1).drop_last() =~= birds.take(i));
    assert(birds.take(i + 1).last() == birds[i]);
}

/// Whether the record carries the label name, executably.
pub fn bird_has_name(b: &Bird, name: &String) -> (r: bool)
    ensures
        r == bird_carries(*b, name@),
{
    let mut j: usize = 0;
    while j < b.parent_nodes.len()
        invariant
            j <= b.parent_nodes@.len(),
            forall|t: int| 0 <= t < j ==> (#[trigger] b.parent_nodes@[t]).name@ != name@,
        decreases b.parent_nodes@.len() - j,
    {
        if b.parent_nodes[j].name == *name {
            return true;
        }
        j = j + 1;
    }
    false
}

/// The number of records that carry the label name.
pub fn count_of(birds: &Vec<Bird>, name: &String) -> (r: usize)
    ensures
        r == count_in(birds@, name@),
{
    proof {
        lemma_count_le_len(birds@, name@);
    }
    let mut r: usize = 0;
    let mut i: usize = 0;
    while i < birds.len()
        invariant
            i <= birds@.len(),
            r == count_in(birds@.take(i as int), name@),
            count_in(birds@, name@) <= birds@.len(),
        decreases birds@.len() - i,
    {
        proof {
            lemma_count_take_step(birds@, i as int, name@);
            lemma_count_le_len(birds@.take(i + 1), name@);
            assert(birds@.take(i + 1).len() <= birds@.len());
        }
        if bird_has_name(&birds[i], name) {
            r = r + 1;
        }
        i = i + 1;
    }
    proof {
        assert(birds@.take(birds@.len() as int) =~= birds@);
    }
    r
}

/// The step equation for `last_candidate` over a growing prefix.
pub proof fn lemma_candidate_take_step(labels: Seq<Classification>, k: int, all: Seq<Bird>, c: nat)
    requires
        0 <= k < labels.len(),
    ensures
        last_candidate(labels.take(k + 1), all, c) == if count_in(all, labels[k].name@) > c {
            Some(labels[k].name@)
        } else {
            last_candidate(labels.take(k), all, c)
        },
{
    assert(labels.take(k + 1).drop_last() =~= labels.take(k));
    assert(labels.take(k + 1).last() == labels[k]);
}

/// The parent that the engine assigns to `name`: the last qualifying
/// candidate across the records that carry it, or nothing when no record
/// offers one.
pub fn compute_parent(birds: &Vec<Bird>, name: &String) -> (r: Option<String>)
    ensures
        opt_name_matches(r, inferred_parent(birds@, name@)),
{
    let cnt = count_of(birds, name);
    let mut cur: Option<String> = None;
    let mut i: usize = 0;
    while i < birds.len()
        invariant
            i <= birds@.len(),
            cnt == count_in(birds@, name@),
            opt_name_matches(cur, parent_upto(birds@, i as int, name@)),
        decreases birds@.len() - i,
    {
        if bird_has_name(&birds[i], name) {
            let labels = &birds[i].parent_nodes;
            let mut k: usize = 0;
            while k < labels.len()
                invariant
                    k <= labels@.len(),
                    labels@ == birds@[i as int].parent_nodes@,
                    i < birds@.len(),
                    cnt == count_in(birds@, name@),
                    match last_candidate(labels@.take(k as int), birds@, cnt as nat) {
                        Option::Some(p) => cur matches Some(s) && s@ == p,
                        Option::None => opt_name_matches(
                            cur,
                            parent_upto(birds@, i as int, name@),
                        ),
                    },
                decreases labels@.len() - k,
            {
                proof {
                    lemma_candidate_take_step(labels@, k as int, birds@, cnt as nat);
                }
                if count_of(birds, &labels[k].name) > cnt {
                    cur = Some(labels[k].name.clone());
                }
                k = k + 1;
            }
            proof {
                assert(labels@.take(labels@.len() as int) =~= labels@);
            }
        }
        i = i + 1;
    }
    cur
}

/// The label names of one record, in label order.
pub open spec fn names_of(labels: Seq<Classification>) -> Seq<Seq<char>> {
    labels.map_values(|c: Classification| c.name@)
}

/// Keeps the first occurrence of every name, in order of first appearance.
pub open spec fn dedup_first(names: Seq<Seq<char>>) -> Seq<Seq<char>>
    decreases names.len(),
{
    if names.len() == 0 {
        Seq::empty()
    } else {
        let pre = dedup_first(names.drop_last());
        if pre.contains(names.last()) {
            pre
        } else {
            pre.push(names.last())
        }
    }
}

/// The step equation for `dedup_first` over a growing prefix.
pub proof fn lemma_dedup_first_push(names: Seq<Seq<char>>, x: Seq<char>)
    ensures
        dedup_first(names.push(x)) == if dedup_first(names).contains(x) {
            dedup_first(names)
        } else {
            dedup_first(names).push(x)
        },
{
    assert(names.push(x).drop_last() =~= names);
    assert(names.push(x).last() == x);
}

/// Deduplication repeats no name.
pub proof fn lemma_dedup_first_no_duplicates(names: Seq<Seq<char>>)
    ensures
        dedup_first(names).no_duplicates(),
    decreases names.len(),
{
    if names.len() > 0 {
        lemma_dedup_first_no_duplicates(names.drop_last());
    }
}

/// Deduplication keeps exactly the names that were there.
pub proof fn lemma_dedup_first_contains(names: Seq<Seq<char>>, n: Seq<char>)
    ensures
        dedup_first(names).contains(n) <==> names.contains(n),
    decreases names.len(),
{
    if names.len() > 0 {
        lemma_dedup_first_contains(names.drop_last(), n);
        let pre = dedup_first(names.drop_last());
        let x = names.last();
        assert(names.contains(n) <==> (names.drop_last().contains(n) || n == x)) by {
            if names.contains(n) {
                let t = choose|t: int| 0 <= t < names.len() && names[t] == n;
                if t < names.len() - 1 {
                    assert(names.drop_last()[t] == n);
                }
            }
            if names.drop_last().contains(n) {
                let t = choose|t: int|
                    0 <= t < names.drop_last().len() && names.drop_last()[t] == n;
                assert(names[t] == n);
            }
            if n == x {
                assert(names[names.len() - 1] == n);
            }
        }
        if !pre.contains(x) {
            assert(pre.push(x).contains(n) <==> (pre.contains(n) || n == x)) by {
                if pre.contains(n) {
                    let t = choose|t: int| 0 <= t < pre.len() && pre[t] == n;
                    assert(pre.push(x)[t] == n);
                }
                assert(pre.push(x)[pre.len() as int] == x);
                if pre.push(x).contains(n) {
                    let t = choose|t: int| 0 <= t < pre.push(x).len() && pre.push(x)[t] == n;
                    if t < pre.len() {
                        assert(pre[t] == n);
                    }
                }
            }
        }
    }
}

/// One name per (record, label) pair, scanning records in order and, within a
/// record, labels in first-occurrence order: a record carrying a label
/// contributes that label's name once, however often it repeats it.
pub open spec fn flat_names(birds: Seq<Bird>) -> Seq<Seq<char>>
    decreases birds.len(),
{
    if birds.len() == 0 {
        Seq::empty()
    } else {
        flat_names(birds.drop_last()) + dedup_first(names_of(birds.last().parent_nodes@))
    }
}

/// The subsequence of `names` whose count over the record set is exactly `f`.
pub open spec fn names_with_count(names: Seq<Seq<char>>, all: Seq<Bird>, f: nat) -> Seq<Seq<char>>
    decreases names.len(),
{
    if names.len() == 0 {
        Seq::empty()
    } else {
        let pre = names_with_count(names.drop_last(), all, f);
        if count_in(all, names.last()) == f {
            pre.push(names.last())
        } else {
            pre
        }
    }
}

/// A label cloned into the grouping: it is named `name` and carries, one link
/// deep, exactly the parent the engine infers for that name.
pub open spec fn node_for(all: Seq<Bird>, node: Classification, name: Seq<char>) -> bool {
    &&& node.name@ == name
    &&& match inferred_parent(all, name) {
        Option::None => node.parent_classification is None,
        Option::Some(p) => node.parent_classification matches Some(b) && b.name@ == p
            && b.parent_classification is None,
    }
}

/// A bucket of the grouping holds one node per (record, label) pair whose
/// name's count is the bucket's frequency, in scan order.
pub open spec fn bucket_matches(all: Seq<Bird>, f: nat, bucket: Seq<Classification>) -> bool {
    let names = names_with_count(flat_names(all), all, f);
    &&& bucket.len() == names.len()
    &&& forall|t: int| 0 <= t < bucket.len() ==> node_for(all, #[trigger] bucket[t], names[t])
}

/// The step equation for `names_with_count` over a growing prefix.
pub proof fn lemma_names_with_count_take_step(names: Seq<Seq<char>>, t: int, all: Seq<Bird>, f: nat)
    requires
        0 <= t < names.len(),
    ensures
        names_with_count(names.take(t + 1), all, f) == if count_in(all, names[t]) == f {
            names_with_count(names.take(t), all, f).push(names[t])
        } else {
            names_with_count(names.take(t), all, f)
        },
{
    assert(names.take(t + 1).drop_last() =~= names.take(t));
    assert(names.take(t + 1).last() == names[t]);
}

/// A frequency that no name of the list has selects nothing.
pub proof fn lemma_names_with_count_absent(names: Seq<Seq<char>>, all: Seq<Bird>, f: nat)
    requires
        forall|s: int| 0 <= s < names.len() ==> count_in(all, #[trigger] names[s]) != f,
    ensures
        names_with_count(names, all, f).len() == 0,
    decreases names.len(),
{
    if names.len() > 0 {
        assert(forall|s: int|
            0 <= s < names.drop_last().len() ==> count_in(all, #[trigger] names.drop_last()[s])
                != f);
        lemma_names_with_count_absent(names.drop_last(), all, f);
    }
}

/// The step equation for `flat_names` over a growing prefix of records.
pub proof fn lemma_flat_names_take_step(birds: Seq<Bird>, i: int)
    requires
        0 <= i < birds.len(),
    ensures
        flat_names(birds.take(i + 1)) == flat_names(birds.take(i)) + dedup_first(
            names_of(birds[i].parent_nodes@),
        ),
{
    assert(birds.take(i + 1).drop_last() =~= birds.take(i));
    assert(birds.take(i + 1).last() == birds[i]);
}

/// Groups the labels by the count of their names: every record contributes,
/// for each label it carries, one clone — so a label carried by N records
/// appears N times across the buckets — and each clone carries its name's
/// inferred parent. Clones land in scan order; the buckets' relative order is
/// left open, as a map from frequency to nodes.
pub fn sort_by_classification(birds: Vec<Bird>) -> (r: Vec<(usize, Vec<Classification>)>)
    ensures
        forall|a: int, b: int| 0 <= a < b < r@.len() ==> (#[trigger] r@[a]).0 != (#[trigger] r@[b]).0,
        forall|k: int| 0 <= k < r@.len() ==> (#[trigger] r@[k]).1@.len() > 0,
        forall|k: int|
            0 <= k < r@.len() ==> bucket_matches(birds@, (#[trigger] r@[k]).0 as nat, r@[k].1@),
        forall|t: int|
            0 <= t < flat_names(birds@).len() ==> exists|k: int|
                0 <= k < r@.len() && (#[trigger] r@[k]).0 as nat == count_in(
                    birds@,
                    #[trigger] flat_names(birds@)[t],
                ),
{
    // Flatten the (record, label) pairs into one list of names.
    let mut flat: Vec<String> = Vec::new();
    let mut i: usize = 0;
    while i < birds.len()
        invariant
            i <= birds@.len(),
            flat@.map_values(|s: String| s@) =~= flat_names(birds@.take(i as int)),
        decreases birds@.len() - i,
    {
        let labels = &birds[i].parent_nodes;
        let mut j: usize = 0;
        while j < labels.len()
            invariant
                j <= labels@.len(),
                labels@ == birds@[i as int].parent_nodes@,
                i < birds@.len(),
                flat@.map_values(|s: String| s@) =~= flat_names(birds@.take(i as int))
                    + dedup_first(names_of(labels@.take(j as int))),
            decreases labels@.len() - j,
        {
            // Skip a name this record already listed at an earlier position:
            // a record contributes each label it carries once.
            let mut dup = false;
            let mut t: usize = 0;
            while t < j
                invariant
                    t <= j,
                    j < labels@.len(),
                    labels@ == birds@[i as int].parent_nodes@,
                    i < birds@.len(),
                    dup == exists|s: int|
                        0 <= s < t && (#[trigger] labels@[s]).name@ == labels@[j as int].name@,
                decreases j - t,
            {
                if labels[t].name == labels[j].name {
                    dup = true;
                }
                t = t + 1;
            }
            proof {
                let prefix = names_of(labels@.take(j as int));
                let x = labels@[j as int].name@;
                assert(prefix.len() == j);
                assert(dup == prefix.contains(x)) by {
                    if dup {
                        let s = choose|s: int|
                            0 <= s < j && (#[trigger] labels@[s]).name@ == x;
                        assert(prefix[s] == x);
                    }
                    if prefix.contains(x) {
                        let s = choose|s: int| 0 <= s < prefix.len() && prefix[s] == x;
                        assert(labels@[s].name@ == x);
                    }
                }
                lemma_dedup_first_contains(prefix, x);
                assert(names_of(labels@.take(j + 1)) =~= prefix.push(x));
                lemma_dedup_first_push(prefix, x);
            }
            if !dup {
                let ghost flat0 = flat@;
                flat.push(labels[j].name.clone());
                proof {
                    assert(flat@.map_values(|s: String| s@) =~= flat0.map_values(
                        |s: String| s@,
                    ).push(labels@[j as int].name@));
                }
            }
            proof {
                assert(flat@.map_values(|s: String| s@) =~= flat_names(birds@.take(i as int))
                    + dedup_first(names_of(labels@.take(j + 1))));
            }
            j = j + 1;
        }
        proof {
            lemma_flat_names_take_step(birds@, i as int);
            assert(labels@.take(labels@.len() as int) =~= labels@);
        }
        i = i + 1;
    }
    proof {
        assert(birds@.take(birds@.len() as int) =~= birds@);
    }
    let ghost flatv: Seq<Seq<char>> = flat@.map_values(|s: String| s@);

    // Distribute each pair into the bucket of its name's count.
    let mut r: Vec<(usize, Vec<Classification>)> = Vec::new();
    let mut t: usize = 0;
    while t < flat.len()
        invariant
            t <= flat@.len(),
            flatv == flat@.map_values(|s: String| s@),
            flatv == flat_names(birds@),
            forall|a: int, b: int|
                0 <= a < b < r@.len() ==> (#[trigger] r@[a]).0 != (#[trigger] r@[b]).0,
            forall|k: int| 0 <= k < r@.len() ==> (#[trigger] r@[k]).1@.len() > 0,
            forall|k: int|
                0 <= k < r@.len() ==> {
                    let names = names_with_count(flatv.take(t as int), birds@, (#[trigger] r@[k]).0 as nat);
                    r@[k].1@.len() == names.len() && forall|u: int|
                        0 <= u < names.len() ==> node_for(birds@, #[trigger] r@[k].1@[u], names[u])
                },
            forall|s: int|
                0 <= s < t ==> exists|k: int|
                    0 <= k < r@.len() && (#[trigger] r@[k]).0 as nat == count_in(
                        birds@,
                        #[trigger] flatv[s],
                    ),
        decreases flat@.len() - t,
    {
        let f = count_of(&birds, &flat[t]);
        let parent = compute_parent(&birds, &flat[t]);
        let node = Classification {
            name: flat[t].clone(),
            parent_classification: match parent {
                Option::Some(p) => Some(Box::new(Classification { name: p, parent_classification: None })),
                Option::None => None,
            },
        };
        assert(node_for(birds@, node, flatv[t as int]));

        // Find the bucket keyed by this frequency, or open a new one.
        let mut k: usize = 0;
        let mut found = false;
        while k < r.len() && !found
            invariant
                k <= r@.len(),
                !found ==> forall|b: int| 0 <= b < k ==> (#[trigger] r@[b]).0 != f,
                found ==> k < r@.len() && r@[k as int].0 == f,
            decreases r@.len() - k, (if found { 0int } else { 1int }),
        {
            if r[k].0 == f {
                found = true;
            } else {
                k = k + 1;
            }
        }
        proof {
            assert(forall|g: nat|
                g != count_in(birds@, flatv[t as int]) ==> names_with_count(
                    flatv.take(t + 1),
                    birds@,
                    g,
                ) == names_with_count(flatv.take(t as int), birds@, g)) by {
                assert forall|g: nat| g != count_in(birds@, flatv[t as int]) implies names_with_count(
                    flatv.take(t + 1),
                    birds@,
                    g,
                ) == names_with_count(flatv.take(t as int), birds@, g) by {
                    lemma_names_with_count_take_step(flatv, t as int, birds@, g);
                }
            }
            lemma_names_with_count_take_step(flatv, t as int, birds@, f as nat);
        }
        let ghost r0 = r@;
        if found {
            let mut bucket = r.remove(k);
            bucket.1.push(node);
            r.insert(k, bucket);
            proof {
                assert(r@.len() == r0.len());
                assert(forall|b: int| 0 <= b < r@.len() && b != k ==> r@[b] == r0[b]);
                assert(r@[k as int].0 == r0[k as int].0);
                assert(r@[k as int].1@ == r0[k as int].1@.push(node));
            }
        } else {
            // No earlier pair had this frequency, so its bucket starts empty.
            proof {
                assert(forall|s: int|
                    0 <= s < flatv.take(t as int).len() ==> count_in(
                        birds@,
                        #[trigger] flatv.take(t as int)[s],
                    ) != f as nat);
                lemma_names_with_count_absent(flatv.take(t as int), birds@, f as nat);
            }
            let mut bucket: Vec<Classification> = Vec::new();
            bucket.push(node);
            r.push((f, bucket));
        }
        proof {
            assert forall|s: int| 0 <= s < t + 1 implies exists|kk: int|
                0 <= kk < r@.len() && (#[trigger] r@[kk]).0 as nat == count_in(
                    birds@,
                    #[trigger] flatv[s],
                ) by {
                if s < t {
                    let ks = choose|kk: int|
                        0 <= kk < r0.len() && (#[trigger] r0[kk]).0 as nat == count_in(
                            birds@,
                            flatv[s],
                        );
                    assert(r@[ks].0 == r0[ks].0);
                } else {
                    if found {
                        assert(r@[k as int].0 as nat == count_in(birds@, flatv[s]));
                    } else {
                        assert(r@[r@.len() - 1].0 as nat == count_in(birds@, flatv[s]));
                    }
                }
            }
        }
        t = t + 1;
    }
    proof {
        assert(flatv.take(flat@.len() as int) =~= flatv);
    }
    r
}

/// A candidate returned by `last_candidate` really has a count above `c`.
proof fn lemma_last_candidate_count(labels: Seq<Classification>, all: Seq<Bird>, c: nat)
    ensures
        match last_candidate(labels, all, c) {
            Option::Some(p) => count_in(all, p) > c,
            Option::None => true,
        },
    decreases labels.len(),
{
    if labels.len() > 0 && !(count_in(all, labels.last().name@) > c) {
        lemma_last_candidate_count(labels.drop_last(), all, c);
    }
}

proof fn lemma_parent_upto_count(all: Seq<Bird>, n: int, name: Seq<char>, p: Seq<char>)
    requires
        n <= all.len(),
        parent_upto(all, n, name) == Some(p),
    ensures
        count_in(all, p) > count_in(all, name),
    decreases n,
{
    if n > 0 {
        if bird_carries(all[n - 1], name) {
            match last_candidate(all[n - 1].parent_nodes@, all, count_in(all, name)) {
                Option::Some(_q) => {
                    lemma_last_candidate_count(
                        all[n - 1].parent_nodes@,
                        all,
                        count_in(all, name),
                    );
                },
                Option::None => {
                    lemma_parent_upto_count(all, n - 1, name, p);
                },
            }
        } else {
            lemma_parent_upto_count(all, n - 1, name, p);
        }
    }
}

/// Monotonic count ordering: whenever the engine assigns `name` the parent
/// `p`, the parent's count strictly exceeds the child's.
pub proof fn lemma_parent_count_greater(all: Seq<Bird>, name: Seq<char>, p: Seq<char>)
    requires
        inferred_parent(all, name) == Some(p),
    ensures
        count_in(all, p) > count_in(all, name),
{
    lemma_parent_upto_count(all, all.len() as int, name, p);
}

/// Counts strictly increase along a chain of parent links, so the `i`th link
/// sits at count at least `i`.
proof fn lemma_chain_count(all: Seq<Bird>, chain: Seq<Seq<char>>, i: int)
    requires
        0 <= i < chain.len(),
        forall|t: int|
            0 <= t < chain.len() - 1 ==> inferred_parent(all, #[trigger] chain[t]) == Some(
                chain[t + 1],
            ),
    ensures
        count_in(all, chain[i]) >= i,
    decreases i,
{
    if i > 0 {
        lemma_chain_count(all, chain, i - 1);
        lemma_parent_count_greater(all, chain[i - 1], chain[i]);
    }
}

/// Acyclicity: following parent links always terminates. Any chain of labels
/// linked parent to parent is no longer than the record count plus one, since
/// the labels' counts strictly increase along it; in particular no label is
/// its own ancestor.
pub proof fn lemma_parent_chain_bounded(all: Seq<Bird>, chain: Seq<Seq<char>>)
    requires
        chain.len() >= 1,
        forall|t: int|
            0 <= t < chain.len() - 1 ==> inferred_parent(all, #[trigger] chain[t]) == Some(
                chain[t + 1],
            ),
    ensures
        chain.len() <= all.len() + 1,
{
    lemma_chain_count(all, chain, chain.len() - 1);
    lemma_count_le_len(all, chain[chain.len() - 1]);
}

/// Two record sets agree on their label names when corresponding records list
/// the same names in the same order. Parent links and record names may differ.
pub open spec fn same_label_names(a: Seq<Bird>, b: Seq<Bird>) -> bool {
    &&& a.len() == b.len()
    &&& forall|i: int|
        0 <= i < a.len() ==> names_of((#[trigger] a[i]).parent_nodes@) == names_of(
            b[i].parent_nodes@,
        )
}

/// Records that list the same names carry the same names.
proof fn lemma_carries_same(x: Bird, y: Bird, name: Seq<char>)
    requires
        names_of(x.parent_nodes@) == names_of(y.parent_nodes@),
    ensures
        bird_carries(x, name) == bird_carries(y, name),
{
    assert(names_of(x.parent_nodes@).len() == x.parent_nodes@.len());
    assert(names_of(y.parent_nodes@).len() == y.parent_nodes@.len());
    if bird_carries(x, name) {
        let j = choose|j: int|
            0 <= j < x.parent_nodes@.len() && (#[trigger] x.parent_nodes@[j]).name@ == name;
        assert(names_of(x.parent_nodes@)[j] == name);
        assert((y.parent_nodes@[j]).name@ == names_of(y.parent_nodes@)[j]);
        assert((y.parent_nodes@[j]).name@ == name);
    }
    if bird_carries(y, name) {
        let j = choose|j: int|
            0 <= j < y.parent_nodes@.len() && (#[trigger] y.parent_nodes@[j]).name@ == name;
        assert(names_of(y.parent_nodes@)[j] == name);
        assert((x.parent_nodes@[j]).name@ == names_of(x.parent_nodes@)[j]);
        assert((x.parent_nodes@[j]).name@ == name);
    }
}

proof fn lemma_count_same(a: Seq<Bird>, b: Seq<Bird>, name: Seq<char>)
    requires
        same_label_names(a, b),
    ensures
        count_in(a, name) == count_in(b, name),
    decreases a.len(),
{
    if a.len() > 0 {
        assert(same_label_names(a.drop_last(), b.drop_last()));
        lemma_count_same(a.drop_last(), b.drop_last(), name);
        lemma_carries_same(a.last(), b.last(), name);
    }
}

proof fn lemma_candidate_same(
    la: Seq<Classification>,
    lb: Seq<Classification>,
    a: Seq<Bird>,
    b: Seq<Bird>,
    c: nat,
)
    requires
        same_label_names(a, b),
        names_of(la) == names_of(lb),
    ensures
        last_candidate(la, a, c) == last_candidate(lb, b, c),
    decreases la.len(),
{
    assert(names_of(la).len() == la.len());
    assert(names_of(lb).len() == lb.len());
    assert(la.len() == lb.len());
    if la.len() > 0 {
        assert(names_of(la)[la.len() - 1] == la.last().name@);
        assert(names_of(lb)[la.len() - 1] == lb.last().name@);
        lemma_count_same(a, b, la.last().name@);
        if !(count_in(a, la.last().name@) > c) {
            assert forall|t: int| 0 <= t < la.len() - 1 implies names_of(la.drop_last())[t]
                == names_of(lb.drop_last())[t] by {
                assert(names_of(la)[t] == names_of(lb)[t]);
            }
            assert(names_of(la.drop_last()) =~= names_of(lb.drop_last()));
            lemma_candidate_same(la.drop_last(), lb.drop_last(), a, b, c);
        }
    }
}

proof fn lemma_parent_upto_same(a: Seq<Bird>, b: Seq<Bird>, n: int, name: Seq<char>)
    requires
        same_label_names(a, b),
        n <= a.len(),
    ensures
        parent_upto(a, n, name) == parent_upto(b, n, name),
    decreases n,
{
    if n > 0 {
        lemma_parent_upto_same(a, b, n - 1, name);
        lemma_carries_same(a[n - 1], b[n - 1], name);
        if bird_carries(a[n - 1], name) {
            lemma_count_same(a, b, name);
            lemma_candidate_same(a[n - 1].parent_nodes@, b[n - 1].parent_nodes@, a, b, count_in(a, name));
        }
    }
}

/// Idempotence: the parent assignment depends only on the label names the
/// records carry, never on previously assigned parent links, so running the
/// engine a second time over the relinked records reproduces the identical
/// assignment.
pub proof fn lemma_inference_idempotent(a: Seq<Bird>, b: Seq<Bird>)
    requires
        same_label_names(a, b),
    ensures
        forall|name: Seq<char>| inferred_parent(a, name) == inferred_parent(b, name),
{
    assert forall|name: Seq<char>| inferred_parent(a, name) == inferred_parent(b, name) by {
        lemma_parent_upto_same(a, b, a.len() as int, name);
    }
}

} // verus!
