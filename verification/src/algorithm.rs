//! Trimming the repository after an answer, and choosing the next question.
use std::collections::HashMap;
use std::collections::HashSet;
use std::collections::VecDeque;
use vstd::prelude::*;

use crate::graph::{
    ancestors, closed_from, drop_ancestors, first_layer, half_way, guess_index, is_parent,
    keep_ancestors, lemma_ancestors_closed, lemma_ancestors_least, lemma_push_unseen,
    lemma_scan, lemma_walk_prefix, next_guess, reaches, scan, walk, walk_order, walk_size,
};

verus! {

broadcast use {vstd::std_specs::hash::group_hash_axioms, vstd::set::group_set_axioms};

/// Appends the parent list `ps` to the queue, in order.
fn push_all(queue: &mut VecDeque<u64>, ps: &Vec<u64>)
    ensures
        final(queue)@ == old(queue)@ + ps@,
{
    for i in 0..ps.len()
        invariant
            queue@ == old(queue)@ + ps@.subrange(0, i as int),
    {
        proof {
            assert(ps@.subrange(0, i + 1) =~= ps@.subrange(0, i as int).push(ps@[i as int]));
        }
        queue.push_back(ps[i]);
    }
    proof {
        assert(ps@.subrange(0, ps@.len() as int) =~= ps@);
    }
}

/// Removes from `parents` the good commit `good` and all its ancestors in
/// the map: none of them can be the first bad commit. The parent lists of
/// the commits that stay are kept as they are.
pub fn remove_unecessary_good_commits(good: &u64, parents: &mut HashMap<u64, Vec<u64>>)
    requires
        old(parents)@.contains_key(*good),
    ensures
        final(parents)@ == drop_ancestors(old(parents)@, *good),
{
    let ghost m = parents@;
    let ghost anc = ancestors(m, *good);
    proof {
        lemma_ancestors_closed(m, *good);
    }
    let mut queue: VecDeque<u64> = VecDeque::new();
    let temp: &Vec<u64> = parents.get(good).unwrap();
    push_all(&mut queue, temp);
    let ghost mut removed: Set<u64> = Set::empty();
    proof {
        assert(parents@ =~= m.remove_keys(removed));
        assert forall|j: int|
            0 <= j < queue@.len() && m.contains_key(#[trigger] queue@[j]) implies anc.contains(
            queue@[j],
        ) by {
            assert(temp@[j] == queue@[j]);
            assert(is_parent(m, *good, queue@[j]));
        }
        assert forall|y: u64| temp@.contains(y) implies queue@.contains(y) by {
            let j = choose|j: int| 0 <= j < temp@.len() && temp@[j] == y;
            assert(queue@[j] == y);
        }
    }
    while queue.len() != 0
        invariant
            m.dom().finite(),
            m.contains_key(*good),
            closed_from(m, *good, anc),
            anc == ancestors(m, *good),
            parents@ == m.remove_keys(removed),
            removed.subset_of(anc),
            forall|j: int|
                0 <= j < queue@.len() && m.contains_key(#[trigger] queue@[j]) ==> anc.contains(
                    queue@[j],
                ),
            forall|x: u64, y: u64|
                (removed.contains(x) || x == *good) && #[trigger] is_parent(m, x, y) ==> (
                removed.contains(y) || queue@.contains(y) || y == *good),
        decreases parents@.dom().len(), queue@.len(),
    {
        let ghost before = queue@;
        let commit = queue.pop_front().unwrap();
        proof {
            assert(commit == before[0]);
            assert(queue@ =~= before.drop_first());
            assert forall|y: u64| before.contains(y) implies queue@.contains(y) || y == commit by {
                let j = choose|j: int| 0 <= j < before.len() && before[j] == y;
                if j > 0 {
                    assert(queue@[j - 1] == y);
                }
            }
        }
        if let Some(cats) = parents.get(&commit) {
            let ghost mid = queue@;
            push_all(&mut queue, cats);
            proof {
                assert(m.contains_key(commit));
                assert(anc.contains(commit)) by {
                    assert(before[0] == commit);
                }
                assert forall|y: u64| mid.contains(y) implies queue@.contains(y) by {
                    let j = choose|j: int| 0 <= j < mid.len() && mid[j] == y;
                    assert(queue@[j] == y);
                }
                assert forall|y: u64| cats@.contains(y) implies queue@.contains(y) by {
                    let j = choose|j: int| 0 <= j < cats@.len() && cats@[j] == y;
                    assert(queue@[mid.len() + j] == y);
                }
                assert forall|j: int|
                    0 <= j < queue@.len() && m.contains_key(#[trigger] queue@[j]) implies anc.contains(
                    queue@[j],
                ) by {
                    if j < mid.len() {
                        assert(before[j + 1] == queue@[j]);
                    } else {
                        assert(cats@[j - mid.len()] == queue@[j]);
                        assert(is_parent(m, commit, queue@[j]));
                    }
                }
                removed = removed.insert(commit);
            }
            parents.remove(&commit);
            proof {
                assert(parents@ =~= m.remove_keys(removed));
            }
        }
    }
    parents.remove(good);
    proof {
        let done = removed.insert(*good);
        assert(closed_from(m, *good, done));
        lemma_ancestors_least(m, *good, done);
        assert(parents@ =~= drop_ancestors(m, *good));
    }
}

/// What the walk from `a` has found so far: `order` starts with `a`, holds
/// commits that `a` reaches, each once, `seen` is its set, the queue holds
/// `order[next..]`, and every commit before `next` has its parents in the map
/// in `order`.
spec fn walk_state(
    m: Map<u64, Vec<u64>>,
    a: u64,
    order: Seq<u64>,
    next: int,
    seen: Set<u64>,
    queue: Seq<u64>,
) -> bool {
    &&& m.dom().finite()
    &&& order.len() >= 1
    &&& order[0] == a
    &&& order.no_duplicates()
    &&& forall|k: int| 0 <= k < order.len() ==> ancestors(m, a).contains(#[trigger] order[k])
    &&& seen == order.to_set()
    &&& 1 <= next <= order.len()
    &&& queue == order.subrange(next, order.len() as int)
    &&& forall|k: int, y: u64|
        0 <= k < next && #[trigger] is_parent(m, order[k], y) ==> order.contains(y)
    &&& walk_size(m, order) == m.dom().len()
}

/// Scans the parent list `ps` of `order[next - 1]`, appending each unseen
/// commit of the map to the queue and to the seen set.
fn scan_parents(
    parents: &HashMap<u64, Vec<u64>>,
    ps: &Vec<u64>,
    queue: &mut VecDeque<u64>,
    results: &mut HashSet<u64>,
    Ghost(a): Ghost<u64>,
    Ghost(order): Ghost<Seq<u64>>,
    Ghost(next): Ghost<int>,
) -> (new_order: Ghost<Seq<u64>>)
    requires
        1 <= next <= order.len(),
        parents@.contains_key(order[next - 1]),
        parents@[order[next - 1]] == *ps,
        order.len() >= 1 && order[0] == a,
        order.no_duplicates(),
        parents@.dom().finite(),
        forall|k: int| 0 <= k < order.len() ==> ancestors(parents@, a).contains(#[trigger] order[k]),
        old(results)@ == order.to_set(),
        old(queue)@ == order.subrange(next, order.len() as int),
        forall|k: int, y: u64|
            0 <= k < next - 1 && #[trigger] is_parent(parents@, order[k], y) ==> order.contains(y),
        walk_size(parents@, order) == parents@.dom().len(),
    ensures
        walk_state(parents@, a, new_order@, next, final(results)@, final(queue)@),
        new_order@.len() >= order.len(),
        new_order@.subrange(0, order.len() as int) == order,
{
    let ghost m = parents@;
    let ghost mut cur = order;
    proof {
        lemma_ancestors_closed(m, a);
    }
    for i in 0..ps.len()
        invariant
            m == parents@,
            m.dom().finite(),
            1 <= next <= order.len(),
            m.contains_key(order[next - 1]),
            m[order[next - 1]] == *ps,
            closed_from(m, a, ancestors(m, a)),
            cur.len() >= order.len(),
            cur.subrange(0, order.len() as int) == order,
            cur[0] == a,
            cur.no_duplicates(),
            forall|k: int| 0 <= k < cur.len() ==> ancestors(m, a).contains(#[trigger] cur[k]),
            results@ == cur.to_set(),
            queue@ == cur.subrange(next, cur.len() as int),
            forall|k: int, y: u64|
                0 <= k < next - 1 && #[trigger] is_parent(m, cur[k], y) ==> cur.contains(y),
            forall|j: int| 0 <= j < i && #[trigger] m.contains_key(ps@[j]) ==> cur.contains(ps@[j]),
            walk_size(m, cur) == m.dom().len(),
    {
        let temp = ps[i];
        if !results.contains(&temp) && parents.contains_key(&temp) {
            proof {
                assert(!cur.contains(temp));
                lemma_push_unseen(m, cur, temp);
                assert(cur[next - 1] == order[next - 1]);
                assert(is_parent(m, cur[next - 1], temp));
                assert(ancestors(m, a).contains(cur[next - 1]));
                let old_cur = cur;
                cur = cur.push(temp);
                assert(cur.subrange(0, order.len() as int) =~= old_cur.subrange(
                    0,
                    order.len() as int,
                ));
                assert forall|x: u64| old_cur.contains(x) implies cur.contains(x) by {
                    let k = choose|k: int| 0 <= k < old_cur.len() && old_cur[k] == x;
                    assert(cur[k] == x);
                }
                assert(cur[old_cur.len() as int] == temp);
                assert(cur.subrange(next, cur.len() as int) =~= old_cur.subrange(
                    next,
                    old_cur.len() as int,
                ).push(temp));
            }
            queue.push_back(temp);
            results.insert(temp);
        }
    }
    proof {
        assert forall|k: int, y: u64|
            0 <= k < next && #[trigger] is_parent(m, cur[k], y) implies cur.contains(y) by {
            if k == next - 1 {
                assert(cur[k] == order[k]);
                let j = choose|j: int| 0 <= j < ps@.len() && ps@[j] == y;
                assert(m.contains_key(ps@[j]));
            }
        }
    }
    Ghost(cur)
}

/// Keeps in `parents` only the bad commit `bad` and its ancestors in the map:
/// the first bad commit must be one of them. The parent lists are kept as
/// they are.
pub fn remove_from_bad(bad: &u64, parents: &mut HashMap<u64, Vec<u64>>)
    requires
        old(parents)@.contains_key(*bad),
    ensures
        final(parents)@ == keep_ancestors(old(parents)@, *bad),
{
    let ghost m = parents@;
    let mut queue: VecDeque<u64> = VecDeque::new();
    let mut results: HashSet<u64> = HashSet::new();
    results.insert(*bad);
    let ghost mut order: Seq<u64> = seq![*bad];
    proof {
        lemma_ancestors_closed(m, *bad);
        assert(order[0] == *bad);
        assert(order.to_set() =~= set![*bad]);
        assert((m.dom() - order.to_set()) =~= m.dom().remove(*bad));
        assert(order.subrange(1, 1) =~= Seq::<u64>::empty());
    }
    let parents_of_bad: &Vec<u64> = parents.get(bad).unwrap();
    let Ghost(o) = scan_parents(
        parents,
        parents_of_bad,
        &mut queue,
        &mut results,
        Ghost(*bad),
        Ghost(order),
        Ghost(1),
    );
    proof {
        order = o;
    }
    let ghost mut next: int = 1;
    while queue.len() != 0
        invariant
            m == parents@,
            walk_state(m, *bad, order, next, results@, queue@),
        decreases 2 * m.dom().len() - order.len() - next,
    {
        let commit = queue.pop_front().unwrap();
        proof {
            assert(commit == order[next]);
            assert(queue@ =~= order.subrange(next + 1, order.len() as int));
            next = next + 1;
            assert(ancestors(m, *bad).contains(order[next - 1]));
        }
        if let Some(cats) = parents.get(&commit) {
            let Ghost(o) = scan_parents(
                parents,
                cats,
                &mut queue,
                &mut results,
                Ghost(*bad),
                Ghost(order),
                Ghost(next),
            );
            proof {
                order = o;
            }
        }
    }
    proof {
        assert(closed_from(m, *bad, order.to_set())) by {
            assert(order[0] == *bad);
            assert forall|x: u64, y: u64|
                #[trigger] order.to_set().contains(x) && #[trigger] is_parent(m, x, y) implies order.to_set().contains(
                y,
            ) by {
                let k = choose|k: int| 0 <= k < order.len() && order[k] == x;
                assert(is_parent(m, order[k], y));
            }
        }
        lemma_ancestors_least(m, *bad, order.to_set());
        assert(results@ =~= ancestors(m, *bad));
    }
    let mut parent_keys: Vec<u64> = Vec::new();
    for key in it: parents.keys()
        invariant
            m == parents@,
            parent_keys.len() == it.index(),
            forall|j: int| 0 <= j < parent_keys.len() ==> parent_keys@[j] == *it.seq()[j],
    {
        parent_keys.push(*key);
    }
    proof {
        let ks = vstd::std_specs::iter::IteratorSpec::remaining(&vstd::std_specs::hash::spec_keys_iter(parents));
        assert(ks.unref().to_set() == m.dom());
        assert(parent_keys@.len() == ks.len());
        assert(parent_keys@.to_set() =~= m.dom()) by {
            assert forall|k: u64| parent_keys@.contains(k) <==> m.contains_key(k) by {
                if m.contains_key(k) {
                    assert(ks.unref().contains(k));
                    let j = choose|j: int| 0 <= j < ks.unref().len() && ks.unref()[j] == k;
                    assert(parent_keys@[j] == k);
                }
                if parent_keys@.contains(k) {
                    let j = choose|j: int| 0 <= j < parent_keys@.len() && parent_keys@[j] == k;
                    assert(ks.unref()[j] == k);
                }
            }
        }
    }
    let n = parent_keys.len();
    for i in 0..n
        invariant
            n == parent_keys.len(),
            parent_keys@.to_set() == m.dom(),
            results@ == ancestors(m, *bad),
            forall|k: u64|
                #[trigger] parents@.contains_key(k) <==> m.contains_key(k) && (results@.contains(k)
                    || !parent_keys@.subrange(0, i as int).contains(k)),
            forall|k: u64| #[trigger] parents@.contains_key(k) ==> parents@[k] == m[k],
    {
        let removal = parent_keys[i];
        proof {
            let before = parent_keys@.subrange(0, i as int);
            let after = parent_keys@.subrange(0, i + 1);
            assert forall|k: u64| after.contains(k) <==> (before.contains(k) || k == removal) by {
                if after.contains(k) {
                    let j = choose|j: int| 0 <= j < after.len() && #[trigger] after[j] == k;
                    if j < i {
                        assert(before[j] == k);
                    }
                }
                if before.contains(k) {
                    let j = choose|j: int| 0 <= j < before.len() && #[trigger] before[j] == k;
                    assert(after[j] == k);
                }
                if k == removal {
                    assert(after[i as int] == k);
                }
            }
        }
        if !results.contains(&removal) {
            parents.remove(&removal);
        }
    }
    proof {
        assert(parent_keys@.subrange(0, n as int) =~= parent_keys@);
        assert(parents@ =~= keep_ancestors(m, *bad));
    }

}

/// Facts about the walk so far that every step of `get_next_guess` keeps.
spec fn guess_walk(
    m: Map<u64, Vec<u64>>,
    a: u64,
    cur: Seq<u64>,
    seen: Set<u64>,
    queue: Seq<u64>,
    from: int,
) -> bool {
    &&& m.dom().finite()
    &&& m.contains_key(a)
    &&& closed_from(m, a, ancestors(m, a))
    &&& cur.len() >= 1
    &&& cur[0] == a
    &&& cur.no_duplicates()
    &&& forall|k: int| 0 <= k < cur.len() ==> ancestors(m, a).contains(#[trigger] cur[k])
    &&& seen == cur.to_set()
    &&& 0 <= from <= cur.len()
    &&& queue == cur.subrange(from, cur.len() as int)
    &&& walk_size(m, cur) == m.dom().len()
}

/// Chooses the commit to ask about next, below the bad commit `bad`: the
/// commit that a breadth-first walk of parent links from `bad` meets about
/// half-way through the commits of the map (see `next_guess`). `None` when
/// the walk meets too few commits.
pub fn get_next_guess(bad: &u64, parents: &HashMap<u64, Vec<u64>>) -> (guess: Option<u64>)
    requires
        parents@.contains_key(*bad),
    ensures
        guess == next_guess(parents@, *bad),
        guess matches Some(g) ==> g != *bad && reaches(parents@, *bad, g),
{
    let ghost m = parents@;
    let ghost full = walk_order(m, *bad);
    let ghost layer = first_layer(m, *bad);
    let ghost h = half_way(m);
    let len = parents.len();
    let half = len / 2 + len % 2;
    let mut count: usize = 1;
    let mut queue: VecDeque<u64> = VecDeque::new();
    let parents_of_bad: &Vec<u64> = parents.get(bad).unwrap();
    let mut results: HashSet<u64> = HashSet::new();
    results.insert(*bad);
    let ghost mut cur: Seq<u64> = seq![*bad];
    proof {
        lemma_ancestors_closed(m, *bad);
        assert(cur[0] == *bad);
        assert(cur.to_set() =~= set![*bad]);
        assert((m.dom() - cur.to_set()) =~= m.dom().remove(*bad));
        assert(cur.subrange(1, 1) =~= Seq::<u64>::empty());
        assert(half == h);
        lemma_scan(m, m[*bad]@, 0, cur);
        lemma_walk_prefix(m, layer, 1);
        assert(full == walk(m, layer, 1));
    }
    for i in 0..parents_of_bad.len()
        invariant
            m == parents@,
            half == h,
            h == half_way(m),
            *parents_of_bad == m[*bad],
            guess_walk(m, *bad, cur, results@, queue@, 1),
            count == cur.len(),
            cur.len() == 1 || cur.len() < h,
            scan(m, m[*bad]@, i as int, cur) == layer,
            layer == first_layer(m, *bad),
            full == walk_order(m, *bad),
            full == walk(m, layer, 1),
            full.len() >= layer.len(),
            full.subrange(0, layer.len() as int) == layer,
    {
        let temp = parents_of_bad[i];
        if !results.contains(&temp) && parents.contains_key(&temp) {
            proof {
                let ps = m[*bad]@;
                assert(!cur.contains(temp));
                lemma_push_unseen(m, cur, temp);
                assert(is_parent(m, *bad, temp));
                let old_cur = cur;
                cur = cur.push(temp);
                assert(scan(m, ps, i as int, old_cur) == scan(m, ps, i + 1, cur));
                assert forall|x: u64| old_cur.contains(x) implies cur.contains(x) by {
                    let k = choose|k: int| 0 <= k < old_cur.len() && old_cur[k] == x;
                    assert(cur[k] == x);
                }
                assert(cur[old_cur.len() as int] == temp);
                assert(cur.subrange(1, cur.len() as int) =~= old_cur.subrange(
                    1,
                    old_cur.len() as int,
                ).push(temp));
                lemma_scan(m, ps, i + 1, cur);
            }
            queue.push_back(temp);
            results.insert(temp);
            count += 1;
            if count >= half {
                proof {
                    let j = cur.len() - 1;
                    assert(layer.subrange(0, cur.len() as int)[j] == layer[j]);
                    assert(full.subrange(0, layer.len() as int)[j] == full[j]);
                    assert(guess_index(m, *bad) == j);
                    assert(ancestors(m, *bad).contains(cur[j]));
                    assert(cur[0] != cur[j]);
                }
                return Some(temp);
            }
        }
    }
    proof {
        assert(cur == layer);
        assert(guess_index(m, *bad) == h);
    }
    let ghost mut next: int = 1;
    while queue.len() != 0
        invariant
            m == parents@,
            half == h,
            h == half_way(m),
            guess_walk(m, *bad, cur, results@, queue@, next),
            1 <= next,
            count == cur.len(),
            cur.len() <= h,
            guess_index(m, *bad) == h,
            full == walk_order(m, *bad),
            walk(m, cur, next) == full,
        decreases 2 * m.dom().len() - cur.len() - next,
    {
        let ghost before = queue@;
        let commit = queue.pop_front().unwrap();
        proof {
            assert(commit == cur[next]);
            assert(queue@ =~= cur.subrange(next + 1, cur.len() as int));
            assert(ancestors(m, *bad).contains(cur[next]));
        }
        let ghost at_pop = cur;
        let ghost taken = next;
        proof {
            next = next + 1;
        }
        if let Some(cats) = parents.get(&commit) {
            proof {
                assert(walk(m, at_pop, taken) == walk(m, scan(m, cats@, 0, at_pop), next));
            }
            for i in 0..cats.len()
                invariant
                    m == parents@,
                    half == h,
                    h == half_way(m),
                    guess_walk(m, *bad, cur, results@, queue@, next),
                    1 <= next <= cur.len(),
                    count == cur.len(),
                    cur.len() <= h,
                    guess_index(m, *bad) == h,
                    full == walk_order(m, *bad),
                    m.contains_key(commit),
                    ancestors(m, *bad).contains(commit),
                    *cats == m[commit],
                    cur.len() >= at_pop.len(),
                    scan(m, cats@, i as int, cur) == scan(m, cats@, 0, at_pop),
                    walk(m, scan(m, cats@, 0, at_pop), next) == full,
            {
                let temp = cats[i];
                if !results.contains(&temp) && parents.contains_key(&temp) {
                    proof {
                        assert(!cur.contains(temp));
                        lemma_push_unseen(m, cur, temp);
                        assert(is_parent(m, commit, temp));
                        let old_cur = cur;
                        cur = cur.push(temp);
                        assert(scan(m, cats@, i as int, old_cur) == scan(m, cats@, i + 1, cur));
                        assert forall|x: u64| old_cur.contains(x) implies cur.contains(x) by {
                            let k = choose|k: int| 0 <= k < old_cur.len() && old_cur[k] == x;
                            assert(cur[k] == x);
                        }
                        assert(cur[old_cur.len() as int] == temp);
                        assert(cur.subrange(next, cur.len() as int) =~= old_cur.subrange(
                            next,
                            old_cur.len() as int,
                        ).push(temp));
                    }
                    queue.push_back(temp);
                    results.insert(temp);
                    if count >= half {
                        proof {
                            let j = cur.len() - 1;
                            let grown = scan(m, cats@, 0, at_pop);
                            lemma_scan(m, cats@, i + 1, cur);
                            lemma_walk_prefix(m, grown, next);
                            assert(grown.subrange(0, cur.len() as int)[j] == grown[j]);
                            assert(full.subrange(0, grown.len() as int)[j] == full[j]);
                            assert(j == h);
                            assert(ancestors(m, *bad).contains(cur[j]));
                            assert(cur[0] != cur[j]);
                        }
                        return Some(temp);
                    }
                    count += 1;
                }
            }
            proof {
                assert(cur == scan(m, cats@, 0, at_pop));
            }
        } else {
            proof {
                assert(false);
            }
        }
    }
    proof {
        assert(walk(m, cur, next) == cur);
    }
    None
}

} // verus!
