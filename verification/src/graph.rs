//! The mathematical model of a repository: a map from each commit to the
//! list of its parents, what can be reached from a commit through that map,
//! and the breadth-first walk that the guessing strategy follows.
use vstd::prelude::*;

verus! {

broadcast use vstd::set::group_set_axioms;

/// `parent` is listed as a parent of `child`, and both are commits of the map.
pub open spec fn is_parent(m: Map<u64, Vec<u64>>, child: u64, parent: u64) -> bool {
    &&& m.contains_key(child)
    &&& m.contains_key(parent)
    &&& m[child]@.contains(parent)
}

/// `s` holds `a` and, with every commit of the map it holds, the parents of
/// that commit that are in the map.
pub open spec fn closed_from(m: Map<u64, Vec<u64>>, a: u64, s: Set<u64>) -> bool {
    &&& s.contains(a)
    &&& forall|x: u64, y: u64| #[trigger] s.contains(x) && #[trigger] is_parent(m, x, y) ==> s.contains(y)
}

/// `k` can be reached from `a` by following parent links through commits of
/// the map (`a` reaches itself): it lies in every set that is closed from `a`.
pub open spec fn reaches(m: Map<u64, Vec<u64>>, a: u64, k: u64) -> bool {
    &&& m.contains_key(a)
    &&& m.contains_key(k)
    &&& forall|s: Set<u64>| #![trigger closed_from(m, a, s)] closed_from(m, a, s) ==> s.contains(k)
}

/// The commits of the map that `a` reaches: `a` itself and its ancestors in the map.
pub open spec fn ancestors(m: Map<u64, Vec<u64>>, a: u64) -> Set<u64> {
    Set::new(|k: u64| reaches(m, a, k))
}

/// The map cut down to `a` and its ancestors.
pub open spec fn keep_ancestors(m: Map<u64, Vec<u64>>, a: u64) -> Map<u64, Vec<u64>> {
    m.restrict(ancestors(m, a))
}

/// The map without `a` and its ancestors.
pub open spec fn drop_ancestors(m: Map<u64, Vec<u64>>, a: u64) -> Map<u64, Vec<u64>> {
    m.remove_keys(ancestors(m, a))
}

/// Every commit of the map can be reached from `a`: the map is what is left
/// to search below the bad commit `a`.
pub open spec fn trimmed_to(m: Map<u64, Vec<u64>>, a: u64) -> bool {
    &&& m.contains_key(a)
    &&& m.dom() == ancestors(m, a)
}

/// No two distinct commits of the map reach each other.
pub open spec fn acyclic(m: Map<u64, Vec<u64>>) -> bool {
    forall|x: u64, y: u64| #[trigger] reaches(m, x, y) && #[trigger] reaches(m, y, x) ==> x == y
}

/// `ancestors` is closed from `a` when `a` is a commit of the map.
pub proof fn lemma_ancestors_closed(m: Map<u64, Vec<u64>>, a: u64)
    requires
        m.contains_key(a),
    ensures
        closed_from(m, a, ancestors(m, a)),
{
    assert forall|x: u64, y: u64|
        #[trigger] ancestors(m, a).contains(x) && #[trigger] is_parent(m, x, y) implies ancestors(
        m,
        a,
    ).contains(y) by {
        assert forall|s: Set<u64>| closed_from(m, a, s) implies s.contains(y) by {
            assert(s.contains(x));
        }
    }
}

/// `ancestors` is the least set closed from `a`.
pub proof fn lemma_ancestors_least(m: Map<u64, Vec<u64>>, a: u64, s: Set<u64>)
    requires
        closed_from(m, a, s),
    ensures
        ancestors(m, a).subset_of(s),
{
}

/// A walk order as the guessing strategy builds it: the commits of the
/// parent list `ps` from index `i` on are taken in turn, and each one that is
/// in the map and not yet in `order` is appended to it.
pub open spec fn scan(m: Map<u64, Vec<u64>>, ps: Seq<u64>, i: int, order: Seq<u64>) -> Seq<u64>
    decreases ps.len() - i,
{
    if i < 0 || i >= ps.len() {
        order
    } else {
        let p = ps[i];
        let next = if m.contains_key(p) && !order.contains(p) {
            order.push(p)
        } else {
            order
        };
        scan(m, ps, i + 1, next)
    }
}

/// The number of commits of the map that `order` does not hold, plus its length.
pub open spec fn walk_size(m: Map<u64, Vec<u64>>, order: Seq<u64>) -> int {
    ((m.dom() - order.to_set()).len() + order.len()) as int
}

/// Appending a commit of the map that `order` does not hold keeps `walk_size`.
pub proof fn lemma_push_unseen(m: Map<u64, Vec<u64>>, order: Seq<u64>, p: u64)
    requires
        m.dom().finite(),
        m.contains_key(p),
        !order.contains(p),
    ensures
        order.push(p).to_set() == order.to_set().insert(p),
        walk_size(m, order.push(p)) == walk_size(m, order),
{
    assert forall|x: u64| order.push(p).to_set().contains(x) <==> order.to_set().insert(p).contains(
        x,
    ) by {
        if order.push(p).contains(x) {
            let j = choose|j: int| 0 <= j < order.push(p).len() && order.push(p)[j] == x;
            if j < order.len() {
                assert(order.contains(x));
            }
        }
        if order.contains(x) {
            let j = choose|j: int| 0 <= j < order.len() && order[j] == x;
            assert(order.push(p)[j] == x);
        }
        if x == p {
            assert(order.push(p)[order.len() as int] == p);
        }
    }
    assert(order.push(p).to_set() =~= order.to_set().insert(p));
    assert((m.dom() - order.push(p).to_set()) =~= (m.dom() - order.to_set()).remove(p));
}

/// What `scan` appends: commits of the map from `ps[i..]`, none of them
/// already in `order`, without repeats, and every commit of the map in
/// `ps[i..]` ends up in the result.
pub proof fn lemma_scan(m: Map<u64, Vec<u64>>, ps: Seq<u64>, i: int, order: Seq<u64>)
    requires
        m.dom().finite(),
        0 <= i,
    ensures
        scan(m, ps, i, order).len() >= order.len(),
        scan(m, ps, i, order).subrange(0, order.len() as int) == order,
        forall|j: int|
            order.len() <= j < scan(m, ps, i, order).len() ==> {
                let x = #[trigger] scan(m, ps, i, order)[j];
                &&& m.contains_key(x)
                &&& !order.contains(x)
                &&& exists|k: int| i <= k < ps.len() && ps[k] == x
            },
        forall|j: int|
            i <= j < ps.len() && m.contains_key(#[trigger] ps[j]) ==> scan(
                m,
                ps,
                i,
                order,
            ).contains(ps[j]),
        forall|x: u64| order.contains(x) ==> scan(m, ps, i, order).contains(x),
        order.no_duplicates() ==> scan(m, ps, i, order).no_duplicates(),
        walk_size(m, scan(m, ps, i, order)) == walk_size(m, order),
    decreases ps.len() - i,
{
    let r = scan(m, ps, i, order);
    if i >= ps.len() {
        assert(order.subrange(0, order.len() as int) =~= order);
    } else {
        let p = ps[i];
        let next = if m.contains_key(p) && !order.contains(p) {
            order.push(p)
        } else {
            order
        };
        lemma_scan(m, ps, i + 1, next);
        assert(r == scan(m, ps, i + 1, next));
        if m.contains_key(p) && !order.contains(p) {
            lemma_push_unseen(m, order, p);
            assert(next[order.len() as int] == p);
            assert(r.subrange(0, next.len() as int)[order.len() as int] == r[order.len() as int]);
            assert(r[order.len() as int] == p);
            assert(r.subrange(0, order.len() as int) =~= order) by {
                assert forall|k: int| 0 <= k < order.len() implies r.subrange(
                    0,
                    order.len() as int,
                )[k] == order[k] by {
                    assert(r.subrange(0, next.len() as int)[k] == next[k]);
                }
            }
            assert forall|j: int| order.len() <= j < r.len() implies {
                let x = #[trigger] r[j];
                &&& m.contains_key(x)
                &&& !order.contains(x)
                &&& exists|k: int| i <= k < ps.len() && ps[k] == x
            } by {
                if j > order.len() {
                    let x = r[j];
                    assert(m.contains_key(x) && !next.contains(x));
                    if order.contains(x) {
                        let k = choose|k: int| 0 <= k < order.len() && order[k] == x;
                        assert(next[k] == x);
                    }
                }
            }
            assert forall|x: u64| order.contains(x) implies r.contains(x) by {
                let k = choose|k: int| 0 <= k < order.len() && order[k] == x;
                assert(next[k] == x);
            }
            assert(next.contains(p));
            if order.no_duplicates() {
                assert(next.no_duplicates());
            }
        } else {
            assert forall|j: int| order.len() <= j < r.len() implies {
                let x = #[trigger] r[j];
                &&& m.contains_key(x)
                &&& !order.contains(x)
                &&& exists|k: int| i <= k < ps.len() && ps[k] == x
            } by {
                let x = r[j];
                assert(m.contains_key(x));
            }
            if m.contains_key(p) {
                assert(order.contains(p));
            }
        }
    }
}

/// The breadth-first walk: commits `order[..next]` have been taken from the
/// queue, `order[next..]` wait in it; each commit taken appends its unseen
/// parents (in the order of its parent list).
pub open spec fn walk(m: Map<u64, Vec<u64>>, order: Seq<u64>, next: int) -> Seq<u64>
    decreases (m.dom() - order.to_set()).len(), order.len() - next,
    when m.dom().finite()
{
    if next < 0 || next >= order.len() {
        order
    } else {
        let grown = scan(m, m[order[next]]@, 0, order);
        proof {
            lemma_scan(m, m[order[next]]@, 0, order);
            if grown.len() == order.len() {
                assert(grown =~= order);
            }
        }
        walk(m, grown, next + 1)
    }
}

/// The commits of the map in the order in which a breadth-first walk of
/// parent links from `a` meets them, `a` first.
pub open spec fn walk_order(m: Map<u64, Vec<u64>>, a: u64) -> Seq<u64> {
    walk(m, seq![a], 0)
}

/// The walk order once the parents of `a` have been taken: `a` and its
/// parents in the map, in order, without repeats.
pub open spec fn first_layer(m: Map<u64, Vec<u64>>, a: u64) -> Seq<u64> {
    scan(m, m[a]@, 0, seq![a])
}

/// Half the number of commits of the map, rounded up.
pub open spec fn half_way(m: Map<u64, Vec<u64>>) -> int {
    ((m.dom().len() + 1) / 2) as int
}

/// The position in the walk order of the commit that is asked about next.
/// Among the parents of `a` a commit is chosen once, counting `a`, as many as
/// `half_way` commits have been met; further out once `half_way` commits had
/// been met before it.
pub open spec fn guess_index(m: Map<u64, Vec<u64>>, a: u64) -> int {
    let h = half_way(m);
    let early = if h - 1 < 1 {
        1
    } else {
        h - 1
    };
    if early < first_layer(m, a).len() {
        early
    } else {
        h
    }
}

/// The commit to ask about next below the bad commit `a`, if the walk meets
/// enough commits.
pub open spec fn next_guess(m: Map<u64, Vec<u64>>, a: u64) -> Option<u64> {
    let order = walk_order(m, a);
    let i = guess_index(m, a);
    if 0 <= i < order.len() {
        Some(order[i])
    } else {
        None
    }
}

/// `walk` only appends to `order`.
pub proof fn lemma_walk_prefix(m: Map<u64, Vec<u64>>, order: Seq<u64>, next: int)
    requires
        m.dom().finite(),
    ensures
        walk(m, order, next).len() >= order.len(),
        walk(m, order, next).subrange(0, order.len() as int) == order,
    decreases (m.dom() - order.to_set()).len(), order.len() - next,
{
    if next < 0 || next >= order.len() {
        assert(order.subrange(0, order.len() as int) =~= order);
    } else {
        let grown = scan(m, m[order[next]]@, 0, order);
        lemma_scan(m, m[order[next]]@, 0, order);
        if grown.len() == order.len() {
            assert(grown =~= order);
        }
        lemma_walk_prefix(m, grown, next + 1);
        let w = walk(m, grown, next + 1);
        assert(w == walk(m, order, next));
        assert(w.subrange(0, order.len() as int) =~= order) by {
            assert forall|k: int| 0 <= k < order.len() implies w.subrange(0, order.len() as int)[k]
                == order[k] by {
                assert(w.subrange(0, grown.len() as int)[k] == grown[k]);
                assert(grown.subrange(0, order.len() as int)[k] == order[k]);
            }
        }
    }
}

/// The walk from `a` meets exactly the commits that `a` reaches, each once.
pub proof fn lemma_walk_covers(m: Map<u64, Vec<u64>>, a: u64, order: Seq<u64>, next: int)
    requires
        m.dom().finite(),
        m.contains_key(a),
        order.len() >= 1,
        order[0] == a,
        order.no_duplicates(),
        forall|k: int| 0 <= k < order.len() ==> ancestors(m, a).contains(#[trigger] order[k]),
        0 <= next <= order.len(),
        forall|k: int, y: u64|
            0 <= k < next && #[trigger] is_parent(m, order[k], y) ==> order.contains(y),
    ensures
        walk(m, order, next).to_set() == ancestors(m, a),
        walk(m, order, next).no_duplicates(),
        walk(m, order, next)[0] == a,
    decreases (m.dom() - order.to_set()).len(), order.len() - next,
{
    lemma_ancestors_closed(m, a);
    if next >= order.len() {
        assert(closed_from(m, a, order.to_set())) by {
            assert(order.contains(order[0]));
            assert forall|x: u64, y: u64|
                #[trigger] order.to_set().contains(x) && #[trigger] is_parent(m, x, y) implies order.to_set().contains(
                y,
            ) by {
                let k = choose|k: int| 0 <= k < order.len() && order[k] == x;
                assert(is_parent(m, order[k], y));
            }
        }
        lemma_ancestors_least(m, a, order.to_set());
        assert(order.to_set() =~= ancestors(m, a));
    } else {
        let ps = m[order[next]]@;
        let grown = scan(m, ps, 0, order);
        lemma_scan(m, ps, 0, order);
        if grown.len() == order.len() {
            assert(grown =~= order);
        }
        assert(grown[0] == a) by {
            assert(grown.subrange(0, order.len() as int)[0] == grown[0]);
        }
        assert forall|k: int| 0 <= k < grown.len() implies ancestors(m, a).contains(
            #[trigger] grown[k],
        ) by {
            if k < order.len() {
                assert(grown.subrange(0, order.len() as int)[k] == grown[k]);
            } else {
                let x = grown[k];
                let i = choose|i: int| 0 <= i < ps.len() && ps[i] == x;
                assert(is_parent(m, order[next], x));
            }
        }
        assert forall|k: int, y: u64|
            0 <= k < next + 1 && #[trigger] is_parent(m, grown[k], y) implies grown.contains(y) by {
            assert(grown.subrange(0, order.len() as int)[k] == grown[k]);
            if k == next {
                let i = choose|i: int| 0 <= i < ps.len() && ps[i] == y;
                assert(m.contains_key(ps[i]));
            } else {
                assert(order.contains(y));
            }
        }
        lemma_walk_covers(m, a, grown, next + 1);
    }
}

/// `walk_order` meets exactly the commits that `a` reaches, each once, `a` first.
pub proof fn lemma_walk_order_covers(m: Map<u64, Vec<u64>>, a: u64)
    requires
        m.dom().finite(),
        m.contains_key(a),
    ensures
        walk_order(m, a).to_set() == ancestors(m, a),
        walk_order(m, a).no_duplicates(),
        walk_order(m, a)[0] == a,
{
    lemma_ancestors_closed(m, a);
    let start = seq![a];
    assert(start[0] == a);
    assert(ancestors(m, a).contains(a));
    lemma_walk_covers(m, a, start, 0);
}

} // verus!
