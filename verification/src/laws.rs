//! What holds of the trimming steps and of the guess, across calls: the
//! candidate commits stay exactly what the bad commit reaches, an answer
//! never loses the first bad commit, and every answer removes a commit.
use vstd::prelude::*;

use crate::client::{answer_step, instance_step, settles, ClientError, ClientState, Reply, QUESTION_LIMIT};
use crate::json_types::{JsonAnswer, JsonNode};
use crate::score::{tally, ScoreOutcome};
use crate::visualise_dag::{dag_edges, dot_text, node_edges};
use crate::graph::{
    acyclic, ancestors, closed_from, drop_ancestors, first_layer, guess_index, half_way, is_parent,
    keep_ancestors, lemma_ancestors_closed, lemma_ancestors_least, lemma_walk_order_covers,
    lemma_walk_prefix, next_guess, reaches, trimmed_to, walk, walk_order,
};

verus! {

broadcast use vstd::set::group_set_axioms;

/// Keeping the bad commit `b` and its ancestors leaves a map in which `b`
/// reaches every commit: a "bad" answer (or the first trimming below the bad
/// commit of an instance) leaves exactly the candidates below it.
pub proof fn law_keep_ancestors_trims(m: Map<u64, Vec<u64>>, b: u64)
    requires
        m.contains_key(b),
    ensures
        trimmed_to(keep_ancestors(m, b), b),
{
    let a = ancestors(m, b);
    let k = keep_ancestors(m, b);
    lemma_ancestors_closed(m, b);
    assert(k.dom() =~= a);
    assert forall|x: u64| a.contains(x) implies reaches(k, b, x) by {
        assert forall|s: Set<u64>| closed_from(k, b, s) implies s.contains(x) by {
            let t = s.intersect(a);
            assert forall|p: u64, q: u64|
                #[trigger] t.contains(p) && #[trigger] is_parent(m, p, q) implies t.contains(q) by {
                assert(a.contains(q));
                assert(is_parent(k, p, q));
            }
            assert(closed_from(m, b, t));
            lemma_ancestors_least(m, b, t);
        }
    }
    assert(ancestors(k, b) =~= k.dom());
}

/// After a "good" answer for a commit `g` that does not reach the bad commit
/// `b`, the bad commit still reaches every commit that is left.
pub proof fn law_good_answer_keeps_trimmed(m: Map<u64, Vec<u64>>, b: u64, g: u64)
    requires
        trimmed_to(m, b),
        m.contains_key(g),
        !reaches(m, g, b),
    ensures
        trimmed_to(drop_ancestors(m, g), b),
{
    let ag = ancestors(m, g);
    let ab = ancestors(m, b);
    let d = drop_ancestors(m, g);
    lemma_ancestors_closed(m, g);
    assert(!ag.contains(b));
    assert forall|x: u64| d.contains_key(x) implies reaches(d, b, x) by {
        assert forall|s: Set<u64>| closed_from(d, b, s) implies s.contains(x) by {
            let t = s.union(ag);
            assert forall|p: u64, q: u64|
                #[trigger] t.contains(p) && #[trigger] is_parent(m, p, q) implies t.contains(q) by {
                if !ag.contains(q) {
                    if ag.contains(p) {
                        assert(ag.contains(q));
                    } else {
                        assert(is_parent(d, p, q));
                    }
                }
            }
            assert(closed_from(m, b, t));
            lemma_ancestors_least(m, b, t);
            assert(ab.contains(x));
        }
    }
    assert(ancestors(d, b) =~= d.dom());
}

/// Reaching in a part of the map (same parent lists, fewer commits) implies
/// reaching in the whole map.
pub proof fn law_reaches_in_part(m: Map<u64, Vec<u64>>, part: Map<u64, Vec<u64>>, x: u64, y: u64)
    requires
        part.submap_of(m),
        reaches(part, x, y),
    ensures
        reaches(m, x, y),
{
    assert forall|s: Set<u64>| closed_from(m, x, s) implies s.contains(y) by {
        let t = s.intersect(part.dom());
        assert forall|p: u64, q: u64|
            #[trigger] t.contains(p) && #[trigger] is_parent(part, p, q) implies t.contains(q) by {
            assert(is_parent(m, p, q));
        }
        assert(closed_from(part, x, t));
    }
}

/// A part of an acyclic map (same parent lists, fewer commits) is acyclic:
/// trimming never creates a cycle.
pub proof fn law_part_acyclic(m: Map<u64, Vec<u64>>, part: Map<u64, Vec<u64>>)
    requires
        part.submap_of(m),
        acyclic(m),
    ensures
        acyclic(part),
{
    assert forall|x: u64, y: u64| #[trigger] reaches(part, x, y) && #[trigger] reaches(part, y, x) implies x
        == y by {
        law_reaches_in_part(m, part, x, y);
        law_reaches_in_part(m, part, y, x);
    }
}

/// On a map trimmed below the bad commit `b` with at least two commits, a
/// guess exists; it is a commit of the map other than `b`, and `b` reaches it.
pub proof fn law_guess_exists(m: Map<u64, Vec<u64>>, b: u64)
    requires
        m.dom().finite(),
        trimmed_to(m, b),
        m.dom().len() >= 2,
    ensures
        next_guess(m, b) is Some,
        next_guess(m, b) matches Some(g) ==> g != b && m.contains_key(g) && reaches(m, b, g),
{
    let full = walk_order(m, b);
    let layer = first_layer(m, b);
    lemma_walk_order_covers(m, b);
    full.unique_seq_to_set();
    assert(full.len() == m.dom().len());
    assert(full == walk(m, layer, 1));
    lemma_walk_prefix(m, layer, 1);
    let i = guess_index(m, b);
    let h = half_way(m);
    assert(1 <= i < full.len());
    assert(full.to_set().contains(full[i]));
    assert(full[0] != full[i]);
}

/// With no cycles, a guess `g` below the bad commit `b` (other than `b`) does
/// not reach `b`, and either answer removes at least one commit: "bad" keeps
/// `g` and its ancestors, which leave `b` out; "good" removes `g`.
pub proof fn law_answer_shrinks(m: Map<u64, Vec<u64>>, b: u64, g: u64)
    requires
        m.dom().finite(),
        trimmed_to(m, b),
        acyclic(m),
        g != b,
        reaches(m, b, g),
    ensures
        !reaches(m, g, b),
        keep_ancestors(m, g).dom().len() < m.dom().len(),
        drop_ancestors(m, g).dom().len() < m.dom().len(),
        keep_ancestors(m, g).contains_key(g),
        drop_ancestors(m, g).contains_key(b),
{
    lemma_ancestors_closed(m, g);
    let ag = ancestors(m, g);
    assert(!ag.contains(b));
    let kept = keep_ancestors(m, g).dom();
    let dropped = drop_ancestors(m, g).dom();
    assert(kept.subset_of(m.dom().remove(b)));
    vstd::set_lib::lemma_len_subset(kept, m.dom().remove(b));
    assert(dropped.subset_of(m.dom().remove(g)));
    vstd::set_lib::lemma_len_subset(dropped, m.dom().remove(g));
}

/// The first bad commit `c` is never lost: if the guess `g` reaches `c` (so
/// the true answer is "bad"), keeping the ancestors of `g` keeps `c`;
/// otherwise (the true answer is "good") dropping them keeps `c`.
pub proof fn law_answer_keeps_culprit(m: Map<u64, Vec<u64>>, g: u64, c: u64)
    requires
        m.contains_key(g),
        m.contains_key(c),
    ensures
        reaches(m, g, c) ==> keep_ancestors(m, g).contains_key(c),
        !reaches(m, g, c) ==> drop_ancestors(m, g).contains_key(c),
{
}

/// When a single candidate is left below the bad commit `b`, it is `b`: the
/// answer that the client gives.
pub proof fn law_single_candidate(m: Map<u64, Vec<u64>>, b: u64)
    requires
        m.dom().finite(),
        trimmed_to(m, b),
        m.dom().len() == 1,
    ensures
        m.dom() == set![b],
{
    assert(m.dom().remove(b).len() == 0);
    assert(m.dom().remove(b) =~= Set::<u64>::empty());
    assert(m.dom() =~= set![b]);
}

/// Trimming below `b` a second time changes nothing.
pub proof fn law_keep_ancestors_idempotent(m: Map<u64, Vec<u64>>, b: u64)
    requires
        m.contains_key(b),
    ensures
        keep_ancestors(keep_ancestors(m, b), b) == keep_ancestors(m, b),
{
    law_keep_ancestors_trims(m, b);
    let k = keep_ancestors(m, b);
    assert(keep_ancestors(k, b) =~= k);
}

/// Once the candidates are trimmed below `b` (and `b` is one of them), the
/// client's reply is never an error: it is the solution `b` when `b` is the
/// only candidate, else a question about a candidate other than `b`.
pub proof fn law_settle_on_trimmed(
    names: Seq<Seq<char>>,
    c: Map<u64, Vec<u64>>,
    b: u64,
    question: Option<u64>,
    questions: int,
    asked: int,
    r: Result<Reply, ClientError>,
    post: ClientState,
)
    requires
        c.dom().finite(),
        trimmed_to(c, b),
        settles(names, c, Some(b), question, questions, asked, r, post),
    ensures
        r is Ok,
        c.dom().len() == 1 ==> (c.dom() == set![b] && r matches Ok(Reply::Solution(_))),
        c.dom().len() != 1 ==> (r matches Ok(Reply::Question(_))),
        c.dom().len() != 1 ==> (post.question matches Some(g) && g != b && c.contains_key(g)
            && reaches(c, b, g)),
{
    if c.dom().len() == 1 {
        law_single_candidate(c, b);
    } else {
        assert(c.dom().contains(b));
        assert(c.dom().len() >= 1);
        law_guess_exists(c, b);
    }
}

/// An instance whose good and bad commits are known, and whose bad commit
/// is not an ancestor of its good one, is answered: the candidates are
/// exactly what the bad commit reaches once the good commit and its
/// ancestors are gone, and the reply is the solution or a question about
/// one of them.
pub proof fn law_instance_answered(
    pre: ClientState,
    good: Seq<char>,
    bad: Seq<char>,
    r: Result<Reply, ClientError>,
    post: ClientState,
)
    requires
        pre.repository.dom().finite(),
        instance_step(pre, good, bad, r, post),
        r != Err::<Reply, ClientError>(ClientError::GoodNotFound),
        r != Err::<Reply, ClientError>(ClientError::BadNotFound),
    ensures
        r is Ok,
        (post.bad matches Some(b) && trimmed_to(post.candidates, b)),
        r matches Ok(Reply::Question(_)) ==> (post.question matches Some(q)
            && post.candidates.contains_key(q) && Some(q) != post.bad),
{
    let b = post.bad->0;
    let g = crate::client::name_id(pre.names, good)->0;
    let d = drop_ancestors(pre.repository, g);
    assert(d.dom().finite()) by {
        assert(d.dom().subset_of(pre.repository.dom()));
        vstd::set_lib::lemma_len_subset(d.dom(), pre.repository.dom());
    }
    law_keep_ancestors_trims(d, b);
    let c = keep_ancestors(d, b);
    assert(c.dom().finite()) by {
        assert(c.dom().subset_of(d.dom()));
        vstd::set_lib::lemma_len_subset(c.dom(), d.dom());
    }
    law_settle_on_trimmed(pre.names, c, b, None, 0, 0, r, post);
}

/// A truthful answer about a question asked below the bad commit of an
/// acyclic repository never fails and never loses the first bad commit:
/// if `culprit` is a candidate and the answer is "Bad" exactly when the
/// commit asked about reaches `culprit`, then `culprit` stays a candidate,
/// the candidates are again exactly what the (possibly new) bad commit
/// reaches, there are fewer of them, and the reply is the solution or the
/// next question.
pub proof fn law_answer_progress(
    pre: ClientState,
    a: JsonAnswer,
    culprit: u64,
    r: Result<Reply, ClientError>,
    post: ClientState,
)
    requires
        pre.candidates.dom().finite(),
        pre.questions < QUESTION_LIMIT,
        pre.candidates.dom().len() != 1,
        (pre.bad matches Some(b) && trimmed_to(pre.candidates, b)),
        (pre.question matches Some(q) && pre.candidates.contains_key(q) && Some(q) != pre.bad),
        acyclic(pre.candidates),
        pre.candidates.contains_key(culprit),
        (a.Answer@ == "Bad"@) == reaches(pre.candidates, pre.question->0, culprit),
        answer_step(pre, Some(a), r, post),
    ensures
        r is Ok,
        post.candidates.contains_key(culprit),
        (post.bad matches Some(b) && trimmed_to(post.candidates, b)),
        post.candidates.dom().len() < pre.candidates.dom().len(),
        acyclic(post.candidates),
        r matches Ok(Reply::Question(_)) ==> (post.question matches Some(q)
            && post.candidates.contains_key(q) && Some(q) != post.bad),
{
    let m = pre.candidates;
    let b = pre.bad->0;
    let q = pre.question->0;
    assert(reaches(m, b, q)) by {
        assert(ancestors(m, b).contains(q));
    }
    law_answer_shrinks(m, b, q);
    law_answer_keeps_culprit(m, q, culprit);
    let c = post.candidates;
    let nb = post.bad->0;
    if a.Answer@ == "Bad"@ {
        law_keep_ancestors_trims(m, q);
        assert(c.submap_of(m));
    } else {
        law_good_answer_keeps_trimmed(m, b, q);
        assert(c.submap_of(m));
    }
    law_part_acyclic(m, c);
    assert(c.dom().finite()) by {
        assert(c.dom().subset_of(m.dom()));
        vstd::set_lib::lemma_len_subset(c.dom(), m.dom());
    }
    law_settle_on_trimmed(
        pre.names,
        c,
        nb,
        pre.question,
        pre.questions,
        pre.questions + 1,
        r,
        post,
    );
}

/// On candidates trimmed below `b`, with `n >= 2` of them, the guess lies
/// half-way down the breadth-first walk from `b`: it is the commit met at
/// position `ceil(n / 2)` (counting `b` as position 0), or at position
/// `ceil(n / 2) - 1` when that position is still among the parents of `b`
/// themselves. The walk meets every candidate exactly once.
pub proof fn law_guess_half_way(m: Map<u64, Vec<u64>>, b: u64)
    requires
        m.dom().finite(),
        trimmed_to(m, b),
        m.dom().len() >= 2,
    ensures
        walk_order(m, b).len() == m.dom().len(),
        walk_order(m, b).no_duplicates(),
        walk_order(m, b).to_set() == m.dom(),
        exists|i: int|
            #![trigger walk_order(m, b)[i]]
            1 <= i < m.dom().len() && next_guess(m, b) == Some(walk_order(m, b)[i]) && (i == (
            m.dom().len() + 1) / 2 || (i == (m.dom().len() + 1) / 2 - 1 && i < first_layer(m, b).len())),
{
    let full = walk_order(m, b);
    let layer = first_layer(m, b);
    lemma_walk_order_covers(m, b);
    full.unique_seq_to_set();
    law_guess_exists(m, b);
    let i = guess_index(m, b);
    assert(full == walk(m, layer, 1));
    lemma_walk_prefix(m, layer, 1);
    assert(1 <= i < full.len());
    assert(next_guess(m, b) == Some(full[i]));
}

/// The score totals add up over concatenation: the totals of `s + t` are
/// those of `s` plus those of `t`.
pub proof fn law_tally_append(s: Seq<ScoreOutcome>, t: Seq<ScoreOutcome>)
    ensures
        tally(s + t).0 == tally(s).0 + tally(t).0,
        tally(s + t).1 == tally(s).1 + tally(t).1,
        tally(s + t).2 == tally(s).2 + tally(t).2,
    decreases t.len(),
{
    if t.len() == 0 {
        assert(s + t =~= s);
    } else {
        law_tally_append(s, t.drop_last());
        assert((s + t).drop_last() =~= s + t.drop_last());
        assert((s + t).last() == t.last());
    }
}

/// A single outcome counts once, in its own kind: a solved instance gives
/// `(1, 0, 0)`, a wrong one `(0, 1, 0)`, a given-up one `(0, 0, 1)`, any other
/// `(0, 0, 0)`.
pub proof fn law_tally_single(o: ScoreOutcome)
    ensures
        tally(seq![o]) == match o {
            ScoreOutcome::Correct(_) => (1nat, 0nat, 0nat),
            ScoreOutcome::Wrong => (0nat, 1nat, 0nat),
            ScoreOutcome::GiveUp => (0nat, 0nat, 1nat),
            ScoreOutcome::Other(_) => (0nat, 0nat, 0nat),
        },
{
    let e = Seq::<ScoreOutcome>::empty();
    assert(seq![o].drop_last() =~= e);
    assert(tally(e) == (0nat, 0nat, 0nat));
    assert(seq![o].last() == o);
}

/// Appending one outcome raises the count of its kind by one and leaves the
/// others.
pub proof fn law_tally_push(s: Seq<ScoreOutcome>, o: ScoreOutcome)
    ensures
        tally(s.push(o)).0 == tally(s).0 + (if o is Correct { 1nat } else { 0nat }),
        tally(s.push(o)).1 == tally(s).1 + (if o is Wrong { 1nat } else { 0nat }),
        tally(s.push(o)).2 == tally(s).2 + (if o is GiveUp { 1nat } else { 0nat }),
{
    law_tally_append(s, seq![o]);
    law_tally_single(o);
    assert(s + seq![o] =~= s.push(o));
}

/// The arrow lines of the parents `ps1 + ps2` are those of `ps1` followed by
/// those of `ps2`.
pub proof fn law_node_edges_append(c: Seq<char>, ps1: Seq<String>, ps2: Seq<String>)
    ensures
        node_edges(c, ps1 + ps2) == node_edges(c, ps1) + node_edges(c, ps2),
    decreases ps2.len(),
{
    if ps2.len() == 0 {
        assert(ps1 + ps2 =~= ps1);
        assert(node_edges(c, ps2) =~= Seq::<char>::empty());
        assert(node_edges(c, ps1) + node_edges(c, ps2) =~= node_edges(c, ps1));
    } else {
        law_node_edges_append(c, ps1, ps2.drop_last());
        assert((ps1 + ps2).drop_last() =~= ps1 + ps2.drop_last());
        assert((ps1 + ps2).last() == ps2.last());
        let line = c + " -> "@ + ps2.last()@ + "\n"@;
        assert(node_edges(c, ps1 + ps2) =~= node_edges(c, ps1) + node_edges(c, ps2.drop_last())
            + line);
        assert(node_edges(c, ps2) =~= node_edges(c, ps2.drop_last()) + line);
    }
}

/// A single parent `p` of `c` gives the single line "c -> p".
pub proof fn law_node_edges_single(c: Seq<char>, p: String)
    ensures
        node_edges(c, seq![p]) == c + " -> "@ + p@ + "\n"@,
{
    let e = Seq::<String>::empty();
    assert(seq![p].drop_last() =~= e);
    assert(node_edges(c, e) == Seq::<char>::empty());
    assert(seq![p].last() == p);
    assert(node_edges(c, seq![p]) == node_edges(c, e) + c + " -> "@ + p@ + "\n"@);
    assert(node_edges(c, seq![p]) =~= c + " -> "@ + p@ + "\n"@);
}

/// The arrow lines of the nodes `d1 + d2` are those of `d1` followed by those
/// of `d2`.
pub proof fn law_dag_edges_append(d1: Seq<JsonNode>, d2: Seq<JsonNode>)
    ensures
        dag_edges(d1 + d2) == dag_edges(d1) + dag_edges(d2),
    decreases d2.len(),
{
    if d2.len() == 0 {
        assert(d1 + d2 =~= d1);
        assert(dag_edges(d1) + dag_edges(d2) =~= dag_edges(d1));
    } else {
        law_dag_edges_append(d1, d2.drop_last());
        assert((d1 + d2).drop_last() =~= d1 + d2.drop_last());
        assert((d1 + d2).last() == d2.last());
        let last = node_edges(d2.last().commit@, d2.last().parents@);
        assert(dag_edges(d1 + d2) =~= dag_edges(d1) + dag_edges(d2.drop_last()) + last);
        assert(dag_edges(d2) =~= dag_edges(d2.drop_last()) + last);
    }
}

/// A single node gives the arrow lines of its own parents.
pub proof fn law_dag_edges_single(n: JsonNode)
    ensures
        dag_edges(seq![n]) == node_edges(n.commit@, n.parents@),
{
    let e = Seq::<JsonNode>::empty();
    assert(seq![n].drop_last() =~= e);
    assert(dag_edges(e) == Seq::<char>::empty());
    assert(seq![n].last() == n);
    assert(dag_edges(seq![n]) == dag_edges(e) + node_edges(n.commit@, n.parents@));
    assert(dag_edges(seq![n]) =~= node_edges(n.commit@, n.parents@));
}

/// Regrouping a line inside a longer concatenation.
proof fn lemma_regroup(x: Seq<char>, pre: Seq<char>, l: Seq<char>, suf: Seq<char>, y: Seq<char>)
    ensures
        x + (pre + l + suf) + y == (x + pre) + l + (suf + y),
{
    assert(x + (pre + l + suf) + y =~= (x + pre) + l + (suf + y));
}

/// The line "c -> ps[j]" stands inside the arrow lines of `c`.
proof fn lemma_line_in_node(c: Seq<char>, ps: Seq<String>, j: int) -> (r: (Seq<char>, Seq<char>))
    requires
        0 <= j < ps.len(),
    ensures
        node_edges(c, ps) == r.0 + (c + " -> "@ + ps[j]@ + "\n"@) + r.1,
{
    let p1 = ps.subrange(0, j);
    let p3 = ps.subrange(j + 1, ps.len() as int);
    assert(ps =~= p1 + seq![ps[j]] + p3);
    law_node_edges_append(c, p1 + seq![ps[j]], p3);
    law_node_edges_append(c, p1, seq![ps[j]]);
    law_node_edges_single(c, ps[j]);
    (node_edges(c, p1), node_edges(c, p3))
}

/// The arrow lines of node `dag[i]` stand inside those of `dag`.
proof fn lemma_node_in_dag(dag: Seq<JsonNode>, i: int) -> (r: (Seq<char>, Seq<char>))
    requires
        0 <= i < dag.len(),
    ensures
        dag_edges(dag) == r.0 + node_edges(dag[i].commit@, dag[i].parents@) + r.1,
{
    let n = dag[i];
    let d1 = dag.subrange(0, i);
    let d3 = dag.subrange(i + 1, dag.len() as int);
    assert(dag =~= d1 + seq![n] + d3);
    law_dag_edges_append(d1 + seq![n], d3);
    law_dag_edges_append(d1, seq![n]);
    law_dag_edges_single(n);
    (dag_edges(d1), dag_edges(d3))
}

/// The picture draws every parent link: for each node and each of its
/// parents `p`, the text holds the line "node -> p".
pub proof fn law_dot_has_every_link(
    dag: Seq<JsonNode>,
    good: Seq<char>,
    bad: Seq<char>,
    i: int,
    j: int,
)
    requires
        0 <= i < dag.len(),
        0 <= j < dag[i].parents@.len(),
    ensures
        ({
            let line = dag[i].commit@ + " -> "@ + dag[i].parents@[j]@ + "\n"@;
            let text = dot_text(dag, good, bad);
            exists|k: int|
                0 <= k && k + line.len() <= text.len() && #[trigger] text.subrange(k, k + line.len())
                    == line
        }),
{
    let n = dag[i];
    let line = n.commit@ + " -> "@ + n.parents@[j]@ + "\n"@;
    let (n1, n3) = lemma_line_in_node(n.commit@, n.parents@, j);
    let (e1, e3) = lemma_node_in_dag(dag, i);
    let head = "digraph G {\n"@ + "node [shape = doublecircle, color=red]; "@ + bad + "\n"@
        + "node [shape = doublecircle, color=green]; "@ + good + "\n"@
        + "node [shape = circle, color=black];\n"@;
    let close = "}"@;
    let text = dot_text(dag, good, bad);
    assert(text == head + dag_edges(dag) + close);
    lemma_regroup(e1, n1, line, n3, e3);
    let a = e1 + n1;
    let b = n3 + e3;
    assert(dag_edges(dag) == a + line + b);
    lemma_regroup(head, a, line, b, close);
    let pre = head + a;
    assert(text == pre + line + (b + close));
    assert(text.subrange(pre.len() as int, (pre.len() + line.len()) as int) =~= line);
}

/// Handling an instance leaves the repository and the names as they are,
/// and its candidates are computed from the whole repository: the good
/// commit and its ancestors dropped, then cut down to the bad commit and its
/// ancestors.
pub proof fn law_instance_keeps_repository(
    pre: ClientState,
    good: Seq<char>,
    bad: Seq<char>,
    r: Result<Reply, ClientError>,
    post: ClientState,
)
    requires
        instance_step(pre, good, bad, r, post),
        r is Ok,
    ensures
        post.repository == pre.repository,
        post.names == pre.names,
        ({
            let g = crate::client::name_id(pre.names, good);
            let b = crate::client::name_id(pre.names, bad);
            &&& g is Some && b is Some
            &&& post.candidates == keep_ancestors(drop_ancestors(pre.repository, g->0), b->0)
        }),
{
}

/// Handling an answer leaves the repository and the names as they are.
pub proof fn law_answer_keeps_repository(
    pre: ClientState,
    a: Option<JsonAnswer>,
    r: Result<Reply, ClientError>,
    post: ClientState,
)
    requires
        answer_step(pre, a, r, post),
        r is Ok,
    ensures
        post.repository == pre.repository,
        post.names == pre.names,
{
}

/// Two instances in a row on the same repository are independent: the
/// candidates of the second are computed from the whole repository, whatever
/// the first one left.
pub proof fn law_instances_independent(
    pre: ClientState,
    good1: Seq<char>,
    bad1: Seq<char>,
    r1: Result<Reply, ClientError>,
    mid: ClientState,
    good2: Seq<char>,
    bad2: Seq<char>,
    r2: Result<Reply, ClientError>,
    post: ClientState,
)
    requires
        instance_step(pre, good1, bad1, r1, mid),
        r1 is Ok,
        instance_step(mid, good2, bad2, r2, post),
        r2 is Ok,
    ensures
        post.repository == pre.repository,
        ({
            let g = crate::client::name_id(pre.names, good2);
            let b = crate::client::name_id(pre.names, bad2);
            post.candidates == keep_ancestors(drop_ancestors(pre.repository, g->0), b->0)
        }),
{
    law_instance_keeps_repository(pre, good1, bad1, r1, mid);
    law_instance_keeps_repository(mid, good2, bad2, r2, post);
}

} // verus!
