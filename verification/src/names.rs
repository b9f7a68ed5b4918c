//! Commit names and the numbers that stand for them in the repository map.
//! Names are numbered in the order in which they are first met.
use std::collections::HashMap;
use vstd::prelude::*;

use crate::json_types::JsonNode;

verus! {

broadcast use vstd::std_specs::hash::group_hash_axioms;

/// The names of the commits met so far; a commit's number is the position of
/// its name. No name occurs twice.
pub struct CommitNames {
    names: Vec<String>,
}

impl View for CommitNames {
    type V = Seq<Seq<char>>;

    closed spec fn view(&self) -> Seq<Seq<char>> {
        self.names@.map_values(|s: String| s@)
    }
}

/// `names` followed by the names of `s` that it does not hold yet, each where
/// it first occurs in `s`.
pub open spec fn extend_names(names: Seq<Seq<char>>, s: Seq<Seq<char>>) -> Seq<Seq<char>>
    decreases s.len(),
{
    if s.len() == 0 {
        names
    } else {
        let before = extend_names(names, s.drop_last());
        if before.contains(s.last()) {
            before
        } else {
            before.push(s.last())
        }
    }
}

/// The name of a node followed by the names of its parents.
pub open spec fn node_names(n: JsonNode) -> Seq<Seq<char>> {
    seq![n.commit@] + n.parents@.map_values(|p: String| p@)
}

/// The names of the nodes, each node's name followed by its parents' names,
/// node after node.
pub open spec fn dag_names(dag: Seq<JsonNode>) -> Seq<Seq<char>>
    decreases dag.len(),
{
    if dag.len() == 0 {
        Seq::empty()
    } else {
        dag_names(dag.drop_last()) + node_names(dag.last())
    }
}

/// `ids` numbers the names `ps` by their positions in `names`.
pub open spec fn numbered(names: Seq<Seq<char>>, ids: Seq<u64>, ps: Seq<String>) -> bool {
    &&& ids.len() == ps.len()
    &&& forall|j: int| 0 <= j < ids.len() ==> #[trigger] ids[j] < names.len() && names[ids[j] as int] == ps[j]@
}

/// Node `i` is the last node of `dag` whose commit is called `name`.
pub open spec fn last_node_named(dag: Seq<JsonNode>, i: int, name: Seq<char>) -> bool {
    &&& 0 <= i < dag.len()
    &&& dag[i].commit@ == name
    &&& forall|j: int| i < j < dag.len() ==> #[trigger] dag[j].commit@ != name
}

/// The repository map that `dag` describes, its names numbered by `names`:
/// a commit is in the map when some node carries its name, and it has the
/// parents of the last such node.
pub open spec fn describes(
    names: Seq<Seq<char>>,
    m: Map<u64, Vec<u64>>,
    dag: Seq<JsonNode>,
) -> bool {
    &&& forall|k: u64|
        #[trigger] m.contains_key(k) <==> k < names.len() && exists|i: int|
            0 <= i < dag.len() && #[trigger] dag[i].commit@ == names[k as int]
    &&& forall|k: u64, i: int|
        m.contains_key(k) && k < names.len() && #[trigger] last_node_named(dag, i, names[k as int])
            ==> numbered(names, m[k]@, dag[i].parents@)
}

impl CommitNames {
    #[verifier::type_invariant]
    closed spec fn no_repeats(self) -> bool {
        self.names@.map_values(|s: String| s@).no_duplicates()
    }

    /// No names yet.
    pub fn new() -> (r: Self)
        ensures
            r@ == Seq::<Seq<char>>::empty(),
    {
        let r = CommitNames { names: Vec::new() };
        assert(r@ =~= Seq::<Seq<char>>::empty());
        r
    }

    /// The number of names.
    pub fn len(&self) -> (n: usize)
        ensures
            n == self@.len(),
    {
        self.names.len()
    }

    /// The number of `name`, if it has one.
    pub fn id_of(&self, name: &String) -> (r: Option<u64>)
        ensures
            r matches Some(id) ==> id < self@.len() && self@[id as int] == name@,
            r is None ==> !self@.contains(name@),
    {
        let n = self.names.len();
        for i in 0..n
            invariant
                n == self.names@.len(),
                forall|j: int| 0 <= j < i ==> self@[j] != name@,
        {
            if self.names[i] == *name {
                return Some(i as u64);
            }
        }
        proof {
            if self@.contains(name@) {
                let j = choose|j: int| 0 <= j < self@.len() && self@[j] == name@;
                assert(self@[j] != name@);
            }
        }
        None
    }

    /// The name numbered `id`.
    pub fn name_of(&self, id: u64) -> (r: &String)
        requires
            id < self@.len(),
        ensures
            r@ == self@[id as int],
    {
        let n = self.names.len();
        assert(self@.len() == n);
        assert(id < n);
        let i = id as usize;
        assert(i == id);
        &self.names[i]
    }

    /// The number of `name`, numbering it next if it has none.
    pub fn intern(&mut self, name: &String) -> (id: u64)
        ensures
            old(self)@.contains(name@) ==> final(self)@ == old(self)@,
            !old(self)@.contains(name@) ==> final(self)@ == old(self)@.push(name@),
            id < final(self)@.len(),
            final(self)@[id as int] == name@,
            final(self)@.no_duplicates(),
    {
        proof {
            use_type_invariant(&*self);
        }
        match self.id_of(name) {
            Some(id) => {
                proof {
                    use_type_invariant(&*self);
                }
                id
            },
            None => {
                let id = self.names.len() as u64;
                let ghost before = self@;
                let mut all: Vec<String> = Vec::new();
                std::mem::swap(&mut all, &mut self.names);
                all.push(name.clone());
                assert(all@.map_values(|s: String| s@) =~= before.push(name@));
                assert(before.push(name@).no_duplicates());
                self.names = all;
                assert(self@ =~= before.push(name@));
                proof {
                    use_type_invariant(&*self);
                }
                id
            },
        }
    }
}

/// Numbers the commit names of `dag` that `names` does not hold yet, in the
/// order in which they are first met (each node's name, then its parents'
/// names), and builds the repository map that `dag` describes. A name that
/// names several nodes gets the parents of the last of them.
pub fn commit_graph(names: &mut CommitNames, dag: &Vec<JsonNode>) -> (commits: HashMap<u64, Vec<u64>>)
    ensures
        final(names)@ == extend_names(old(names)@, dag_names(dag@)),
        old(names)@.len() <= final(names)@.len(),
        final(names)@.no_duplicates(),
        describes(final(names)@, commits@, dag@),
{
    proof {
        use_type_invariant(&*names);
    }
    let mut commits: HashMap<u64, Vec<u64>> = HashMap::new();
    let n = dag.len();
    for i in 0..n
        invariant
            n == dag@.len(),
            names@ == extend_names(old(names)@, dag_names(dag@.subrange(0, i as int))),
            names@.no_duplicates(),
            old(names)@.len() <= names@.len(),
            forall|t: int| 0 <= t < i ==> names@.contains(#[trigger] dag@[t].commit@),
            describes(names@, commits@, dag@.subrange(0, i as int)),
    {
        let node = &dag[i];
        let ghost done = dag_names(dag@.subrange(0, i as int));
        let ghost whole = node_names(*node);
        let ghost names_before = names@;
        let commit = names.intern(&node.commit);
        proof {
            assert(whole.subrange(0, 1) =~= seq![node.commit@]);
            assert((done + whole.subrange(0, 1)).drop_last() =~= done);
        }
        let mut ids: Vec<u64> = Vec::new();
        let np = node.parents.len();
        for j in 0..np
            invariant
                np == node.parents@.len(),
                whole == node_names(*node),
                names@ == extend_names(old(names)@, done + whole.subrange(0, j + 1)),
                names_before.len() <= names@.len(),
                names@.subrange(0, names_before.len() as int) == names_before,
                commit < names@.len(),
                names@[commit as int] == node.commit@,
                names@.no_duplicates(),
                numbered(names@, ids@, node.parents@.subrange(0, j as int)),
        {
            let ghost prev = names@;
            let id = names.intern(&node.parents[j]);
            proof {
                assert(whole[j + 1] == node.parents@[j as int]@);
                assert((done + whole.subrange(0, j + 2)).drop_last() =~= done + whole.subrange(
                    0,
                    j + 1,
                ));
                assert(names@.subrange(0, names_before.len() as int) =~= prev.subrange(
                    0,
                    names_before.len() as int,
                ));
            }
            ids.push(id);
            proof {
                assert(node.parents@.subrange(0, j + 1) =~= node.parents@.subrange(0, j as int).push(
                    node.parents@[j as int],
                ));
            }
        }
        proof {
            assert(whole.subrange(0, np + 1) =~= whole);
            assert(node.parents@.subrange(0, np as int) =~= node.parents@);
            assert(dag@.subrange(0, i + 1).drop_last() =~= dag@.subrange(0, i as int));
            assert(dag@.subrange(0, i + 1).last() == *node);
        }
        commits.insert(commit, ids);
        proof {
            let pre = dag@.subrange(0, i as int);
            let post = dag@.subrange(0, i + 1);
            assert forall|t: int| 0 <= t < i + 1 implies names@.contains(#[trigger] dag@[t].commit@) by {
                if t < i {
                    let x = choose|x: int| 0 <= x < names_before.len() && names_before[x] == dag@[t].commit@;
                    assert(names@[x] == names_before[x]);
                } else {
                    assert(names@[commit as int] == dag@[t].commit@);
                }
            }
            assert forall|k: u64|
                #[trigger] commits@.contains_key(k) <==> k < names@.len() && exists|t: int|
                    0 <= t < post.len() && #[trigger] post[t].commit@ == names@[k as int] by {
                if k == commit {
                    assert(post[i as int].commit@ == names@[k as int]);
                } else if k < names_before.len() {
                    assert(names@[k as int] == names_before[k as int]);
                    if exists|t: int| 0 <= t < post.len() && #[trigger] post[t].commit@ == names@[k as int] {
                        let t = choose|t: int| 0 <= t < post.len() && #[trigger] post[t].commit@ == names@[k as int];
                        if t == i {
                            assert(names@[commit as int] == names@[k as int]);
                        }
                        assert(pre[t].commit@ == names_before[k as int]);
                    }
                    if commits@.contains_key(k) {
                        let t = choose|t: int| 0 <= t < pre.len() && #[trigger] pre[t].commit@ == names_before[k as int];
                        assert(post[t].commit@ == names@[k as int]);
                    }
                } else {
                    if k < names@.len() {
                        if exists|t: int| 0 <= t < post.len() && #[trigger] post[t].commit@ == names@[k as int] {
                            let t = choose|t: int| 0 <= t < post.len() && #[trigger] post[t].commit@ == names@[k as int];
                            if t == i {
                                assert(names@[commit as int] == names@[k as int]);
                            } else {
                                assert(dag@[t] == post[t]);
                                let x = choose|x: int| 0 <= x < names_before.len() && names_before[x] == dag@[t].commit@;
                                assert(names@[x] == names_before[x]);
                            }
                        }
                    }
                }
            }
            assert forall|k: u64, t: int|
                commits@.contains_key(k) && k < names@.len() && #[trigger] last_node_named(
                    post,
                    t,
                    names@[k as int],
                ) implies numbered(names@, commits@[k]@, post[t].parents@) by {
                if k == commit {
                    assert(t == i) by {
                        if t < i {
                            assert(post[i as int].commit@ == names@[k as int]);
                        }
                    }
                } else {
                    assert(t != i) by {
                        if t == i {
                            assert(names@[commit as int] == names@[k as int]);
                        }
                    }
                    assert(last_node_named(pre, t, names_before[k as int])) by {
                        assert forall|j: int| t < j < pre.len() implies #[trigger] pre[j].commit@
                            != names_before[k as int] by {
                            assert(post[j] == pre[j]);
                        }
                    }
                }
            }
        }
    }
    proof {
        assert(dag@.subrange(0, n as int) =~= dag@);
    }
    commits
}

} // verus!
