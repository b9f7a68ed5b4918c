//! The decisions of the bisection client: from its state and the message the
//! server sent to the reply it sends back and its next state. Receiving and
//! sending the messages is done outside the library.
use std::collections::HashMap;
use vstd::prelude::*;
use vstd::string::StringExecFns;

use crate::algorithm::{get_next_guess, remove_from_bad, remove_unecessary_good_commits};
use crate::graph::{drop_ancestors, keep_ancestors, next_guess};
use crate::json_types::{JsonAnswer, JsonGoodAndBad, JsonProblemDefinition};
use crate::names::{commit_graph, dag_names, describes, extend_names, CommitNames};

verus! {

broadcast use vstd::std_specs::hash::group_hash_axioms;

/// A message from the server, sorted by the key it carries ("Repo", "Score",
/// "Instance", "Answer", anything else).
pub enum Message {
    Repo(JsonProblemDefinition),
    Score,
    Instance(JsonGoodAndBad),
    /// `None`: the message has the key "Answer" but not the expected shape.
    Answer(Option<JsonAnswer>),
    Other,
}

/// What the client sends back.
pub enum Reply {
    /// Nothing to send.
    Nothing,
    /// The first bad commit.
    Solution(String),
    /// Ask whether this commit is good or bad.
    Question(String),
    /// Give up on the instance.
    GiveUp,
    /// The session is over: show the score and close.
    Close,
    /// The message was not understood.
    Unknown,
}

/// Why a message cannot be handled.
#[derive(Debug)]
pub enum ClientError {
    /// The good commit of the instance is not a commit of the repository.
    GoodNotFound,
    /// The bad commit is not among the candidates.
    BadNotFound,
    /// The commit asked about is not among the candidates (or none was asked about).
    QuestionNotFound,
    /// No commit is left to ask about.
    NoQuestion,
    /// An answer that is not of the expected shape.
    MalformedAnswer,
}

/// The most questions asked in one instance before giving up.
pub const QUESTION_LIMIT: i32 = 29;

/// The client's state, as plain values.
pub struct ClientState {
    /// Questions asked in the current instance, besides the first.
    pub questions: int,
    /// The commit asked about last.
    pub question: Option<u64>,
    /// The bad commit of the instance, as the answers move it.
    pub bad: Option<u64>,
    /// The commits among which the first bad commit is sought.
    pub candidates: Map<u64, Vec<u64>>,
    /// The whole repository.
    pub repository: Map<u64, Vec<u64>>,
    /// The commit names; a commit's number is the position of its name.
    pub names: Seq<Seq<char>>,
}

/// The bisection client.
pub struct Client {
    questions: i32,
    question_commit: Option<u64>,
    bad: Option<u64>,
    parents: HashMap<u64, Vec<u64>>,
    parents_master: HashMap<u64, Vec<u64>>,
    names: CommitNames,
}

impl View for Client {
    type V = ClientState;

    closed spec fn view(&self) -> ClientState {
        ClientState {
            questions: self.questions as int,
            question: self.question_commit,
            bad: self.bad,
            candidates: self.parents@,
            repository: self.parents_master@,
            names: self.names@,
        }
    }
}

/// The number of the commit called `s`, if there is one.
pub open spec fn name_id(names: Seq<Seq<char>>, s: Seq<char>) -> Option<u64> {
    if exists|i: int| 0 <= i < names.len() && names[i] == s {
        Some((choose|i: int| 0 <= i < names.len() && names[i] == s) as u64)
    } else {
        None
    }
}

/// The commit of a map that holds a single one.
pub open spec fn sole_commit_of(m: Map<u64, Vec<u64>>) -> u64 {
    choose|k: u64| m.dom() == set![k]
}

/// The reply once the candidates are `c` and the bad commit is `bad`: the
/// solution when a single candidate is left (the commit asked about and the
/// count of questions stay `question` and `questions`), else the next
/// question, counted as `asked`.
pub open spec fn settles(
    names: Seq<Seq<char>>,
    c: Map<u64, Vec<u64>>,
    bad: Option<u64>,
    question: Option<u64>,
    questions: int,
    asked: int,
    r: Result<Reply, ClientError>,
    post: ClientState,
) -> bool {
    if c.dom().len() == 1 {
        &&& r matches Ok(Reply::Solution(s)) && s@ == names[sole_commit_of(c) as int]
        &&& post.question == question
        &&& post.questions == questions
    } else {
        match bad {
            None => r == Err::<Reply, ClientError>(ClientError::BadNotFound),
            Some(b) => if !c.contains_key(b) {
                r == Err::<Reply, ClientError>(ClientError::BadNotFound)
            } else {
                match next_guess(c, b) {
                    None => r == Err::<Reply, ClientError>(ClientError::NoQuestion),
                    Some(g) => {
                        &&& r matches Ok(Reply::Question(s)) && s@ == names[g as int]
                        &&& post.question == Some(g)
                        &&& post.questions == asked
                    },
                }
            },
        }
    }
}

/// A new repository: its names are numbered after those already known, its
/// map replaces the previous repository; the instance state stays.
pub open spec fn repo_step(pre: ClientState, p: JsonProblemDefinition, post: ClientState) -> bool {
    &&& post.names == extend_names(pre.names, dag_names(p.dag@))
    &&& describes(post.names, post.repository, p.dag@)
    &&& post.candidates == pre.candidates
    &&& post.bad == pre.bad
    &&& post.question == pre.question
    &&& post.questions == pre.questions
}

/// A new instance with good commit `good` and bad commit `bad`: the
/// candidates are the repository without `good` and its ancestors, cut down
/// to `bad` and its ancestors.
pub open spec fn instance_step(
    pre: ClientState,
    good: Seq<char>,
    bad: Seq<char>,
    r: Result<Reply, ClientError>,
    post: ClientState,
) -> bool {
    let g = name_id(pre.names, good);
    let b = name_id(pre.names, bad);
    if g is None || !pre.repository.contains_key(g->0) {
        r == Err::<Reply, ClientError>(ClientError::GoodNotFound)
    } else if b is None || !drop_ancestors(pre.repository, g->0).contains_key(b->0) {
        r == Err::<Reply, ClientError>(ClientError::BadNotFound)
    } else {
        let c = keep_ancestors(drop_ancestors(pre.repository, g->0), b->0);
        &&& post.names == pre.names
        &&& post.repository == pre.repository
        &&& post.candidates == c
        &&& post.bad == b
        &&& settles(pre.names, c, b, None, 0, 0, r, post)
    }
}

/// An answer: after too many questions the client gives up; with a single
/// candidate left it gives the solution; else "Bad" keeps the commit asked
/// about and its ancestors (and makes it the bad commit), anything else drops
/// them.
pub open spec fn answer_step(
    pre: ClientState,
    a: Option<JsonAnswer>,
    r: Result<Reply, ClientError>,
    post: ClientState,
) -> bool {
    if pre.questions >= QUESTION_LIMIT {
        r == Ok::<Reply, ClientError>(Reply::GiveUp) && post == pre
    } else if pre.candidates.dom().len() == 1 {
        &&& r matches Ok(Reply::Solution(s)) && s@ == pre.names[sole_commit_of(pre.candidates) as int]
        &&& post == pre
    } else if a is None {
        r == Err::<Reply, ClientError>(ClientError::MalformedAnswer)
    } else if pre.question is None || !pre.candidates.contains_key(pre.question->0) {
        r == Err::<Reply, ClientError>(ClientError::QuestionNotFound)
    } else {
        let q = pre.question->0;
        let is_bad = a->0.Answer@ == "Bad"@;
        let c = if is_bad {
            keep_ancestors(pre.candidates, q)
        } else {
            drop_ancestors(pre.candidates, q)
        };
        let b = if is_bad {
            Some(q)
        } else {
            pre.bad
        };
        &&& post.names == pre.names
        &&& post.repository == pre.repository
        &&& post.candidates == c
        &&& post.bad == b
        &&& settles(pre.names, c, b, pre.question, pre.questions, pre.questions + 1, r, post)
    }
}

/// The commit of a map that holds a single one.
fn sole_commit(parents: &HashMap<u64, Vec<u64>>) -> (k: u64)
    requires
        parents@.dom().len() == 1,
    ensures
        parents@.dom() == set![k],
        k == sole_commit_of(parents@),
{
    let ghost m = parents@;
    let mut last: u64 = 0;
    for key in it: parents.keys()
        invariant
            m == parents@,
            it.index() > 0 ==> last == *it.seq()[it.index() - 1],
    {
        last = *key;
    }
    proof {
        let ks = vstd::std_specs::iter::IteratorSpec::remaining(
            &vstd::std_specs::hash::spec_keys_iter(parents),
        );
        assert(ks.unref().to_set() == m.dom());
        assert(ks.len() == 1);
        assert(ks.unref()[0] == last);
        assert(m.dom() =~= set![last]) by {
            assert forall|x: u64| m.dom().contains(x) <==> x == last by {
                if m.dom().contains(x) {
                    assert(ks.unref().contains(x));
                }
                assert(ks.unref().contains(last));
            }
        }
        let k = sole_commit_of(m);
        assert(m.dom() == set![k]);
        assert(set![k].contains(last));
    }
    last
}

/// `s` is "Bad".
fn is_bad_answer(s: &String) -> (b: bool)
    ensures
        b == (s@ == "Bad"@),
{
    let bad = String::from_str("Bad");
    *s == bad
}

impl Client {
    /// The state invariant: every commit number of the maps has a name, and
    /// at most `QUESTION_LIMIT` questions have been counted.
    pub closed spec fn wf(&self) -> bool {
        &&& forall|k: u64| #[trigger] self.parents@.contains_key(k) ==> k < self.names@.len()
        &&& forall|k: u64| #[trigger] self.parents_master@.contains_key(k) ==> k < self.names@.len()
        &&& 0 <= self.questions <= QUESTION_LIMIT
        &&& self.names@.no_duplicates()
    }

    /// A client before any message: no repository, no instance.
    pub fn new() -> (c: Self)
        ensures
            c.wf(),
            c@.questions == 0,
            c@.question is None,
            c@.bad is None,
            c@.candidates == Map::<u64, Vec<u64>>::empty(),
            c@.repository == Map::<u64, Vec<u64>>::empty(),
            c@.names == Seq::<Seq<char>>::empty(),
    {
        Client {
            questions: 0,
            question_commit: None,
            bad: None,
            parents: HashMap::new(),
            parents_master: HashMap::new(),
            names: CommitNames::new(),
        }
    }

    /// The reply once the candidates are trimmed: the solution when a single
    /// candidate is left, else the next question (counted when `count`).
    fn settle(&mut self, count: bool) -> (r: Result<Reply, ClientError>)
        requires
            old(self).wf(),
            count ==> old(self).questions < QUESTION_LIMIT,
        ensures
            final(self).wf(),
            final(self).parents@ == old(self).parents@,
            final(self).parents_master@ == old(self).parents_master@,
            final(self).names@ == old(self).names@,
            final(self).bad == old(self).bad,
            settles(
                old(self)@.names,
                old(self)@.candidates,
                old(self)@.bad,
                old(self)@.question,
                old(self)@.questions,
                if count {
                    old(self)@.questions + 1
                } else {
                    old(self)@.questions
                },
                r,
                final(self)@,
            ),
    {
        if self.parents.len() == 1 {
            let k = sole_commit(&self.parents);
            proof {
                assert(set![k].contains(k));
                assert(self.parents@.contains_key(k));
            }
            let s = self.names.name_of(k).clone();
            return Ok(Reply::Solution(s));
        }
        if count {
            self.questions = self.questions + 1;
        }
        match self.bad {
            None => Err(ClientError::BadNotFound),
            Some(b) => {
                if !self.parents.contains_key(&b) {
                    return Err(ClientError::BadNotFound);
                }
                match get_next_guess(&b, &self.parents) {
                    None => Err(ClientError::NoQuestion),
                    Some(g) => {
                        self.question_commit = Some(g);
                        let s = self.names.name_of(g).clone();
                        Ok(Reply::Question(s))
                    },
                }
            },
        }
    }

    /// Handles one message from the server: returns the reply to send, or
    /// why the message cannot be handled.
    pub fn on_message(&mut self, msg: Message) -> (r: Result<Reply, ClientError>)
        requires
            old(self).wf(),
        ensures
            final(self).wf(),
            !(msg is Repo) ==> final(self)@.repository == old(self)@.repository,
            !(msg is Repo) ==> final(self)@.names == old(self)@.names,
            match msg {
                Message::Repo(p) => r == Ok::<Reply, ClientError>(Reply::Nothing) && repo_step(
                    old(self)@,
                    p,
                    final(self)@,
                ),
                Message::Score => r == Ok::<Reply, ClientError>(Reply::Close) && final(self)@ == old(
                    self,
                )@,
                Message::Instance(i) => instance_step(old(self)@, i.good@, i.bad@, r, final(self)@),
                Message::Answer(a) => answer_step(old(self)@, a, r, final(self)@),
                Message::Other => final(self)@ == old(self)@ && r == Ok::<Reply, ClientError>(
                    if old(self)@.questions >= QUESTION_LIMIT {
                        Reply::GiveUp
                    } else {
                        Reply::Unknown
                    },
                ),
            },
    {
        match msg {
            Message::Repo(problem) => {
                let master = commit_graph(&mut self.names, &problem.dag);
                proof {
                    assert forall|k: u64| #[trigger] master@.contains_key(k) implies k < self.names@.len() by {}
                }
                self.parents_master = master;
                Ok(Reply::Nothing)
            },
            Message::Score => Ok(Reply::Close),
            Message::Instance(instance) => {
                self.questions = 0;
                self.question_commit = None;
                self.bad = None;
                let good = match self.names.id_of(&instance.good) {
                    Some(g) => g,
                    None => {
                        proof {
                            lemma_name_id_none(self.names@, instance.good@);
                        }
                        return Err(ClientError::GoodNotFound);
                    },
                };
                proof {
                    lemma_name_id_some(self.names@, instance.good@, good);
                }
                self.parents = self.parents_master.clone();
                if !self.parents.contains_key(&good) {
                    return Err(ClientError::GoodNotFound);
                }
                remove_unecessary_good_commits(&good, &mut self.parents);
                let bad = match self.names.id_of(&instance.bad) {
                    Some(b) => b,
                    None => {
                        proof {
                            lemma_name_id_none(self.names@, instance.bad@);
                        }
                        return Err(ClientError::BadNotFound);
                    },
                };
                proof {
                    lemma_name_id_some(self.names@, instance.bad@, bad);
                }
                if !self.parents.contains_key(&bad) {
                    return Err(ClientError::BadNotFound);
                }
                self.bad = Some(bad);
                remove_from_bad(&bad, &mut self.parents);
                self.settle(false)
            },
            Message::Answer(answer) => {
                if self.questions >= QUESTION_LIMIT {
                    return Ok(Reply::GiveUp);
                }
                if self.parents.len() == 1 {
                    let k = sole_commit(&self.parents);
                    proof {
                        assert(set![k].contains(k));
                        assert(self.parents@.contains_key(k));
                    }
                    let s = self.names.name_of(k).clone();
                    return Ok(Reply::Solution(s));
                }
                let answer = match answer {
                    Some(a) => a,
                    None => return Err(ClientError::MalformedAnswer),
                };
                let q = match self.question_commit {
                    Some(q) => q,
                    None => return Err(ClientError::QuestionNotFound),
                };
                if !self.parents.contains_key(&q) {
                    return Err(ClientError::QuestionNotFound);
                }
                if is_bad_answer(&answer.Answer) {
                    self.bad = Some(q);
                    remove_from_bad(&q, &mut self.parents);
                } else {
                    remove_unecessary_good_commits(&q, &mut self.parents);
                }
                self.settle(true)
            },
            Message::Other => {
                if self.questions >= QUESTION_LIMIT {
                    Ok(Reply::GiveUp)
                } else {
                    Ok(Reply::Unknown)
                }
            },
        }
    }
}

/// A name that is not in `names` has no number.
proof fn lemma_name_id_none(names: Seq<Seq<char>>, s: Seq<char>)
    requires
        !names.contains(s),
    ensures
        name_id(names, s) is None,
{
    if exists|i: int| 0 <= i < names.len() && names[i] == s {
        let i = choose|i: int| 0 <= i < names.len() && names[i] == s;
        assert(names.contains(s));
    }
}

/// In `names` without repeats, the number of a name is its position.
proof fn lemma_name_id_some(names: Seq<Seq<char>>, s: Seq<char>, id: u64)
    requires
        names.no_duplicates(),
        id < names.len(),
        names[id as int] == s,
    ensures
        name_id(names, s) == Some(id),
{
    let i = choose|i: int| 0 <= i < names.len() && names[i] == s;
    assert(names[i] == names[id as int]);
}

} // verus!
