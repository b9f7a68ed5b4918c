use std::collections::HashMap;

use gitbisectrust::score::{score_totals, ScoreOutcome};
use gitbisectrust::visualise_dag::dot_graph;
use gitbisectrust::{
    commit_graph, get_next_guess, remove_from_bad, remove_unecessary_good_commits, Client,
    ClientError, CommitNames, JsonAnswer, JsonGoodAndBad, JsonNode, JsonProblemDefinition, Message,
    Reply,
};

fn node(commit: &str, parents: &[&str]) -> JsonNode {
    JsonNode {
        commit: commit.to_string(),
        parents: parents.iter().map(|p| p.to_string()).collect(),
    }
}

fn problem(dag: Vec<JsonNode>) -> JsonProblemDefinition {
    JsonProblemDefinition { name: "pb0".to_string(), instance_count: 1, dag }
}

fn linear() -> JsonProblemDefinition {
    problem(vec![
        node("a", &[]),
        node("b", &["a"]),
        node("c", &["b"]),
        node("d", &["c"]),
        node("e", &["d"]),
        node("f", &["e"]),
        node("g", &["f"]),
    ])
}

fn diamonds() -> JsonProblemDefinition {
    problem(vec![
        node("a", &[]),
        node("b", &["a"]),
        node("c", &["a"]),
        node("d", &["b", "c"]),
        node("e", &["d"]),
        node("f", &["d"]),
        node("g", &["e", "f"]),
        node("h", &["g"]),
        node("i", &["g"]),
        node("j", &["h", "i"]),
        node("k", &["j"]),
        node("l", &["j"]),
        node("m", &["k", "l"]),
        node("n", &["m"]),
        node("o", &["m"]),
        node("p", &["n", "o"]),
        node("q", &["p"]),
        node("r", &["p"]),
        node("s", &["q", "r"]),
        node("t", &["s"]),
        node("u", &["s"]),
        node("v", &["t", "u"]),
        node("w", &["v"]),
        node("x", &["v"]),
        node("y", &["w", "x"]),
        node("z", &["y"]),
    ])
}

fn sorted_names(names: &CommitNames, commits: &HashMap<u64, Vec<u64>>) -> Vec<String> {
    let mut v: Vec<String> = commits.keys().map(|k| names.name_of(*k).clone()).collect();
    v.sort();
    v
}

fn instance(good: &str, bad: &str) -> Message {
    Message::Instance(JsonGoodAndBad { good: good.to_string(), bad: bad.to_string() })
}

fn answer(a: &str) -> Message {
    Message::Answer(Some(JsonAnswer { Answer: a.to_string() }))
}

fn question(r: Result<Reply, ClientError>) -> String {
    match r {
        Ok(Reply::Question(s)) => s,
        _ => panic!("expected a question"),
    }
}

fn solution(r: Result<Reply, ClientError>) -> String {
    match r {
        Ok(Reply::Solution(s)) => s,
        _ => panic!("expected a solution"),
    }
}

#[test]
fn names_are_numbered_in_order_of_first_appearance() {
    let mut names = CommitNames::new();
    let dag = vec![node("b", &["a"]), node("c", &["b", "z"])];
    let commits = commit_graph(&mut names, &dag);
    assert_eq!(names.len(), 4);
    assert_eq!(names.name_of(0), "b");
    assert_eq!(names.name_of(1), "a");
    assert_eq!(names.name_of(2), "c");
    assert_eq!(names.name_of(3), "z");
    assert_eq!(names.id_of(&"c".to_string()), Some(2));
    assert_eq!(names.id_of(&"nope".to_string()), None);
    // only named nodes are commits of the map
    assert_eq!(commits.len(), 2);
    assert_eq!(commits[&0], vec![1]);
    assert_eq!(commits[&2], vec![0, 3]);
}

#[test]
fn a_repeated_node_keeps_the_last_parents() {
    let mut names = CommitNames::new();
    let dag = vec![node("a", &[]), node("b", &["a"]), node("b", &[])];
    let commits = commit_graph(&mut names, &dag);
    assert_eq!(commits.len(), 2);
    assert_eq!(commits[&1], Vec::<u64>::new());
}

#[test]
fn a_second_repository_keeps_earlier_numbers() {
    let mut names = CommitNames::new();
    let _ = commit_graph(&mut names, &vec![node("a", &[])]);
    let commits = commit_graph(&mut names, &vec![node("x", &["a"])]);
    assert_eq!(names.id_of(&"a".to_string()), Some(0));
    assert_eq!(names.id_of(&"x".to_string()), Some(1));
    assert_eq!(commits.len(), 1);
    assert_eq!(commits[&1], vec![0]);
}

#[test]
fn intern_returns_existing_numbers() {
    let mut names = CommitNames::new();
    assert_eq!(names.intern(&"p".to_string()), 0);
    assert_eq!(names.intern(&"q".to_string()), 1);
    assert_eq!(names.intern(&"p".to_string()), 0);
    assert_eq!(names.len(), 2);
}

#[test]
fn removing_good_commits_terminates_on_a_cycle() {
    // a and b are each other's parent; c sits on top of them
    let mut names = CommitNames::new();
    let dag = vec![node("a", &["b"]), node("b", &["a"]), node("c", &["b"])];
    let mut commits = commit_graph(&mut names, &dag);
    let a = names.id_of(&"a".to_string()).unwrap();
    remove_unecessary_good_commits(&a, &mut commits);
    assert_eq!(sorted_names(&names, &commits), ["c"]);
}

#[test]
fn trimming_twice_changes_nothing() {
    let mut names = CommitNames::new();
    let mut commits = commit_graph(&mut names, &diamonds().dag);
    let y = names.id_of(&"y".to_string()).unwrap();
    remove_from_bad(&y, &mut commits);
    let once = commits.clone();
    remove_from_bad(&y, &mut commits);
    assert_eq!(once, commits);
    assert_eq!(commits.len(), 25);
}

#[test]
fn the_guess_on_trimmed_candidates_is_below_the_bad_commit() {
    let mut names = CommitNames::new();
    let mut commits = commit_graph(&mut names, &diamonds().dag);
    let a = names.id_of(&"a".to_string()).unwrap();
    let z = names.id_of(&"z".to_string()).unwrap();
    remove_unecessary_good_commits(&a, &mut commits);
    remove_from_bad(&z, &mut commits);
    assert_eq!(commits.len(), 25);
    let g = get_next_guess(&z, &commits).unwrap();
    assert_eq!(names.name_of(g), "m");
    assert_ne!(g, z);
    assert!(commits.contains_key(&g));
}

#[test]
fn the_guess_in_the_first_layer() {
    // the trimmed diamond below y, above r: the guess t is a parent of v
    let mut names = CommitNames::new();
    let mut commits = commit_graph(&mut names, &diamonds().dag);
    let r = names.id_of(&"r".to_string()).unwrap();
    let y = names.id_of(&"y".to_string()).unwrap();
    remove_unecessary_good_commits(&r, &mut commits);
    remove_from_bad(&y, &mut commits);
    let g = get_next_guess(&y, &commits).unwrap();
    assert_eq!(names.name_of(g), "t");
}

#[test]
fn a_session_finds_the_first_bad_commit() {
    // the first bad commit is e; the answers follow from it
    let mut client = Client::new();
    assert!(matches!(client.on_message(Message::Repo(linear())), Ok(Reply::Nothing)));
    assert_eq!(question(client.on_message(instance("a", "g"))), "d");
    assert_eq!(question(client.on_message(answer("Good"))), "f");
    assert_eq!(question(client.on_message(answer("Bad"))), "e");
    assert_eq!(solution(client.on_message(answer("Bad"))), "e");
}

#[test]
fn a_session_down_to_the_oldest_candidate() {
    let mut client = Client::new();
    client.on_message(Message::Repo(linear())).unwrap();
    assert_eq!(question(client.on_message(instance("a", "g"))), "d");
    assert_eq!(question(client.on_message(answer("Bad"))), "c");
    assert_eq!(question(client.on_message(answer("Bad"))), "b");
    assert_eq!(solution(client.on_message(answer("Bad"))), "b");
}

#[test]
fn a_session_on_the_diamonds() {
    let mut client = Client::new();
    client.on_message(Message::Repo(diamonds())).unwrap();
    assert_eq!(question(client.on_message(instance("a", "z"))), "m");
    assert_eq!(question(client.on_message(answer("Bad"))), "g");
    assert_eq!(question(client.on_message(answer("Good"))), "l");
    assert_eq!(question(client.on_message(answer("Good"))), "k");
    assert_eq!(solution(client.on_message(answer("Good"))), "m");
}

#[test]
fn an_instance_with_one_candidate_is_solved_at_once() {
    let mut client = Client::new();
    client.on_message(Message::Repo(linear())).unwrap();
    assert_eq!(solution(client.on_message(instance("c", "d"))), "d");
    // a further answer repeats the solution
    assert_eq!(solution(client.on_message(answer("Good"))), "d");
}

#[test]
fn an_unknown_good_commit_is_an_error() {
    let mut client = Client::new();
    client.on_message(Message::Repo(linear())).unwrap();
    assert!(matches!(client.on_message(instance("zz", "g")), Err(ClientError::GoodNotFound)));
}

#[test]
fn a_bad_commit_above_the_good_one_is_an_error() {
    let mut client = Client::new();
    client.on_message(Message::Repo(linear())).unwrap();
    assert!(matches!(client.on_message(instance("e", "b")), Err(ClientError::BadNotFound)));
    assert!(matches!(client.on_message(instance("a", "zz")), Err(ClientError::BadNotFound)));
}

#[test]
fn an_answer_before_any_question_is_an_error() {
    let mut client = Client::new();
    client.on_message(Message::Repo(linear())).unwrap();
    assert!(matches!(client.on_message(answer("Bad")), Err(ClientError::QuestionNotFound)));
}

#[test]
fn a_malformed_answer_is_an_error() {
    let mut client = Client::new();
    client.on_message(Message::Repo(linear())).unwrap();
    client.on_message(instance("a", "g")).unwrap();
    assert!(matches!(client.on_message(Message::Answer(None)), Err(ClientError::MalformedAnswer)));
}

#[test]
fn score_and_other_messages() {
    let mut client = Client::new();
    assert!(matches!(client.on_message(Message::Score), Ok(Reply::Close)));
    assert!(matches!(client.on_message(Message::Other), Ok(Reply::Unknown)));
}

#[test]
fn the_client_gives_up_after_the_question_limit() {
    // the bad commit b has 31 parents, all children of the good commit r:
    // each "good" answer removes a single parent
    let mut dag = vec![node("r", &[])];
    let leaves: Vec<String> = (0..31).map(|i| format!("l{}", i)).collect();
    for l in &leaves {
        dag.push(node(l, &["r"]));
    }
    let refs: Vec<&str> = leaves.iter().map(|s| s.as_str()).collect();
    dag.push(node("b", &refs));
    let mut client = Client::new();
    client.on_message(Message::Repo(problem(dag))).unwrap();
    assert_eq!(question(client.on_message(instance("r", "b"))), "l14");
    for _ in 0..29 {
        question(client.on_message(answer("Good")));
    }
    assert!(matches!(client.on_message(answer("Good")), Ok(Reply::GiveUp)));
    assert!(matches!(client.on_message(Message::Other), Ok(Reply::GiveUp)));
}

#[test]
fn score_totals_count_each_kind() {
    let outcomes = vec![
        ScoreOutcome::Correct("3".to_string()),
        ScoreOutcome::Wrong,
        ScoreOutcome::Correct("5".to_string()),
        ScoreOutcome::GiveUp,
        ScoreOutcome::Other("\"Late\"".to_string()),
    ];
    let t = score_totals(&outcomes);
    assert_eq!((t.correct, t.wrong, t.gave_up), (2, 1, 1));
    let t = score_totals(&Vec::new());
    assert_eq!((t.correct, t.wrong, t.gave_up), (0, 0, 0));
}

#[test]
fn dot_graph_draws_every_parent_link() {
    let p = problem(vec![node("a", &[]), node("b", &["a"]), node("c", &["b", "a"])]);
    let i = JsonGoodAndBad { good: "a".to_string(), bad: "c".to_string() };
    let text = dot_graph(&p, &i);
    assert_eq!(
        text,
        "digraph G {\nnode [shape = doublecircle, color=red]; c\nnode [shape = doublecircle, color=green]; a\nnode [shape = circle, color=black];\nb -> a\nc -> b\nc -> a\n}"
    );
}
