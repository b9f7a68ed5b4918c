use std::collections::HashMap;

use gitbisectrust::{
    commit_graph, get_next_guess, remove_from_bad, remove_unecessary_good_commits, CommitNames,
    JsonNode, JsonProblemDefinition,
};
use serde_json::Value;

/// Reads a "Repo" message into a problem definition.
fn problem_of(data: &str) -> JsonProblemDefinition {
    let v: Value = serde_json::from_str(data).unwrap();
    let repo = &v["Repo"];
    let mut dag = Vec::new();
    for node in repo["dag"].as_array().unwrap() {
        let node = node.as_array().unwrap();
        let commit = node[0].as_str().unwrap().to_string();
        let parents = node[1]
            .as_array()
            .unwrap()
            .iter()
            .map(|p| p.as_str().unwrap().to_string())
            .collect();
        dag.push(JsonNode { commit, parents });
    }
    JsonProblemDefinition {
        name: repo["name"].as_str().unwrap().to_string(),
        instance_count: repo["instance_count"].as_u64().unwrap() as usize,
        dag,
    }
}

/// Reads an "Instance" message into its good and bad commit names.
fn instance_of(instance: &str) -> (String, String) {
    let v: Value = serde_json::from_str(instance).unwrap();
    (
        v["Instance"]["good"].as_str().unwrap().to_string(),
        v["Instance"]["bad"].as_str().unwrap().to_string(),
    )
}

fn names_of(names: &CommitNames, commits: &HashMap<u64, Vec<u64>>) -> Vec<String> {
    let mut values: Vec<String> = commits.keys().map(|k| names.name_of(*k).clone()).collect();
    values.sort();
    values
}

/// Trims the repository below the bad commit and above the good one, and
/// returns the names of the commits left, sorted.
fn helper(data: &str, instance: &str) -> Vec<String> {
    let problem = problem_of(data);
    let (good, bad) = instance_of(instance);
    let mut names = CommitNames::new();
    let mut commits = commit_graph(&mut names, &problem.dag);
    let good = names.id_of(&good).unwrap();
    remove_unecessary_good_commits(&good, &mut commits);
    let bad = names.id_of(&bad).unwrap();
    remove_from_bad(&bad, &mut commits);
    names_of(&names, &commits)
}

fn counting_helper(data: &str, bad: String) -> Option<String> {
    let problem = problem_of(data);
    let mut names = CommitNames::new();
    let commits = commit_graph(&mut names, &problem.dag);
    let bad = names.id_of(&bad).unwrap();
    get_next_guess(&bad, &commits).map(|g| names.name_of(g).clone())
}

#[test]
fn test_linear_tree() -> Result<(), serde_json::Error> {
    // a (good) --> b --> c (bad)
    let data = r#"{"Repo":{"name":"pb0","instance_count":3,"dag":[["a",[]],["b",["a"]],["c",["b"]]]}}"#;
    let instance = r#"{"Instance":{"good":"a","bad":"c"}}"#;
    let temp = helper(data, instance);
    assert_eq!(temp.len(), 2);
    Ok(())
}

#[test]
fn test_daimond() -> Result<(), serde_json::Error> {
    let data = r#"{"Repo":{"name":"tiny-diamonds","instance_count":10,"dag":[["a",[]],["b",["a"]],["c",["a"]],["d",["b","c"]],["e",["d"]],["f",["d"]],["g",["e","f"]],["h",["g"]],["i",["g"]],["j",["h","i"]],["k",["j"]],["l",["j"]],["m",["k","l"]],["n",["m"]],["o",["m"]],["p",["n","o"]],["q",["p"]],["r",["p"]],["s",["q","r"]],["t",["s"]],["u",["s"]],["v",["t","u"]],["w",["v"]],["x",["v"]],["y",["w","x"]],["z",["y"]]]}}"#;
    let instance = r#"{"Instance":{"good":"s","bad":"y"}}"#;
    let solution = helper(data, instance);
    assert_eq!(solution, ["t", "u", "v", "w", "x", "y"]);
    Ok(())
}

#[test]
fn test_daimond2() -> Result<(), serde_json::Error> {
    let data = r#"{"Repo":{"name":"tiny-diamonds","instance_count":10,"dag":[["a",[]],["b",["a"]],["c",["a"]],["d",["b","c"]],["e",["d"]],["f",["d"]],["g",["e","f"]],["h",["g"]],["i",["g"]],["j",["h","i"]],["k",["j"]],["l",["j"]],["m",["k","l"]],["n",["m"]],["o",["m"]],["p",["n","o"]],["q",["p"]],["r",["p"]],["s",["q","r"]],["t",["s"]],["u",["s"]],["v",["t","u"]],["w",["v"]],["x",["v"]],["y",["w","x"]],["z",["y"]]]}}"#;
    let instance = r#"{"Instance":{"good":"r","bad":"y"}}"#;
    let solution = helper(data, instance);
    assert_eq!(solution, ["q", "s", "t", "u", "v", "w", "x", "y"]);
    Ok(())
}

#[test]
fn test_daimond3() -> Result<(), serde_json::Error> {
    let data = r#"{"Repo":{"name":"tiny-diamonds","instance_count":10,"dag":[["a",[]],["b",["a"]],["c",["a"]],["d",["b","c"]],["e",["d"]],["f",["d"]],["g",["e","f"]],["h",["g"]],["i",["g"]],["j",["h","i"]],["k",["j"]],["l",["j"]],["m",["k","l"]],["n",["m"]],["o",["m"]],["p",["n","o"]],["q",["p"]],["r",["p"]],["s",["q","r"]],["t",["s"]],["u",["s"]],["v",["t","u"]],["w",["v"]],["x",["v"]],["y",["w","x"]],["z",["y"]]]}}"#;
    let instance = r#"{"Instance":{"good":"r","bad":"y"}}"#;
    let solution = helper(data, instance);
    assert_eq!(solution, ["q", "s", "t", "u", "v", "w", "x", "y"]);
    Ok(())
}

#[test]
fn test_linear_tree_value() -> Result<(), serde_json::Error> {
    // a (good) --> b --> c (bad)
    let data = r#"{"Repo":{"name":"pb0","instance_count":3,"dag":[["a",[]],["b",["a"]],["c",["b"]]]}}"#;
    let instance = r#"{"Instance":{"good":"a","bad":"c"}}"#;
    let solution = helper(data, instance);
    assert_eq!(solution, ["b", "c"]);
    Ok(())
}

#[test]
fn test_linear_large() -> Result<(), serde_json::Error> {
    let data = r#"{"Repo":{"name":"pb0","instance_count":7,"dag":[["a",[]],["b",["a"]],["c",["b"]],["d",["c"]],["e",["d"]],["f",["e"]],["g",["f"]]]}}"#;
    let instance = r#"{"Instance":{"good":"a","bad":"g"}}"#;
    let solution = helper(data, instance);
    assert_eq!(solution, ["b", "c", "d", "e", "f", "g"]);
    Ok(())
}

#[test]
fn test_branching() -> Result<(), serde_json::Error> {
    // a (good) --> b --> c
    //                     \
    //                      d (bad)
    //                      /
    //               f --> e
    let data = r#"{"Repo":{"name":"pb0","instance_count":7,"dag":[["a",[]],["b",["a"]],["c",["b"]],["d",["c","e"]],["e",["f"]],["f",[]]]}}"#;
    let instance = r#"{"Instance":{"good":"a","bad":"d"}}"#;
    let solution = helper(data, instance);
    assert_eq!(solution, ["b", "c", "d", "e", "f"]);
    Ok(())
}

#[test]
fn test_commits_before_bad_commit() -> Result<(), serde_json::Error> {
    // a (good) --> b --> c  --> d (bad) --> g
    let data = r#"{"Repo":{"name":"pb0","instance_count":7,"dag":[["a",[]],["b",["a"]],["c",["b"]],["d",["c"]],["g",["d"]],["f",[]]]}}"#;
    let instance = r#"{"Instance":{"good":"a","bad":"d"}}"#;
    let solution = helper(data, instance);
    assert_eq!(solution, ["b", "c", "d"]);
    Ok(())
}

#[test]
fn test_commits_after_good_commit() -> Result<(), serde_json::Error> {
    // a <-- b (good) <-- c <-- d (bad) <-- g
    let data = r#"{"Repo":{"name":"pb0","instance_count":7,"dag":[["a",[]],["b",["a"]],["c",["b"]],["d",["c"]],["g",["d"]],["f",[]]]}}"#;
    let instance = r#"{"Instance":{"good":"b","bad":"d"}}"#;
    let solution = helper(data, instance);
    assert_eq!(solution, ["c", "d"]);
    Ok(())
}

#[test]
fn test_branching_good() -> Result<(), serde_json::Error> {
    // a >-- b --> c --> d
    // v     |
    // |     ^
    // \---> bb
    let data = r#"{"Repo":{"name":"pb0","instance_count":7,"dag":[["a",[]],["b",["a","bb"]],["bb",["a"]],["c",["b"]],["d",["c"]]]}}"#;
    let instance = r#"{"Instance":{"good":"a","bad":"d"}}"#;
    let solution = helper(data, instance);
    assert_eq!(solution, ["b", "bb", "c", "d"]);
    Ok(())
}

#[test]
fn test_branching_rogue_commits() -> Result<(), serde_json::Error> {
    // a >-- b --> c --> d
    // v     |     \_ x
    // |     ^
    // \---> bb -- y
    let data = r#"{"Repo":{"name":"pb0","instance_count":7,"dag":[["a",[]],["x",["c"]],["y",["bb"]],["b",["a","bb"]],["bb",["a"]],["c",["b"]],["d",["c"]]]}}"#;
    let instance = r#"{"Instance":{"good":"a","bad":"d"}}"#;
    let solution = helper(data, instance);
    assert_eq!(solution, ["b", "bb", "c", "d"]);
    Ok(())
}

#[test]
fn test_branching_daimond() -> Result<(), serde_json::Error> {
    //    b
    //   /  \
    //  a    d
    //   \ c /
    let data = r#"{"Repo":{"name":"pb0","instance_count":7,"dag":[["a",[]],["b",["a"]],["c",["a"]],["d",["c", "b"]]]}}"#;
    let instance = r#"{"Instance":{"good":"a","bad":"d"}}"#;
    let solution = helper(data, instance);
    assert_eq!(solution, ["b", "c", "d"]);
    Ok(())
}

#[test]
fn test_only_two() -> Result<(), serde_json::Error> {
    // b <-- c (bad)
    let data = r#"{"Repo":{"name":"pb0","instance_count":2,"dag":[["b",["a"]],["c",["b"]]]}}"#;
    let temp = counting_helper(data, "c".to_string());
    assert_eq!(temp, Some("b".to_string()));
    Ok(())
}

#[test]
fn test_only_one() -> Result<(), serde_json::Error> {
    // b
    let data = r#"{"Repo":{"name":"pb0","instance_count":2,"dag":[["b",["a"]]]}}"#;
    let temp = counting_helper(data, "b".to_string());
    assert_eq!(temp, None);
    Ok(())
}

#[test]
fn test_small_linear() -> Result<(), serde_json::Error> {
    // a (good) <-- b <-- c (bad)
    let data = r#"{"Repo":{"name":"pb0","instance_count":3,"dag":[["a",[]],["b",["a"]],["c",["b"]]]}}"#;
    let temp = counting_helper(data, "c".to_string());
    assert_eq!(temp, Some("b".to_string()));
    Ok(())
}

#[test]
fn test_meduim_linear() -> Result<(), serde_json::Error> {
    // a <-- b <-- c <-- d <-- e <-- f (bad)
    let data = r#"{"Repo":{"name":"pb0","instance_count":6,"dag":[["a",[]],["b",["a"]],["c",["b"]],["d",["c"]],["e",["d"]],["f",["e"]]]}}"#;
    let temp = counting_helper(data, "f".to_string());
    assert_eq!(temp, Some("c".to_string()));
    Ok(())
}

#[test]
fn algorithm_test_branching_good() -> Result<(), serde_json::Error> {
    // a >-- b --> c --> d
    // v     |
    // |     ^
    // \---> bb
    let data = r#"{"Repo":{"name":"pb0","instance_count":7,"dag":[["a",[]],["b",["a"]],["bb",["b"]],["c",["b","bb"]],["d",["c"]]]}}"#;
    let temp = counting_helper(data, "d".to_string());
    assert_eq!(temp, Some("bb".to_string()));
    Ok(())
}

#[test]
fn algorithm_test_branching() -> Result<(), serde_json::Error> {
    // a (good) --> b --> c
    //                     \
    //                      d (bad)
    //                      /
    //               f --> e
    let data = r#"{"Repo":{"name":"pb0","instance_count":7,"dag":[["a",[]],["b",["a"]],["c",["b"]],["d",["c","e"]],["e",["f"]],["f",[]]]}}"#;
    let temp = counting_helper(data, "d".to_string());
    assert_eq!(temp, Some("e".to_string()));
    Ok(())
}

#[test]
fn test_trap() -> Result<(), serde_json::Error> {
    // a -> b -> c -> d
    //      \___ e
    //       \___ f
    let data = r#"{"Repo":{"name":"pb0","instance_count":7,"dag":[["b",["c", "e", "f"]],["c",["d"]],["d",[]],["e",[]],["f",[]]]}}"#;
    let temp = counting_helper(data, "b".to_string());
    assert_eq!(temp, Some("e".to_string()));
    Ok(())
}
