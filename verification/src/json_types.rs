//! The messages of the bisection protocol, as plain values. Reading them
//! from JSON and writing them back is done outside the library.
use vstd::prelude::*;

verus! {

/// A commit of the repository with the names of its parents.
pub struct JsonNode {
    pub commit: String,
    pub parents: Vec<String>,
}

/// A repository to bisect: its name, how many instances follow, and its commits.
pub struct JsonProblemDefinition {
    pub name: String,
    pub instance_count: usize,
    pub dag: Vec<JsonNode>,
}

/// An instance: a commit known to be good and one known to be bad.
#[derive(Debug)]
pub struct JsonGoodAndBad {
    pub good: String,
    pub bad: String,
}

/// The message that opens an instance.
#[derive(Debug)]
#[allow(non_snake_case)]
pub struct JsonInstanceGoodBad {
    pub Instance: JsonGoodAndBad,
}

/// The message that opens a repository.
#[allow(non_snake_case)]
pub struct JsonMessageProblem {
    pub Repo: JsonProblemDefinition,
}

/// The answer to a question: "Good" or "Bad".
#[derive(Debug)]
#[allow(non_snake_case)]
pub struct JsonAnswer {
    pub Answer: String,
}

} // verus!
