//! Narrowing down the first bad commit of a repository, as a bisection client.
//!
//! A repository is a map from each commit to the list of its parents. The
//! library trims that map after each answer ("good" or "bad") and picks the
//! next commit to ask about.
pub mod graph;
pub mod algorithm;
pub mod laws;
pub mod json_types;
pub mod names;
pub mod client;
pub mod score;
pub mod visualise_dag;

pub use crate::algorithm::{get_next_guess, remove_from_bad, remove_unecessary_good_commits};
pub use crate::client::{Client, ClientError, Message, Reply};
pub use crate::json_types::{
    JsonAnswer, JsonGoodAndBad, JsonInstanceGoodBad, JsonMessageProblem, JsonNode,
    JsonProblemDefinition,
};
pub use crate::names::{commit_graph, CommitNames};
