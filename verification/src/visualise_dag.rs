//! A picture of a repository in the DOT language of Graphviz: the bad
//! commit drawn red, the good one green, an arrow from each commit to each
//! of its parents.
use vstd::prelude::*;
use vstd::string::StringExecFns;

use crate::json_types::{JsonGoodAndBad, JsonNode, JsonProblemDefinition};

verus! {

/// One line "commit -> parent" for each parent in `ps`, in order.
pub open spec fn node_edges(commit: Seq<char>, ps: Seq<String>) -> Seq<char>
    decreases ps.len(),
{
    if ps.len() == 0 {
        Seq::empty()
    } else {
        node_edges(commit, ps.drop_last()) + commit + " -> "@ + ps.last()@ + "\n"@
    }
}

/// The arrow lines of all nodes, node after node.
pub open spec fn dag_edges(dag: Seq<JsonNode>) -> Seq<char>
    decreases dag.len(),
{
    if dag.len() == 0 {
        Seq::empty()
    } else {
        dag_edges(dag.drop_last()) + node_edges(dag.last().commit@, dag.last().parents@)
    }
}

/// The whole picture.
pub open spec fn dot_text(dag: Seq<JsonNode>, good: Seq<char>, bad: Seq<char>) -> Seq<char> {
    "digraph G {\n"@ + "node [shape = doublecircle, color=red]; "@ + bad + "\n"@
        + "node [shape = doublecircle, color=green]; "@ + good + "\n"@
        + "node [shape = circle, color=black];\n"@ + dag_edges(dag) + "}"@
}

/// Draws the repository of `problem` with the commits of `instance` marked.
pub fn dot_graph(problem: &JsonProblemDefinition, instance: &JsonGoodAndBad) -> (s: String)
    ensures
        s@ == dot_text(problem.dag@, instance.good@, instance.bad@),
{
    let mut debug = String::from_str("digraph G {\n");
    debug.append("node [shape = doublecircle, color=red]; ");
    debug.append(instance.bad.as_str());
    debug.append("\n");
    debug.append("node [shape = doublecircle, color=green]; ");
    debug.append(instance.good.as_str());
    debug.append("\n");
    debug.append("node [shape = circle, color=black];\n");
    let ghost head = debug@;
    let dag = &problem.dag;
    let n = dag.len();
    for i in 0..n
        invariant
            n == dag@.len(),
            debug@ == head + dag_edges(dag@.subrange(0, i as int)),
    {
        let node = &dag[i];
        let np = node.parents.len();
        let ghost before = debug@;
        for j in 0..np
            invariant
                np == node.parents@.len(),
                debug@ == before + node_edges(node.commit@, node.parents@.subrange(0, j as int)),
        {
            proof {
                assert(node.parents@.subrange(0, j + 1).drop_last() =~= node.parents@.subrange(
                    0,
                    j as int,
                ));
            }
            debug.append(node.commit.as_str());
            debug.append(" -> ");
            debug.append(node.parents[j].as_str());
            debug.append("\n");
            proof {
                assert(debug@ =~= before + node_edges(
                    node.commit@,
                    node.parents@.subrange(0, j + 1),
                ));
            }
        }
        proof {
            assert(node.parents@.subrange(0, np as int) =~= node.parents@);
            assert(dag@.subrange(0, i + 1).drop_last() =~= dag@.subrange(0, i as int));
            assert(debug@ =~= head + dag_edges(dag@.subrange(0, i + 1)));
        }
    }
    debug.append("}");
    proof {
        assert(dag@.subrange(0, n as int) =~= dag@);
        assert(debug@ =~= dot_text(problem.dag@, instance.good@, instance.bad@));
    }
    debug
}

} // verus!
