//! The summary of the final score: how many instances were solved, answered
//! wrongly, or given up.
use vstd::prelude::*;

verus! {

/// How one instance ended, as the server reports it.
pub enum ScoreOutcome {
    /// Solved; the server's record of the questions asked, as text.
    Correct(String),
    /// A wrong solution.
    Wrong,
    /// Given up.
    GiveUp,
    /// Anything else, as text.
    Other(String),
}

/// The number of instances of each kind.
pub struct ScoreTotals {
    pub correct: usize,
    pub wrong: usize,
    pub gave_up: usize,
}

/// How many of `s` were solved, answered wrongly, and given up.
pub open spec fn tally(s: Seq<ScoreOutcome>) -> (nat, nat, nat)
    decreases s.len(),
{
    if s.len() == 0 {
        (0, 0, 0)
    } else {
        let (c, w, g) = tally(s.drop_last());
        match s.last() {
            ScoreOutcome::Correct(_) => (c + 1, w, g),
            ScoreOutcome::Wrong => (c, w + 1, g),
            ScoreOutcome::GiveUp => (c, w, g + 1),
            ScoreOutcome::Other(_) => (c, w, g),
        }
    }
}

/// Counts the outcomes of each kind.
pub fn score_totals(outcomes: &Vec<ScoreOutcome>) -> (t: ScoreTotals)
    ensures
        (t.correct as nat, t.wrong as nat, t.gave_up as nat) == tally(outcomes@),
{
    let mut correct: usize = 0;
    let mut wrong: usize = 0;
    let mut gave_up: usize = 0;
    let n = outcomes.len();
    for i in 0..n
        invariant
            n == outcomes@.len(),
            (correct as nat, wrong as nat, gave_up as nat) == tally(outcomes@.subrange(0, i as int)),
            correct + wrong + gave_up <= i,
    {
        proof {
            assert(outcomes@.subrange(0, i + 1).drop_last() =~= outcomes@.subrange(0, i as int));
        }
        match &outcomes[i] {
            ScoreOutcome::Correct(_) => {
                correct = correct + 1;
            },
            ScoreOutcome::Wrong => {
                wrong = wrong + 1;
            },
            ScoreOutcome::GiveUp => {
                gave_up = gave_up + 1;
            },
            ScoreOutcome::Other(_) => {},
        }
    }
    proof {
        assert(outcomes@.subrange(0, n as int) =~= outcomes@);
    }
    ScoreTotals { correct, wrong, gave_up }
}

} // verus!
