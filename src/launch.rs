use vstd::prelude::*;

use crate::aggregate::{RunOutcome, TestResults};
use crate::errors::AppError;
use crate::player::{lossy_text, trim_zeros, PlayerName};
use crate::scores::{captures_of, parse_scores, scores_readable, slot_score};
use crate::seeds::{range_fits, SeedRange};

verus! {

/// The decimal digits of `n`, without sign or leading zeros.
pub open spec fn decimal_text(n: nat) -> Seq<char>
    decreases n,
{
    if n < 10 {
        seq![((48 + n) as u32) as char]
    } else {
        decimal_text(n / 10).push(((48 + n % 10) as u32) as char)
    }
}

/// Relies on `u32`'s `Display`, through `to_string`: the decimal digits of
/// the number, without sign or leading zeros.
#[verifier::external_body]
fn seed_text(seed: u32) -> (r: String)
    ensures
        r@ == decimal_text(seed as nat),
{
    seed.to_string()
}

/// Everything a test run needs, shared read-only by every launch.
pub struct TestConfig {
    pub seed: u32,
    pub instances: u32,
    pub players: [PlayerName; 4],
    /// Handed verbatim to every game on its standard input.
    pub settings: String,
}

impl TestConfig {
    pub open spec fn wf(&self) -> bool {
        self.instances > 0
    }

    /// The seeds that the run covers.
    pub fn seed_range(&self) -> (r: Result<SeedRange, AppError>)
        requires
            self.wf(),
        ensures
            range_fits(self.seed, self.instances) <==> r is Ok,
            r is Ok ==> r->Ok_0 == (SeedRange {
                min: self.seed,
                max: (self.seed + self.instances - 1) as u32,
            }),
            r is Err ==> r->Err_0 == AppError::SeedRangeOutOfBounds,
    {
        SeedRange::new(self.seed, self.instances)
    }

    /// The command-line arguments of the game for `seed`: the four player
    /// names in slot order, then `-s` and the seed in decimal.
    pub fn arguments(&self, seed: u32) -> (r: Vec<String>)
        ensures
            r@.len() == 6,
            forall|k: int| 0 <= k < 4 ==> (#[trigger] r@[k])@ == lossy_text(trim_zeros(self.players@[k]@)),
            r@[4]@ == seq!['-', 's'],
            r@[5]@ == decimal_text(seed as nat),
    {
        let mut r: Vec<String> = Vec::new();
        r.push(self.players[0].as_string());
        r.push(self.players[1].as_string());
        r.push(self.players[2].as_string());
        r.push(self.players[3].as_string());
        let flag = "-s";
        proof {
            reveal_strlit("-s");
        }
        r.push(flag.to_owned());
        r.push(seed_text(seed));
        r
    }
}

/// What a finished game for `seed` came to, given whether it exited normally
/// and its diagnostic output: a crash when it did not, otherwise the scores
/// it reported by slot. `None` when a normal exit left output whose score
/// lines cannot be read.
pub fn run_outcome(seed: u32, exited_ok: bool, diagnostics: &[char]) -> (r: Option<RunOutcome>)
    ensures
        !exited_ok ==> r == Some(RunOutcome::Crash { seed }),
        exited_ok ==> (r is Some <==> scores_readable(captures_of(diagnostics@))),
        exited_ok && r is Some ==> (r->Some_0 matches RunOutcome::Success { points } && forall|k: int|
            0 <= k < 4 ==> (#[trigger] points@[k]) == slot_score(captures_of(diagnostics@), k)),
{
    if !exited_ok {
        return Some(RunOutcome::Crash { seed });
    }
    match parse_scores(diagnostics) {
        Some(points) => Some(RunOutcome::Success { points }),
        None => None,
    }
}

/// How many of `instances` runs finished normally: crashed seeds leave the
/// denominator of averages and win rates.
pub fn completed_runs(instances: u32, results: &TestResults) -> (r: u32)
    requires
        results.failed_seeds@.len() <= instances,
    ensures
        r == instances - results.failed_seeds@.len(),
{
    instances - results.failed_seeds.len() as u32
}

} // verus!
