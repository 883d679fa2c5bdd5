//! The simulation engine: many independent trials of random offices and
//! traversals, aggregated into a success percentage and an average
//! escape-path length.

use std::io::Write;
use vstd::prelude::*;
use vstd::arithmetic::div_mod::{lemma_div_is_ordered, lemma_div_multiples_vanish};
use vstd::arithmetic::mul::lemma_mul_inequality;
use crate::navigation::{result_path, state_in_bounds, Navigator};
use crate::office::{grid_wf, Density, Office};
use crate::show_path::show_path;

verus! {

/// How one sweep of trials is set up. The path-printing flag is purely
/// observational: it never affects the aggregated numbers.
pub struct SimulationParams {
    pub sample_count: u32,
    pub office_width: usize,
    pub office_height: usize,
    pub print_path: bool,
}

impl SimulationParams {
    /// Usable parameters: at least one trial, a non-degenerate office,
    /// and a cell count that fits the machine.
    pub open spec fn wf(self) -> bool {
        &&& self.sample_count >= 1
        &&& self.office_width >= 1
        &&& self.office_height >= 1
        &&& self.office_width * self.office_height <= usize::MAX
    }
}

/// What one sweep of trials produced. The success percentage and the
/// average path length are exposed as exact integer computations so that
/// no caller depends on rounding behaviour.
pub struct Stats {
    pub sample_count: u32,
    pub successes: u32,
    pub total_successful_path_length: u128,
}

impl Stats {
    pub open spec fn wf(self) -> bool {
        self.sample_count >= 1 && self.successes <= self.sample_count
    }

    /// The share of safe offices, in hundredths of a percent:
    /// `floor(10000 * successes / sample_count)`. It always lies between
    /// 0 (no success) and 10000 (every trial succeeded).
    pub fn safe_percentage_hundredths(&self) -> (r: u32)
        requires
            self.wf(),
        ensures
            r == 10000 * self.successes as int / self.sample_count as int,
            r <= 10000,
    {
        let num: u64 = (self.successes as u64) * 10000;
        let q: u64 = num / (self.sample_count as u64);
        proof {
            lemma_mul_inequality(self.successes as int, self.sample_count as int, 10000);
            lemma_div_is_ordered(
                self.successes as int * 10000,
                self.sample_count as int * 10000,
                self.sample_count as int,
            );
            lemma_div_multiples_vanish(10000, self.sample_count as int);
            assert(self.sample_count as int * 10000 == self.sample_count as int * 10000int)
                by (nonlinear_arith);
            assert(self.successes as int * 10000 == 10000 * self.successes as int)
                by (nonlinear_arith);
            assert(self.sample_count as int * 10000 == 10000 * self.sample_count as int)
                by (nonlinear_arith);
        }
        q as u32
    }

    /// The mean length of the successful escape paths, rounded down, or
    /// `None` when no trial succeeded: the average is undefined then, and
    /// the sentinel keeps that case distinct from a zero-length mean.
    pub fn average_path_length(&self) -> (r: Option<u128>)
        ensures
            (r is None) <==> self.successes == 0,
            self.successes > 0 ==> r == Some(
                self.total_successful_path_length / (self.successes as u128),
            ),
    {
        if self.successes == 0 {
            None
        } else {
            Some(self.total_successful_path_length / (self.successes as u128))
        }
    }
}

/// How many of the recorded outcomes are successful escapes.
pub open spec fn count_successes(outcomes: Seq<(bool, int)>) -> int
    decreases outcomes.len(),
{
    if outcomes.len() == 0 {
        0
    } else {
        count_successes(outcomes.drop_last()) + (if outcomes.last().0 {
            1int
        } else {
            0int
        })
    }
}

/// The summed path lengths of the successful outcomes alone.
pub open spec fn total_success_length(outcomes: Seq<(bool, int)>) -> int
    decreases outcomes.len(),
{
    if outcomes.len() == 0 {
        0
    } else {
        total_success_length(outcomes.drop_last()) + (if outcomes.last().0 {
            outcomes.last().1
        } else {
            0int
        })
    }
}

/// The mathematical view of an outcome list.
pub open spec fn outcome_views(outcomes: Seq<(bool, usize)>) -> Seq<(bool, int)> {
    outcomes.map_values(|o: (bool, usize)| (o.0, o.1 as int))
}

pub proof fn lemma_count_successes_bounds(outcomes: Seq<(bool, int)>)
    ensures
        0 <= count_successes(outcomes) <= outcomes.len(),
    decreases outcomes.len(),
{
    if outcomes.len() > 0 {
        lemma_count_successes_bounds(outcomes.drop_last());
    }
}

/// Without a single success nothing contributes to the summed length.
pub proof fn lemma_no_success_no_length(outcomes: Seq<(bool, int)>)
    requires
        count_successes(outcomes) == 0,
    ensures
        total_success_length(outcomes) == 0,
    decreases outcomes.len(),
{
    if outcomes.len() > 0 {
        lemma_count_successes_bounds(outcomes.drop_last());
        lemma_no_success_no_length(outcomes.drop_last());
    }
}

/// Folds one trial into the running tally: a successful escape raises
/// the success counter by one and adds its path length to the total; a
/// failed one leaves both untouched.
pub fn tally_trial(successes: u32, total_length: u128, escaped: bool, path_length: usize) -> (r: (
    u32,
    u128,
))
    requires
        successes < u32::MAX,
        total_length + path_length <= u128::MAX,
    ensures
        escaped ==> r.0 == successes + 1 && r.1 == total_length + path_length,
        !escaped ==> r.0 == successes && r.1 == total_length,
{
    if escaped {
        (successes + 1, total_length + (path_length as u128))
    } else {
        (successes, total_length)
    }
}

/// Aggregates an explicit list of per-trial outcomes, each an escape
/// flag and a path length: exactly the fold that `stats_for_p` applies
/// to what the navigator returns, so the effect of any scripted outcome
/// sequence on the statistics can be read off this contract alone.
pub fn stats_from_outcomes(sample_count: u32, outcomes: &Vec<(bool, usize)>) -> (stats: Stats)
    requires
        sample_count >= 1,
        outcomes@.len() == sample_count,
    ensures
        stats.wf(),
        stats.sample_count == sample_count,
        stats.successes == count_successes(outcome_views(outcomes@)),
        stats.total_successful_path_length == total_success_length(outcome_views(outcomes@)),
{
    let n = outcomes.len();
    let mut successes: u32 = 0;
    let mut total: u128 = 0;
    let mut i: usize = 0;
    while i < n
        invariant
            i <= n,
            n == outcomes@.len(),
            n == sample_count,
            successes == count_successes(outcome_views(outcomes@).subrange(0, i as int)),
            total == total_success_length(outcome_views(outcomes@).subrange(0, i as int)),
            successes <= i,
            total as int <= i as int * 0xffff_ffff_ffff_ffff,
        decreases n - i,
    {
        let (escaped, path_length) = outcomes[i];
        proof {
            let views = outcome_views(outcomes@);
            assert(views.subrange(0, i as int + 1).drop_last() =~= views.subrange(0, i as int));
            assert(views.subrange(0, i as int + 1).last() == (escaped, path_length as int));
            assert(path_length as int <= 0xffff_ffff_ffff_ffff);
            assert(total as int + path_length as int <= (i as int + 1) * 0xffff_ffff_ffff_ffff)
                by (nonlinear_arith)
                requires
                    total as int <= i as int * 0xffff_ffff_ffff_ffff,
                    path_length as int <= 0xffff_ffff_ffff_ffff,
                    i >= 0,
            ;
            assert((i as int + 1) * 0xffff_ffff_ffff_ffff <= 0x1_0000_0000int
                * 0xffff_ffff_ffff_ffff) by (nonlinear_arith)
                requires
                    i as int + 1 <= 0x1_0000_0000,
            ;
        }
        let tallied = tally_trial(successes, total, escaped, path_length);
        successes = tallied.0;
        total = tallied.1;
        i = i + 1;
    }
    proof {
        assert(outcome_views(outcomes@).subrange(0, n as int) =~= outcome_views(outcomes@));
    }
    Stats {
        sample_count,
        successes,
        total_successful_path_length: total,
    }
}

/// Relies on the `Write` implementation of `std::io::Stdout`: the given
/// line is written to standard output; nothing of it is returned, and a
/// write failure is ignored, so callers learn nothing from the call.
#[verifier::external_body]
fn print_line(s: &str) {
    let _ = writeln!(std::io::stdout(), "{}", s);
}

/// Runs `sample_count` independent trials: each builds a fresh office of
/// density `p`, draws a start column at random and asks the navigator to
/// escape. The returned statistics are the [`stats_from_outcomes`] fold
/// of the navigator's per-trial outcomes, one per trial in order: the
/// successes counted, their path lengths summed. When the path-printing
/// flag is set every trial's overlaid rendering is written out, which
/// never changes the returned numbers.
pub fn stats_for_p<N: Navigator>(
    p: Density,
    params: &SimulationParams,
    navigator: &mut N,
    rng: &mut rand::rngs::ThreadRng,
) -> (stats: Stats)
    requires
        p.wf(),
        params.wf(),
    ensures
        stats.wf(),
        stats.sample_count == params.sample_count,
        stats.successes == 0 ==> stats.total_successful_path_length == 0,
        exists|outcomes: Seq<(bool, int)>|
            {
                &&& outcomes.len() == params.sample_count
                &&& #[trigger] count_successes(outcomes) == stats.successes
                &&& total_success_length(outcomes) == stats.total_successful_path_length
            },
{
    let mut outcomes: Vec<(bool, usize)> = Vec::new();
    let mut trial: u32 = 0;
    while trial < params.sample_count
        invariant
            p.wf(),
            params.wf(),
            trial <= params.sample_count,
            outcomes@.len() == trial,
        decreases params.sample_count - trial,
    {
        let office = Office::new(params.office_width, params.office_height, p, rng);
        let start_column = crate::rng::rand_index(rng, params.office_width);
        proof {
            assert(office@[0].len() == params.office_width);
        }
        let escape_result = navigator.try_to_escape(&office, start_column);
        let ghost res = escape_result;
        let (escaped, path) = match escape_result {
            Ok(path) => (true, path),
            Err(path) => (false, path),
        };
        proof {
            assert(path@ == result_path(res));
        }
        outcomes.push((escaped, path.len()));
        if params.print_path {
            proof {
                assert(forall|i: int|
                    0 <= i < path@.len() ==> state_in_bounds(office@, #[trigger] path@[i]));
            }
            let rendered = show_path(&office, &path);
            print_line(rendered.as_str());
            print_line("");
        }
        trial = trial + 1;
    }
    let stats = stats_from_outcomes(params.sample_count, &outcomes);
    proof {
        let views = outcome_views(outcomes@);
        assert(views.len() == params.sample_count && count_successes(views) == stats.successes
            && total_success_length(views) == stats.total_successful_path_length);
        if stats.successes == 0 {
            lemma_no_success_no_length(views);
        }
    }
    stats
}

} // verus!

