//! Continuous-integration gate: architecture health checked against
//! thresholds.

use vstd::prelude::*;
use crate::model::CodeGraph;
use crate::nav::health::{health, HealthReport};
use crate::query::index::total_weight;
use crate::text::owned;

verus! {

/// One threshold: its name, the measured value, the threshold, and
/// whether the value is within it.
pub struct ThresholdCheck {
    pub name: String,
    pub passed: bool,
    pub actual: usize,
    pub threshold: usize,
}

/// The outcome of a CI run: whether all thresholds hold, the result of each
/// threshold, how many held and how many did not, and the health label.
pub struct CiReport {
    pub passed: bool,
    pub checks: Vec<ThresholdCheck>,
    pub passed_count: usize,
    pub failed_count: usize,
    pub total: usize,
    pub health_label: String,
}

/// Whether check `c` has this name, value and threshold, and passes as
/// given.
pub open spec fn check_is(c: ThresholdCheck, name: Seq<char>, actual: nat, threshold: nat, passed: bool) -> bool {
    c.name@ == name && c.actual == actual && c.threshold == threshold && c.passed == passed
}

fn threshold_check(name: &str, actual: usize, threshold: usize, passed: bool) -> (c: ThresholdCheck)
    ensures
        check_is(c, name@, actual as nat, threshold as nat, passed),
{
    ThresholdCheck { name: owned(name), passed, actual, threshold }
}

/// Check a graph's health (with every cycle, god module and dead symbol
/// counted) against the thresholds: a minimum health score, and maximum
/// numbers of module cycles, god modules and dead public symbols.
pub fn check(
    graph: &CodeGraph,
    min_health: u8,
    max_cycles: usize,
    max_god_modules: usize,
    max_dead_code: usize,
) -> (r: CiReport)
    requires
        2 * total_weight(graph.edges@) <= usize::MAX,
    ensures
        exists|h: HealthReport|
            #![trigger crate::nav::health::health_spec(graph, usize::MAX, h)]
            {
                let score = h.score as nat;
                let cycles = h.cycles@.len();
                let gods = h.god_modules@.len();
                let dead = h.dead_public@.len();
                let p0 = score >= min_health;
                let p1 = cycles <= max_cycles;
                let p2 = gods <= max_god_modules;
                let p3 = dead <= max_dead_code;
                &&& crate::nav::health::health_spec(graph, usize::MAX, h)
                &&& r.checks@.len() == 4
                &&& check_is(r.checks@[0], "min_health"@, score, min_health as nat, p0)
                &&& check_is(r.checks@[1], "max_cycles"@, cycles, max_cycles as nat, p1)
                &&& check_is(r.checks@[2], "max_god_modules"@, gods, max_god_modules as nat, p2)
                &&& check_is(r.checks@[3], "max_dead_code"@, dead, max_dead_code as nat, p3)
                &&& r.passed == (p0 && p1 && p2 && p3)
                &&& r.passed_count == (if p0 { 1int } else { 0int }) + (if p1 { 1int } else { 0int })
                    + (if p2 { 1int } else { 0int }) + (if p3 { 1int } else { 0int })
                &&& r.failed_count == 4 - r.passed_count
                &&& r.total == 4
                &&& r.health_label == h.label
            },
{
    let h = health(graph, usize::MAX);
    let score = h.score;
    let cycles = h.cycles.len();
    let gods = h.god_modules.len();
    let dead = h.dead_public.len();
    let p0 = score >= min_health as usize;
    let p1 = cycles <= max_cycles;
    let p2 = gods <= max_god_modules;
    let p3 = dead <= max_dead_code;
    proof {
        reveal_strlit("min_health");
        reveal_strlit("max_cycles");
        reveal_strlit("max_god_modules");
        reveal_strlit("max_dead_code");
    }
    let mut checks: Vec<ThresholdCheck> = Vec::new();
    checks.push(threshold_check("min_health", score, min_health as usize, p0));
    checks.push(threshold_check("max_cycles", cycles, max_cycles, p1));
    checks.push(threshold_check("max_god_modules", gods, max_god_modules, p2));
    checks.push(threshold_check("max_dead_code", dead, max_dead_code, p3));
    let mut passed_count: usize = 0;
    if p0 {
        passed_count = passed_count + 1;
    }
    if p1 {
        passed_count = passed_count + 1;
    }
    if p2 {
        passed_count = passed_count + 1;
    }
    if p3 {
        passed_count = passed_count + 1;
    }
    CiReport {
        passed: p0 && p1 && p2 && p3,
        checks,
        passed_count,
        failed_count: 4 - passed_count,
        total: 4,
        health_label: h.label,
    }
}

} // verus!
