//! Helpers of the support tree construction.
use vstd::prelude::*;
use vstd::wrapping::u32_specs;

verus! {

/// The pair hash of two ids: the smaller one shifted up by 16 bits plus the
/// larger one, in 32-bit wrapping arithmetic, so that both orders of the
/// pair give the same value.
pub open spec fn spec_pairhash(a: u32, b: u32) -> u32 {
    let g = if a <= b {
        a
    } else {
        b
    };
    let l = if a <= b {
        b
    } else {
        a
    };
    u32_specs::wrapping_add(u32_specs::wrapping_shl(g, 16), l)
}

/// A hash of an unordered pair of ids; unique when both ids fit in 16 bits.
pub fn pairhash(a: u32, b: u32) -> (r: u32)
    ensures
        r == spec_pairhash(a, b),
{
    let g = if a <= b {
        a
    } else {
        b
    };
    let l = if a <= b {
        b
    } else {
        a
    };
    g.wrapping_shl(16).wrapping_add(l)
}

/// The order of the pair does not matter.
pub proof fn lemma_pairhash_symmetric(a: u32, b: u32)
    ensures
        spec_pairhash(a, b) == spec_pairhash(b, a),
{
}

/// Pairs of 16-bit ids get distinct hashes.
pub proof fn lemma_pairhash_injective(a: u32, b: u32, c: u32, d: u32)
    requires
        a <= b,
        c <= d,
        b < 0x1_0000,
        d < 0x1_0000,
        spec_pairhash(a, b) == spec_pairhash(c, d),
    ensures
        a == c && b == d,
{
    assert(u32_specs::wrapping_shl(a, 16) == a << 16u32);
    assert(u32_specs::wrapping_shl(c, 16) == c << 16u32);
    assert((a << 16u32) + b == (c << 16u32) + d && (a << 16u32) + b <= u32::MAX ==> a == c && b
        == d) by (bit_vector)
        requires
            a <= b,
            c <= d,
            b < 0x1_0000,
            d < 0x1_0000,
    ;
    assert((a << 16u32) + b <= u32::MAX) by (bit_vector)
        requires
            a <= b,
            b < 0x1_0000,
    ;
    assert((c << 16u32) + d <= u32::MAX) by (bit_vector)
        requires
            c <= d,
            d < 0x1_0000,
    ;
}


/// The steps of building a support tree, in the order they run.
#[derive(Clone, Copy, Debug, PartialEq, Eq, Structural)]
pub enum BuildStep {
    Begin,
    Filter,
    Pinheads,
    Classify,
    RoutingGround,
    RoutingNonground,
    CascadePillars,
    MergeResult,
    Done,
    Abort,
}

/// The step after `pc` when nothing stops the build; `Done` and `Abort`
/// stay where they are.
pub open spec fn successor(pc: BuildStep) -> BuildStep {
    match pc {
        BuildStep::Begin => BuildStep::Filter,
        BuildStep::Filter => BuildStep::Pinheads,
        BuildStep::Pinheads => BuildStep::Classify,
        BuildStep::Classify => BuildStep::RoutingGround,
        BuildStep::RoutingGround => BuildStep::RoutingNonground,
        BuildStep::RoutingNonground => BuildStep::CascadePillars,
        BuildStep::CascadePillars => BuildStep::MergeResult,
        BuildStep::MergeResult => BuildStep::Done,
        BuildStep::Done => BuildStep::Done,
        BuildStep::Abort => BuildStep::Abort,
    }
}

/// The progress, in percent, reported when a step is entered.
pub open spec fn step_state(pc: BuildStep) -> u32 {
    match pc {
        BuildStep::Begin => 0,
        BuildStep::Filter => 10,
        BuildStep::Pinheads => 30,
        BuildStep::Classify => 50,
        BuildStep::RoutingGround => 60,
        BuildStep::RoutingNonground => 70,
        BuildStep::CascadePillars => 80,
        BuildStep::MergeResult => 99,
        BuildStep::Done => 100,
        BuildStep::Abort => 0,
    }
}

/// The message reported when a step is entered.
pub open spec fn step_text(pc: BuildStep) -> Seq<char> {
    match pc {
        BuildStep::Begin => "Starting"@,
        BuildStep::Filter => "Filtering"@,
        BuildStep::Pinheads => "Generate pinheads"@,
        BuildStep::Classify => "Classification"@,
        BuildStep::RoutingGround => "Routing to ground"@,
        BuildStep::RoutingNonground => "Routing supports to model surface"@,
        BuildStep::CascadePillars => "Interconnecting pillars"@,
        BuildStep::MergeResult => "Merging support mesh"@,
        BuildStep::Done => "Done"@,
        BuildStep::Abort => "Abort"@,
    }
}

/// One move of the build automaton from step `pc`: to `Abort` when the stop
/// condition holds, else to the successor; with the progress of the step
/// moved to.
pub open spec fn build_step_spec(pc: BuildStep, stop: bool) -> (BuildStep, u32) {
    let next = if stop {
        BuildStep::Abort
    } else {
        successor(pc)
    };
    (next, step_state(next))
}

/// The step the build moves to from `pc`, given whether the stop condition
/// holds, and the progress to report for it.
pub fn next_build_step(pc: BuildStep, stop: bool) -> (r: (BuildStep, u32))
    ensures
        r == build_step_spec(pc, stop),
{
    let next = if stop {
        BuildStep::Abort
    } else {
        match pc {
            BuildStep::Begin => BuildStep::Filter,
            BuildStep::Filter => BuildStep::Pinheads,
            BuildStep::Pinheads => BuildStep::Classify,
            BuildStep::Classify => BuildStep::RoutingGround,
            BuildStep::RoutingGround => BuildStep::RoutingNonground,
            BuildStep::RoutingNonground => BuildStep::CascadePillars,
            BuildStep::CascadePillars => BuildStep::MergeResult,
            BuildStep::MergeResult => BuildStep::Done,
            BuildStep::Done => BuildStep::Done,
            BuildStep::Abort => BuildStep::Abort,
        }
    };
    let state: u32 = match next {
        BuildStep::Begin => 0,
        BuildStep::Filter => 10,
        BuildStep::Pinheads => 30,
        BuildStep::Classify => 50,
        BuildStep::RoutingGround => 60,
        BuildStep::RoutingNonground => 70,
        BuildStep::CascadePillars => 80,
        BuildStep::MergeResult => 99,
        BuildStep::Done => 100,
        BuildStep::Abort => 0,
    };
    (next, state)
}

/// The message to report on entering step `pc`.
pub fn step_message(pc: BuildStep) -> (r: &'static str)
    ensures
        r@ == step_text(pc),
{
    match pc {
        BuildStep::Begin => "Starting",
        BuildStep::Filter => "Filtering",
        BuildStep::Pinheads => "Generate pinheads",
        BuildStep::Classify => "Classification",
        BuildStep::RoutingGround => "Routing to ground",
        BuildStep::RoutingNonground => "Routing supports to model surface",
        BuildStep::CascadePillars => "Interconnecting pillars",
        BuildStep::MergeResult => "Merging support mesh",
        BuildStep::Done => "Done",
        BuildStep::Abort => "Abort",
    }
}

/// Whether the build still has steps to run: it runs until `Done` or
/// `Abort`.
pub fn build_running(pc: BuildStep) -> (r: bool)
    ensures
        r == !(pc == BuildStep::Done || pc == BuildStep::Abort),
{
    match pc {
        BuildStep::Done | BuildStep::Abort => false,
        _ => true,
    }
}

/// The position of a step in the run; `Done` and `Abort` come last.
pub open spec fn step_rank(pc: BuildStep) -> int {
    match pc {
        BuildStep::Begin => 0,
        BuildStep::Filter => 1,
        BuildStep::Pinheads => 2,
        BuildStep::Classify => 3,
        BuildStep::RoutingGround => 4,
        BuildStep::RoutingNonground => 5,
        BuildStep::CascadePillars => 6,
        BuildStep::MergeResult => 7,
        BuildStep::Done => 8,
        BuildStep::Abort => 8,
    }
}

/// The build always ends: every move from a running step goes strictly
/// forward, and at most 8 moves lead from `Begin` to `Done` or `Abort`.
/// Without a stop, the moves from `Begin` report 10, 30, 50, 60, 70, 80, 99
/// and 100 percent and end at `Done`.
pub proof fn lemma_build_steps_end(pc: BuildStep, stop: bool)
    requires
        !(pc == BuildStep::Done || pc == BuildStep::Abort),
    ensures
        step_rank(build_step_spec(pc, stop).0) > step_rank(pc),
        step_rank(build_step_spec(pc, stop).0) <= 8,
        step_rank(build_step_spec(pc, stop).0) == 8 ==> (build_step_spec(pc, stop).0 == BuildStep::Done
            || build_step_spec(pc, stop).0 == BuildStep::Abort),
        stop ==> build_step_spec(pc, stop) == (BuildStep::Abort, 0u32),
        !stop ==> step_rank(build_step_spec(pc, stop).0) == step_rank(pc) + 1,
{
}

} // verus!
