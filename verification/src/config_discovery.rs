//! The upward walk that finds the project's configuration file.
//!
//! Starting at the working directory and moving to each parent in turn,
//! every directory is asked, in precedence order, for `.mdwright.toml`,
//! then `mdwright.toml`, then a `pyproject.toml` holding a
//! `[tool.mdwright]` table (one without that table does not stop the
//! walk). After a directory yields nothing, a `.git` entry in it ends the
//! walk: that directory is the workspace boundary. The walk also ends
//! above the last ancestor, the filesystem root.
//!
//! The walk is a state machine: [`discovery_start`] and [`discovery_step`]
//! decide which question to ask next from the answer to the previous one,
//! and the caller performs each probe on the filesystem and hands back a
//! [`ProbeAnswer`]. The walk ends with a [`DiscoveryAction::Load`] of one
//! candidate file, or with [`DiscoveryAction::Defaults`].

use vstd::prelude::*;

verus! {

/// One of the three configuration sources a directory may hold.
#[derive(Copy, Clone, Debug, PartialEq, Eq, Structural)]
pub enum ConfigCandidate {
    /// `.mdwright.toml`.
    DotMdwright,
    /// `mdwright.toml`.
    Mdwright,
    /// The `[tool.mdwright]` table of `pyproject.toml`.
    PyprojectTable,
}

/// What a probe found.
#[derive(Copy, Clone, Debug, PartialEq, Eq, Structural)]
pub enum ProbeAnswer {
    /// The probed file (or `.git` entry) is not there.
    Absent,
    /// The probed file (or `.git` entry) is there; for a `pyproject.toml`
    /// probe, it is there and holds a `[tool.mdwright]` table.
    Present,
    /// A `pyproject.toml` is there but holds no `[tool.mdwright]` table.
    PyprojectWithoutTable,
}

/// The next thing the walk needs.
#[derive(Copy, Clone, Debug, PartialEq, Eq, Structural)]
pub enum DiscoveryAction {
    /// Ask whether the ancestor `depth` levels up holds `candidate`.
    Probe { depth: usize, candidate: ConfigCandidate },
    /// Ask whether the ancestor `depth` levels up holds a `.git` entry.
    ProbeGit { depth: usize },
    /// The walk is over: read `candidate` in the ancestor `depth` levels up.
    Load { depth: usize, candidate: ConfigCandidate },
    /// The walk is over: no configuration applies, use the defaults.
    Defaults,
}

/// Which question the walk is waiting on in the current directory.
#[derive(Copy, Clone, Debug, PartialEq, Eq, Structural)]
pub enum DiscoveryStage {
    /// Waiting on the `.mdwright.toml` probe.
    Dot,
    /// Waiting on the `mdwright.toml` probe.
    Plain,
    /// Waiting on the `pyproject.toml` probe.
    Pyproject,
    /// Waiting on the `.git` probe.
    Git,
    /// The walk has ended with this action.
    Done(DiscoveryAction),
}

/// The state of an upward walk over `ancestors` directories (the start
/// directory counts as depth 0).
#[derive(Copy, Clone, Debug, PartialEq, Eq, Structural)]
pub struct DiscoveryState {
    pub depth: usize,
    pub stage: DiscoveryStage,
    pub ancestors: usize,
}

/// The probe for `candidate` in directory `depth`.
pub open spec fn probe(depth: usize, candidate: ConfigCandidate) -> DiscoveryAction {
    DiscoveryAction::Probe { depth, candidate }
}

/// Moving to the next directory up, or ending the walk above the root.
pub open spec fn climb(state: DiscoveryState) -> (DiscoveryState, DiscoveryAction) {
    if state.depth + 1 < state.ancestors {
        let depth = (state.depth + 1) as usize;
        (
            DiscoveryState { depth, stage: DiscoveryStage::Dot, ancestors: state.ancestors },
            probe(depth, ConfigCandidate::DotMdwright),
        )
    } else {
        finish(state, DiscoveryAction::Defaults)
    }
}

/// Ending the walk with `action`.
pub open spec fn finish(state: DiscoveryState, action: DiscoveryAction) -> (
    DiscoveryState,
    DiscoveryAction,
) {
    (DiscoveryState { stage: DiscoveryStage::Done(action), ..state }, action)
}

/// The walk's first state and question, over `ancestors` directories.
pub open spec fn discovery_first(ancestors: usize) -> (DiscoveryState, DiscoveryAction) {
    let state = DiscoveryState { depth: 0, stage: DiscoveryStage::Dot, ancestors };
    if ancestors == 0 {
        finish(state, DiscoveryAction::Defaults)
    } else {
        (state, probe(0, ConfigCandidate::DotMdwright))
    }
}

/// One transition: the state and the answer to its pending question give
/// the next state and the next question (or the end of the walk).
pub open spec fn discovery_next(state: DiscoveryState, answer: ProbeAnswer) -> (
    DiscoveryState,
    DiscoveryAction,
) {
    let d = state.depth;
    match state.stage {
        DiscoveryStage::Dot => if answer is Present {
            finish(state, DiscoveryAction::Load { depth: d, candidate: ConfigCandidate::DotMdwright })
        } else {
            (DiscoveryState { stage: DiscoveryStage::Plain, ..state }, probe(d, ConfigCandidate::Mdwright))
        },
        DiscoveryStage::Plain => if answer is Present {
            finish(state, DiscoveryAction::Load { depth: d, candidate: ConfigCandidate::Mdwright })
        } else {
            (
                DiscoveryState { stage: DiscoveryStage::Pyproject, ..state },
                probe(d, ConfigCandidate::PyprojectTable),
            )
        },
        DiscoveryStage::Pyproject => if answer is Present {
            finish(state, DiscoveryAction::Load { depth: d, candidate: ConfigCandidate::PyprojectTable })
        } else {
            (DiscoveryState { stage: DiscoveryStage::Git, ..state }, DiscoveryAction::ProbeGit { depth: d })
        },
        DiscoveryStage::Git => if answer is Present {
            finish(state, DiscoveryAction::Defaults)
        } else {
            climb(state)
        },
        DiscoveryStage::Done(action) => (state, action),
    }
}

/// The directory an action names, if any.
pub open spec fn action_depth(action: DiscoveryAction) -> Option<usize> {
    match action {
        DiscoveryAction::Probe { depth, .. } => Some(depth),
        DiscoveryAction::ProbeGit { depth } => Some(depth),
        DiscoveryAction::Load { depth, .. } => Some(depth),
        DiscoveryAction::Defaults => None,
    }
}

/// A walk state whose directory is one of its ancestors (or a finished walk).
pub open spec fn state_wf(state: DiscoveryState) -> bool {
    state.stage is Done || state.depth < state.ancestors
}

/// Every directory an action names is one of the `ancestors`.
pub open spec fn action_in_range(action: DiscoveryAction, ancestors: usize) -> bool {
    match action_depth(action) {
        Some(d) => d < ancestors,
        None => true,
    }
}

/// The first state and question of a walk over `ancestors` directories.
pub fn discovery_start(ancestors: usize) -> (r: (DiscoveryState, DiscoveryAction))
    ensures
        r == discovery_first(ancestors),
        state_wf(r.0),
        action_in_range(r.1, ancestors),
{
    let state = DiscoveryState { depth: 0, stage: DiscoveryStage::Dot, ancestors };
    if ancestors == 0 {
        let action = DiscoveryAction::Defaults;
        (DiscoveryState { stage: DiscoveryStage::Done(action), ..state }, action)
    } else {
        (state, DiscoveryAction::Probe { depth: 0, candidate: ConfigCandidate::DotMdwright })
    }
}

/// Feed the answer to the pending probe and get the next state and question.
pub fn discovery_step(state: DiscoveryState, answer: ProbeAnswer) -> (r: (DiscoveryState, DiscoveryAction))
    ensures
        r == discovery_next(state, answer),
        r.0.ancestors == state.ancestors,
        state_wf(state) && action_in_range(state_pending(state), state.ancestors) ==> state_wf(r.0)
            && action_in_range(r.1, state.ancestors),
{
    let d = state.depth;
    let present = match answer {
        ProbeAnswer::Present => true,
        _ => false,
    };
    match state.stage {
        DiscoveryStage::Dot => {
            if present {
                let action = DiscoveryAction::Load { depth: d, candidate: ConfigCandidate::DotMdwright };
                (DiscoveryState { stage: DiscoveryStage::Done(action), ..state }, action)
            } else {
                (
                    DiscoveryState { stage: DiscoveryStage::Plain, ..state },
                    DiscoveryAction::Probe { depth: d, candidate: ConfigCandidate::Mdwright },
                )
            }
        },
        DiscoveryStage::Plain => {
            if present {
                let action = DiscoveryAction::Load { depth: d, candidate: ConfigCandidate::Mdwright };
                (DiscoveryState { stage: DiscoveryStage::Done(action), ..state }, action)
            } else {
                (
                    DiscoveryState { stage: DiscoveryStage::Pyproject, ..state },
                    DiscoveryAction::Probe { depth: d, candidate: ConfigCandidate::PyprojectTable },
                )
            }
        },
        DiscoveryStage::Pyproject => {
            if present {
                let action = DiscoveryAction::Load { depth: d, candidate: ConfigCandidate::PyprojectTable };
                (DiscoveryState { stage: DiscoveryStage::Done(action), ..state }, action)
            } else {
                (DiscoveryState { stage: DiscoveryStage::Git, ..state }, DiscoveryAction::ProbeGit { depth: d })
            }
        },
        DiscoveryStage::Git => {
            if present {
                let action = DiscoveryAction::Defaults;
                (DiscoveryState { stage: DiscoveryStage::Done(action), ..state }, action)
            } else if state.ancestors > 0 && d < state.ancestors - 1 {
                let depth = d + 1;
                (
                    DiscoveryState { depth, stage: DiscoveryStage::Dot, ancestors: state.ancestors },
                    DiscoveryAction::Probe { depth, candidate: ConfigCandidate::DotMdwright },
                )
            } else {
                let action = DiscoveryAction::Defaults;
                (DiscoveryState { stage: DiscoveryStage::Done(action), ..state }, action)
            }
        },
        DiscoveryStage::Done(action) => (state, action),
    }
}

/// The question a state is waiting on: its stage's probe in its directory,
/// or the final action of a finished walk.
pub open spec fn state_pending(state: DiscoveryState) -> DiscoveryAction {
    match state.stage {
        DiscoveryStage::Dot => probe(state.depth, ConfigCandidate::DotMdwright),
        DiscoveryStage::Plain => probe(state.depth, ConfigCandidate::Mdwright),
        DiscoveryStage::Pyproject => probe(state.depth, ConfigCandidate::PyprojectTable),
        DiscoveryStage::Git => DiscoveryAction::ProbeGit { depth: state.depth },
        DiscoveryStage::Done(action) => action,
    }
}

// ============================================================
// The walk over a whole directory chain
// ============================================================

/// What a `pyproject.toml` probe can find in one directory.
#[derive(Copy, Clone, Debug, PartialEq, Eq, Structural)]
pub enum PyprojectProbe {
    Missing,
    WithoutTable,
    WithTable,
}

/// What one directory holds, as far as the walk asks.
#[derive(Copy, Clone, Debug, PartialEq, Eq, Structural)]
pub struct DirectoryProbes {
    pub dot: bool,
    pub plain: bool,
    pub pyproject: PyprojectProbe,
    pub git: bool,
}

pub open spec fn present_if(b: bool) -> ProbeAnswer {
    if b {
        ProbeAnswer::Present
    } else {
        ProbeAnswer::Absent
    }
}

/// The answer a chain of directories (the start directory first, then
/// each parent) gives to a probe.
pub open spec fn answer_in(chain: Seq<DirectoryProbes>, action: DiscoveryAction) -> ProbeAnswer {
    match action {
        DiscoveryAction::Probe { depth, candidate } => if depth < chain.len() {
            let p = chain[depth as int];
            match candidate {
                ConfigCandidate::DotMdwright => present_if(p.dot),
                ConfigCandidate::Mdwright => present_if(p.plain),
                ConfigCandidate::PyprojectTable => match p.pyproject {
                    PyprojectProbe::Missing => ProbeAnswer::Absent,
                    PyprojectProbe::WithoutTable => ProbeAnswer::PyprojectWithoutTable,
                    PyprojectProbe::WithTable => ProbeAnswer::Present,
                },
            }
        } else {
            ProbeAnswer::Absent
        },
        DiscoveryAction::ProbeGit { depth } => present_if(depth < chain.len() && chain[depth as int].git),
        _ => ProbeAnswer::Absent,
    }
}

/// Running the machine against `chain` for at most `fuel` probes.
pub open spec fn walk(chain: Seq<DirectoryProbes>, state: DiscoveryState, action: DiscoveryAction, fuel: nat) -> DiscoveryAction
    decreases fuel,
{
    if fuel == 0 || action is Load || action is Defaults {
        action
    } else {
        let next = discovery_next(state, answer_in(chain, action));
        walk(chain, next.0, next.1, (fuel - 1) as nat)
    }
}

/// Where the whole walk over `chain` ends: four probes per directory suffice.
pub open spec fn walk_outcome(chain: Seq<DirectoryProbes>) -> DiscoveryAction {
    let first = discovery_first(chain.len() as usize);
    walk(chain, first.0, first.1, 4 * chain.len())
}

/// The directory holds one of the three configuration sources.
pub open spec fn has_config(p: DirectoryProbes) -> bool {
    p.dot || p.plain || p.pyproject is WithTable
}

/// The source a directory's configuration is read from, by precedence.
pub open spec fn preferred(p: DirectoryProbes) -> ConfigCandidate {
    if p.dot {
        ConfigCandidate::DotMdwright
    } else if p.plain {
        ConfigCandidate::Mdwright
    } else {
        ConfigCandidate::PyprojectTable
    }
}

/// Directory `i` is looked at: it is in the chain and no directory below
/// it holds `.git`.
pub open spec fn reached(chain: Seq<DirectoryProbes>, i: int) -> bool {
    0 <= i < chain.len() && forall|j: int| 0 <= j < i ==> !(#[trigger] chain[j]).git
}

/// The outcome of the walk from directory `d` up, directory by directory.
pub open spec fn outcome_from(chain: Seq<DirectoryProbes>, d: nat) -> DiscoveryAction
    decreases chain.len() - d,
{
    if d >= chain.len() {
        DiscoveryAction::Defaults
    } else {
        let p = chain[d as int];
        if has_config(p) {
            DiscoveryAction::Load { depth: d as usize, candidate: preferred(p) }
        } else if p.git {
            DiscoveryAction::Defaults
        } else {
            outcome_from(chain, d + 1)
        }
    }
}

proof fn lemma_walk_from(chain: Seq<DirectoryProbes>, d: nat, fuel: nat)
    requires
        d < chain.len() <= usize::MAX,
        fuel >= 4 * (chain.len() - d),
    ensures
        walk(
            chain,
            DiscoveryState { depth: d as usize, stage: DiscoveryStage::Dot, ancestors: chain.len() as usize },
            probe(d as usize, ConfigCandidate::DotMdwright),
            fuel,
        ) == outcome_from(chain, d),
    decreases chain.len() - d,
{
    reveal_with_fuel(walk, 2);
    let n = chain.len() as usize;
    let p = chain[d as int];
    let s0 = DiscoveryState { depth: d as usize, stage: DiscoveryStage::Dot, ancestors: n };
    let a0 = probe(d as usize, ConfigCandidate::DotMdwright);
    let s1 = DiscoveryState { stage: DiscoveryStage::Plain, ..s0 };
    let a1 = probe(d as usize, ConfigCandidate::Mdwright);
    let s2 = DiscoveryState { stage: DiscoveryStage::Pyproject, ..s0 };
    let a2 = probe(d as usize, ConfigCandidate::PyprojectTable);
    let s3 = DiscoveryState { stage: DiscoveryStage::Git, ..s0 };
    let a3 = DiscoveryAction::ProbeGit { depth: d as usize };
    assert(walk(chain, s0, a0, fuel) == if p.dot {
        DiscoveryAction::Load { depth: d as usize, candidate: ConfigCandidate::DotMdwright }
    } else {
        walk(chain, s1, a1, (fuel - 1) as nat)
    });
    if !p.dot {
        assert(walk(chain, s1, a1, (fuel - 1) as nat) == if p.plain {
            DiscoveryAction::Load { depth: d as usize, candidate: ConfigCandidate::Mdwright }
        } else {
            walk(chain, s2, a2, (fuel - 2) as nat)
        });
        if !p.plain {
            assert(walk(chain, s2, a2, (fuel - 2) as nat) == if p.pyproject is WithTable {
                DiscoveryAction::Load { depth: d as usize, candidate: ConfigCandidate::PyprojectTable }
            } else {
                walk(chain, s3, a3, (fuel - 3) as nat)
            });
            if !(p.pyproject is WithTable) {
                let next = discovery_next(s3, answer_in(chain, a3));
                assert(walk(chain, s3, a3, (fuel - 3) as nat) == walk(chain, next.0, next.1, (fuel - 4) as nat));
                if !p.git && d + 1 < chain.len() {
                    lemma_walk_from(chain, d + 1, (fuel - 4) as nat);
                }
            }
        }
    }
}

proof fn lemma_outcome_from(chain: Seq<DirectoryProbes>, d: nat)
    requires
        forall|j: int| 0 <= j < d ==> !(#[trigger] chain[j]).git && !has_config(chain[j]),
        d <= chain.len() <= usize::MAX,
    ensures
        outcome_from(chain, d) is Load || outcome_from(chain, d) is Defaults,
        outcome_from(chain, d) matches DiscoveryAction::Load { depth, candidate } ==> {
            &&& reached(chain, depth as int)
            &&& has_config(chain[depth as int])
            &&& candidate == preferred(chain[depth as int])
            &&& forall|j: int| 0 <= j < depth ==> !has_config(#[trigger] chain[j])
        },
        outcome_from(chain, d) is Defaults ==> forall|i: int| reached(chain, i) ==> !has_config(#[trigger] chain[i]),
    decreases chain.len() - d,
{
    if d < chain.len() {
        let p = chain[d as int];
        if !has_config(p) && !p.git {
            lemma_outcome_from(chain, d + 1);
        } else if !has_config(p) {
            assert forall|i: int| reached(chain, i) implies !has_config(#[trigger] chain[i]) by {
                if i > d {
                    assert(!chain[d as int].git);
                }
            }
        }
    }
}

/// The walk finds the nearest configuration: over any chain of
/// directories (the start directory first, then each parent up to the
/// root), it ends by loading, from the first directory that holds a
/// configuration source among those up to and including the first one
/// holding `.git`, its `.mdwright.toml`, else its `mdwright.toml`, else the
/// `[tool.mdwright]` table of its `pyproject.toml`; it ends with the
/// defaults when no such directory holds one.
pub proof fn law_discovery_finds_nearest(chain: Seq<DirectoryProbes>)
    requires
        chain.len() <= usize::MAX,
    ensures
        walk_outcome(chain) is Load || walk_outcome(chain) is Defaults,
        walk_outcome(chain) matches DiscoveryAction::Load { depth, candidate } ==> {
            &&& reached(chain, depth as int)
            &&& has_config(chain[depth as int])
            &&& candidate == preferred(chain[depth as int])
            &&& forall|j: int| 0 <= j < depth ==> !has_config(#[trigger] chain[j])
        },
        walk_outcome(chain) is Defaults <==> forall|i: int| reached(chain, i) ==> !has_config(
            #[trigger] chain[i],
        ),
{
    lemma_outcome_from(chain, 0);
    if chain.len() > 0 {
        lemma_walk_from(chain, 0, 4 * chain.len());
    }
    assert(walk_outcome(chain) == outcome_from(chain, 0));
}

} // verus!
