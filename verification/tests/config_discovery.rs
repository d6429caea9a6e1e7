//! The configuration walk driven against made-up directory chains.

use mdwright::config_discovery::{
    discovery_start, discovery_step, ConfigCandidate, DiscoveryAction, DiscoveryStage, DiscoveryState, ProbeAnswer,
};

#[derive(Clone, Copy, Default)]
struct Dir {
    dot: bool,
    plain: bool,
    pyproject: Option<bool>,
    git: bool,
}

/// Runs the walk over `chain` (start directory first) and returns where it
/// ended and the probes it asked for on the way.
fn run(chain: &[Dir]) -> (DiscoveryAction, Vec<DiscoveryAction>) {
    let (mut state, mut action) = discovery_start(chain.len());
    let mut asked = Vec::new();
    loop {
        let answer = match action {
            DiscoveryAction::Probe { depth, candidate } => {
                let d = chain[depth];
                match candidate {
                    ConfigCandidate::DotMdwright if d.dot => ProbeAnswer::Present,
                    ConfigCandidate::Mdwright if d.plain => ProbeAnswer::Present,
                    ConfigCandidate::PyprojectTable => match d.pyproject {
                        Some(true) => ProbeAnswer::Present,
                        Some(false) => ProbeAnswer::PyprojectWithoutTable,
                        None => ProbeAnswer::Absent,
                    },
                    _ => ProbeAnswer::Absent,
                }
            }
            DiscoveryAction::ProbeGit { depth } => {
                if chain[depth].git {
                    ProbeAnswer::Present
                } else {
                    ProbeAnswer::Absent
                }
            }
            done => return (done, asked),
        };
        asked.push(action);
        (state, action) = discovery_step(state, answer);
    }
}

#[test]
fn discovery_starts_with_dot_file_in_start_directory() {
    let (state, action) = discovery_start(3);
    assert_eq!(state, DiscoveryState { depth: 0, stage: DiscoveryStage::Dot, ancestors: 3 });
    assert_eq!(action, DiscoveryAction::Probe { depth: 0, candidate: ConfigCandidate::DotMdwright });
}

#[test]
fn discovery_prefers_dot_file_over_plain_and_pyproject() {
    let chain = [Dir { dot: true, plain: true, pyproject: Some(true), git: false }];
    let (end, asked) = run(&chain);
    assert_eq!(end, DiscoveryAction::Load { depth: 0, candidate: ConfigCandidate::DotMdwright });
    assert_eq!(asked.len(), 1);
}

#[test]
fn discovery_prefers_plain_file_over_pyproject() {
    let chain = [Dir { plain: true, pyproject: Some(true), ..Dir::default() }];
    let (end, _) = run(&chain);
    assert_eq!(end, DiscoveryAction::Load { depth: 0, candidate: ConfigCandidate::Mdwright });
}

#[test]
fn discovery_pyproject_without_table_keeps_walking() {
    let chain = [
        Dir { pyproject: Some(false), ..Dir::default() },
        Dir { pyproject: Some(true), ..Dir::default() },
    ];
    let (end, asked) = run(&chain);
    assert_eq!(end, DiscoveryAction::Load { depth: 1, candidate: ConfigCandidate::PyprojectTable });
    assert_eq!(
        asked,
        vec![
            DiscoveryAction::Probe { depth: 0, candidate: ConfigCandidate::DotMdwright },
            DiscoveryAction::Probe { depth: 0, candidate: ConfigCandidate::Mdwright },
            DiscoveryAction::Probe { depth: 0, candidate: ConfigCandidate::PyprojectTable },
            DiscoveryAction::ProbeGit { depth: 0 },
            DiscoveryAction::Probe { depth: 1, candidate: ConfigCandidate::DotMdwright },
            DiscoveryAction::Probe { depth: 1, candidate: ConfigCandidate::Mdwright },
            DiscoveryAction::Probe { depth: 1, candidate: ConfigCandidate::PyprojectTable },
        ]
    );
}

#[test]
fn discovery_stops_at_git_boundary() {
    let chain = [Dir::default(), Dir { git: true, ..Dir::default() }, Dir { dot: true, ..Dir::default() }];
    let (end, _) = run(&chain);
    assert_eq!(end, DiscoveryAction::Defaults);
}

#[test]
fn discovery_reads_config_in_the_git_directory_itself() {
    let chain = [Dir::default(), Dir { plain: true, git: true, ..Dir::default() }];
    let (end, _) = run(&chain);
    assert_eq!(end, DiscoveryAction::Load { depth: 1, candidate: ConfigCandidate::Mdwright });
}

#[test]
fn discovery_ends_with_defaults_above_the_root() {
    let chain = [Dir::default(), Dir { pyproject: Some(false), ..Dir::default() }, Dir::default()];
    let (end, asked) = run(&chain);
    assert_eq!(end, DiscoveryAction::Defaults);
    assert_eq!(asked.len(), 12);
}

#[test]
fn discovery_finished_walk_repeats_its_outcome() {
    let (state, action) = discovery_start(1);
    let (state, action2) = discovery_step(state, ProbeAnswer::Present);
    assert_eq!(action, DiscoveryAction::Probe { depth: 0, candidate: ConfigCandidate::DotMdwright });
    let load = DiscoveryAction::Load { depth: 0, candidate: ConfigCandidate::DotMdwright };
    assert_eq!(action2, load);
    let (_, again) = discovery_step(state, ProbeAnswer::Absent);
    assert_eq!(again, load);
}

#[test]
fn discovery_with_no_directories_uses_defaults() {
    let (_, action) = discovery_start(0);
    assert_eq!(action, DiscoveryAction::Defaults);
}
