use std::collections::VecDeque;

use bazel_language_server::actor::{
    coalesce_refreshes, drain, is_runnable_verb, preserve_refresh, ActorAction, ActorEvent, ActorState,
    CatalogOutcome, Message, Operation, ProbeOutcome,
};
use bazel_language_server::bazel::{BazelConfig, Version};

#[test]
fn stop_and_refresh_supersede_a_result() {
    for message in [
        Message::Stop,
        Message::Refresh,
        Message::Configure(BazelConfig::default()),
        Message::Run {
            verb: "build".to_owned(),
            label: "//:all".to_owned(),
        },
    ] {
        assert!(message.supersedes(Operation::Refresh));
    }
}

#[test]
fn only_configuration_and_stop_supersede_a_probe() {
    assert!(Message::Stop.supersedes(Operation::Probe));
    assert!(Message::Configure(BazelConfig::default()).supersedes(Operation::Probe));
    assert!(!Message::Refresh.supersedes(Operation::Probe));
    assert!(!Message::Run { verb: "run".to_owned(), label: "//:x".to_owned() }
        .supersedes(Operation::Probe));
}

#[test]
fn only_the_last_refresh_in_a_burst_survives() {
    let mut pending = VecDeque::from([
        Message::Refresh,
        Message::Run {
            verb: "build".to_owned(),
            label: "//:one".to_owned(),
        },
        Message::Refresh,
        Message::Run {
            verb: "test".to_owned(),
            label: "//:two".to_owned(),
        },
    ]);
    coalesce_refreshes(&mut pending);
    assert_eq!(pending.len(), 3);
    assert!(matches!(pending[0], Message::Run { .. }));
    assert!(matches!(pending[1], Message::Refresh));
    assert!(matches!(pending[2], Message::Run { .. }));
}

#[test]
fn stop_discards_every_pending_operation() {
    let arrived = VecDeque::from([
        Message::Refresh,
        Message::Run {
            verb: "build".to_owned(),
            label: "//:one".to_owned(),
        },
        Message::Stop,
    ]);
    let mut pending = VecDeque::new();
    drain(arrived, &mut pending);
    assert_eq!(pending.len(), 1);
    assert!(matches!(pending[0], Message::Stop));
}

#[test]
fn a_drain_without_a_stop_coalesces() {
    let mut pending = VecDeque::from([Message::Refresh]);
    drain(VecDeque::from([Message::Refresh, Message::Refresh]), &mut pending);
    assert_eq!(pending.len(), 1);
    assert!(matches!(pending[0], Message::Refresh));
}

#[test]
fn supersession_preserves_one_refresh() {
    let mut pending = VecDeque::from([Message::Configure(BazelConfig::default())]);
    preserve_refresh(&mut pending);
    assert_eq!(pending.len(), 2);
    assert!(matches!(pending[0], Message::Configure(_)));
    assert!(matches!(pending[1], Message::Refresh));
    preserve_refresh(&mut pending);
    assert_eq!(pending.len(), 2);
    let mut stopping = VecDeque::from([Message::Stop]);
    preserve_refresh(&mut stopping);
    assert_eq!(stopping.len(), 1);
}

#[test]
fn only_build_run_and_test_are_runnable() {
    assert!(is_runnable_verb("build"));
    assert!(is_runnable_verb("run"));
    assert!(is_runnable_verb("test"));
    assert!(!is_runnable_verb("query"));
    assert!(!is_runnable_verb(""));
}

fn configured_state(connected: bool) -> ActorState {
    let mut state = ActorState::new(true);
    state.config = Some(BazelConfig::default());
    state.connected = connected;
    state
}

#[test]
fn an_identical_configuration_changes_nothing() {
    let mut state = configured_state(true);
    let actions = state.step(ActorEvent::Received(Message::Configure(BazelConfig::default())));
    assert!(actions.is_empty());
    assert!(state.connected);
    assert!(state.pending.is_empty());
}

#[test]
fn a_new_configuration_clears_then_probes() {
    let mut state = configured_state(true);
    let next = BazelConfig { path: "bazelisk".to_string(), ..BazelConfig::default() };
    let actions = state.step(ActorEvent::Received(Message::Configure(next)));
    assert_eq!(actions.len(), 4);
    assert!(matches!(actions[0], ActorAction::Disconnect));
    assert!(matches!(actions[1], ActorAction::ClearTiers));
    assert!(matches!(actions[2], ActorAction::ClearCatalog));
    assert!(matches!(&actions[3], ActorAction::Probe(c) if c.path == "bazelisk"));
    assert!(!state.connected);
    assert_eq!(state.config.as_ref().map(|c| c.path.as_str()), Some("bazel"));

    let mut rootless = ActorState::new(false);
    let actions = rootless.step(ActorEvent::Received(Message::Configure(BazelConfig::default())));
    assert_eq!(actions.len(), 3);
    assert_eq!(rootless.config, Some(BazelConfig::default()));
}

#[test]
fn a_disabled_configuration_runs_nothing() {
    let mut state = configured_state(true);
    let disabled = BazelConfig { enable: false, ..BazelConfig::default() };
    let actions = state.step(ActorEvent::Received(Message::Configure(disabled.clone())));
    assert_eq!(actions.len(), 3);
    assert!(!actions.iter().any(|a| matches!(a, ActorAction::Probe(_))));
    assert!(!state.connected);
    assert_eq!(state.config, Some(disabled.clone()));
    // Taking the same disabled configuration again changes nothing.
    assert!(state.step(ActorEvent::Received(Message::Configure(disabled))).is_empty());
}

#[test]
fn bazel_8_7_reads_its_flag_catalog_before_connecting() {
    let mut state = ActorState::new(true);
    let actions = state.step(ActorEvent::Probed {
        config: BazelConfig::default(),
        outcome: ProbeOutcome::Found(Version::new(8, 7, 0)),
    });
    assert!(matches!(actions.as_slice(), [ActorAction::ReadCatalog]));
    assert!(!state.connected);
    let actions = state.step(ActorEvent::CatalogRead(CatalogOutcome::Read));
    assert!(matches!(actions.as_slice(), [ActorAction::StoreCatalog, ActorAction::Connect]));
    assert!(state.connected);
    assert!(matches!(state.pending.iter().collect::<Vec<_>>().as_slice(), [Message::Refresh]));
}

#[test]
fn another_release_connects_at_once() {
    let mut state = ActorState::new(true);
    state.pending.push_back(Message::Refresh);
    let actions = state.step(ActorEvent::Probed {
        config: BazelConfig::default(),
        outcome: ProbeOutcome::Found(Version::new(9, 0, 0)),
    });
    assert!(matches!(actions.as_slice(), [ActorAction::Connect]));
    assert!(state.connected);
    assert_eq!(state.pending.len(), 1);
    let failed = state.step(ActorEvent::Probed { config: BazelConfig::default(), outcome: ProbeOutcome::Failed });
    assert!(failed.is_empty());
    assert!(!state.connected);
}

#[test]
fn without_a_client_runs_and_refreshes_do_nothing() {
    let mut state = ActorState::new(true);
    let run = state.step(ActorEvent::Received(Message::Run { verb: "build".to_string(), label: "//:a".to_string() }));
    assert!(run.is_empty());
    let refresh = state.step(ActorEvent::Received(Message::Refresh));
    assert!(matches!(refresh.as_slice(), [ActorAction::ClearTiers]));
    let stop = state.step(ActorEvent::Received(Message::Stop));
    assert!(matches!(stop.as_slice(), [ActorAction::Stop]));
}

#[test]
fn a_superseded_refresh_is_queued_again() {
    let mut state = configured_state(true);
    let actions = state.step(ActorEvent::Refreshed { superseded: true });
    assert!(actions.is_empty());
    assert!(matches!(state.pending.iter().collect::<Vec<_>>().as_slice(), [Message::Refresh]));
    let actions = state.step(ActorEvent::Refreshed { superseded: false });
    assert!(matches!(actions.as_slice(), [ActorAction::Publish]));
    assert!(state.next_pending().is_some());
    assert!(state.next_pending().is_none());
}

#[test]
fn superseded_work_changes_nothing() {
    let mut state = configured_state(true);
    state.pending.push_back(Message::Refresh);
    let probed = state.step(ActorEvent::Probed {
        config: BazelConfig { path: "other".to_string(), ..BazelConfig::default() },
        outcome: ProbeOutcome::Superseded,
    });
    assert!(probed.is_empty());
    let read = state.step(ActorEvent::CatalogRead(CatalogOutcome::Superseded));
    assert!(read.is_empty());
    assert!(state.connected);
    assert_eq!(state.config, Some(BazelConfig::default()));
    assert_eq!(state.pending.len(), 1);
}

#[test]
fn an_interrupted_refresh_behind_a_stop_queues_nothing() {
    let mut state = configured_state(true);
    state.pending.push_back(Message::Stop);
    let actions = state.step(ActorEvent::Refreshed { superseded: true });
    assert!(actions.is_empty());
    assert!(matches!(state.pending.iter().collect::<Vec<_>>().as_slice(), [Message::Stop]));
}
