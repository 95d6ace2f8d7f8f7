use agentty::ids::{HostId, NavigatorRowId, WorkspaceId};
use agentty::nav::{
    is_discovery_timeout, is_timeout_report, IoErrorKind, SessionKeyboardCursor, SessionNavigatorScope,
    SessionRefreshIntent, SessionRefreshRequest, SessionRefreshState, SessionReorderUnit,
    SessionViewportProjection,
};
use agentty::rows::{
    begin_session_alias_edit, captured_delete_route, delete_landing, display_title,
    keeps_history_record, live_session_of, DeleteLanding, DeleteRoute, LiveSlot, SourcePlan,
    TitleCandidates, activation_plan, carrier_token_for_row, carrier_token_is_current, ensure_scan_step,
    live_carrier_row_for_activation, navigator_rows_share_session, needs_rebuild,
    apply_session_reorder, pending_carrier_step, reorder_rows_for, soft_close_token, ActivationStep, CarrierCloseOutcome,
    CarrierStep, LiveCarrier, NavigatorRow, RowLifecycle, ScanKick, SessionIdentity,
    SessionSearchDocumentId,
};
use agentty::nav::{NavigatorStash, ScanLanding, ScanReport, ScanResult};
use agentty::nav::{discovery_message, scan_error_message, scan_error_note, DiscoveryOutcome, ScanError, ScanNote};
use agentty::tray::CliAgent;

fn scope(workspace: u128, host: u64, environment: &str, path: &str) -> SessionNavigatorScope {
    SessionNavigatorScope::new(
        WorkspaceId(workspace),
        HostId(host),
        environment.to_string(),
        path.to_string(),
    )
}

fn carrier(container: &str, tab: &str, pane: u64) -> LiveCarrier {
    LiveCarrier {
        container_id: container.to_string(),
        tab_id: Some(tab.to_string()),
        pane_id: Some(pane),
    }
}

fn live_row(id: u64, session: &str, container: &str, tab: &str) -> NavigatorRow {
    NavigatorRow {
        row_id: NavigatorRowId(id),
        identity: SessionIdentity::Provider {
            provider: "codex".to_string(),
            session_id: session.to_string(),
        },
        agent: CliAgent::Codex,
        session_id: Some(session.to_string()),
        lifecycle: RowLifecycle::Live,
        carrier: Some(carrier(container, tab, id)),
    }
}

fn virtual_row(id: u64, session: &str) -> NavigatorRow {
    NavigatorRow {
        row_id: NavigatorRowId(id),
        identity: SessionIdentity::Provider {
            provider: "codex".to_string(),
            session_id: session.to_string(),
        },
        agent: CliAgent::Codex,
        session_id: Some(session.to_string()),
        lifecycle: RowLifecycle::Virtual,
        carrier: None,
    }
}

fn unit(ids: &[u64]) -> SessionReorderUnit {
    SessionReorderUnit {
        row_ids: ids.iter().map(|&i| NavigatorRowId(i)).collect(),
    }
}

#[test]
fn generic_terminal_events_do_not_scan_provider_history() {
    assert_eq!(SessionRefreshIntent::GenericTerminalEvent.explicit(), None);
    assert_eq!(SessionRefreshIntent::LayoutOnly.explicit(), None);
}

#[test]
fn discovery_timeout_maps_to_localized_scan_error() {
    let timed_out = std::io::Error::new(
        std::io::ErrorKind::TimedOut,
        "control request 7 timed out after 30s",
    );
    assert!(is_discovery_timeout(&timed_out));
    let other = std::io::Error::new(std::io::ErrorKind::ConnectionReset, "reset");
    assert!(!is_discovery_timeout(&other));
    assert!(is_discovery_timeout(&std::io::Error::new(
        std::io::ErrorKind::Other,
        "remote helper timed out while scanning",
    )));
}

#[test]
fn timeout_reports_read_kind_or_ascii_lowercased_message() {
    assert!(is_timeout_report(IoErrorKind::TimedOut, "anything"));
    assert!(is_timeout_report(IoErrorKind::Other, "Scan TIMED OUT"));
    assert!(!is_timeout_report(IoErrorKind::Other, "timed  out"));
    assert!(!is_timeout_report(IoErrorKind::Other, ""));
}

#[test]
fn source_mutation_and_agent_close_trigger_passive_refresh() {
    assert_eq!(
        SessionRefreshIntent::ProviderSourceMutation.explicit(),
        Some(false)
    );
    assert_eq!(
        SessionRefreshIntent::AgentCarrierClosed.explicit(),
        Some(false)
    );
    assert_eq!(SessionRefreshIntent::RemoteLinkUp.explicit(), Some(false));
    assert_eq!(SessionRefreshIntent::Explicit.explicit(), Some(true));
}

#[test]
fn passive_refreshes_coalesce_while_a_scan_is_running() {
    let mut state = SessionRefreshState::default();
    assert_eq!(state.request(false), SessionRefreshRequest::Start(1));
    assert_eq!(state.request(false), SessionRefreshRequest::Coalesced);
    assert_eq!(state.request(false), SessionRefreshRequest::Coalesced);
    assert_eq!(state.finish(1), Some(4));
    assert!(state.accepts(4));
    assert_eq!(state.finish(4), None);
}

#[test]
fn explicit_refresh_supersedes_the_inflight_generation() {
    let mut state = SessionRefreshState::default();
    assert_eq!(state.request(false), SessionRefreshRequest::Start(1));
    assert_eq!(state.request(true), SessionRefreshRequest::Start(2));
    assert!(!state.accepts(1));
    assert!(state.accepts(2));
    assert_eq!(state.finish(1), None);
    assert_eq!(state.finish(2), None);
}

#[test]
fn unavailable_remote_refresh_does_not_poison_link_up_refresh() {
    let mut state = SessionRefreshState::default();
    assert_eq!(state.request(false), SessionRefreshRequest::Start(1));
    state.abandon(1);
    assert!(!state.is_inflight());
    assert_eq!(state.request(false), SessionRefreshRequest::Start(2));
}

#[test]
fn connect_and_link_up_share_passive_refresh_intent() {
    assert_eq!(
        SessionRefreshIntent::InitialTargetReady.explicit(),
        Some(false)
    );
    assert_eq!(SessionRefreshIntent::RemoteLinkUp.explicit(), Some(false));
    let mut state = SessionRefreshState::default();
    assert_eq!(state.request(false), SessionRefreshRequest::Start(1));
    state.abandon(1);
    assert_eq!(
        state.request(
            SessionRefreshIntent::RemoteLinkUp
                .explicit()
                .expect("passive")
        ),
        SessionRefreshRequest::Start(2)
    );
}

#[test]
fn request_for_skips_intents_that_never_scan() {
    let mut state = SessionRefreshState::default();
    assert_eq!(state.request_for(SessionRefreshIntent::LayoutOnly), None);
    assert!(!state.is_inflight());
    assert_eq!(state.request_for(SessionRefreshIntent::Explicit), Some(1));
    assert_eq!(state.request_for(SessionRefreshIntent::RemoteLinkUp), None);
    assert_eq!(state.finish(1), Some(3));
}

#[test]
fn session_scan_retries_after_host_roots_become_ready() {
    // A scan failed and nothing runs: once the host's context resolves the
    // sidebar retries, as a link-up refresh.
    assert_eq!(
        ensure_scan_step(true, true, true, false, true),
        ScanKick::RetryAfterError
    );
    assert_eq!(
        ScanKick::RetryAfterError.intent(),
        Some(SessionRefreshIntent::RemoteLinkUp)
    );
    assert_eq!(ensure_scan_step(true, true, true, false, false), ScanKick::Idle);
    assert_eq!(ensure_scan_step(true, true, true, true, true), ScanKick::Idle);
    assert_eq!(ensure_scan_step(true, true, false, false, true), ScanKick::Idle);
}

#[test]
fn remote_session_discovery_waits_for_attach() {
    assert_eq!(ensure_scan_step(false, false, false, false, true), ScanKick::Idle);
    assert_eq!(ensure_scan_step(false, true, false, false, true), ScanKick::Initial);
    assert_eq!(
        ScanKick::Initial.intent(),
        Some(SessionRefreshIntent::InitialTargetReady)
    );
    assert_eq!(ScanKick::Idle.intent(), None);
}

#[test]
fn refresh_scope_requires_workspace_host_environment_and_alias_path() {
    let path = "/target/.config/agentty/session-aliases.json";
    let s = scope(7, 41, "local", path);
    assert!(s.matches(WorkspaceId(7), HostId(41), "local", path));
    assert!(!s.matches(WorkspaceId(8), HostId(41), "local", path));
    assert!(!s.matches(WorkspaceId(7), HostId(42), "local", path));
    assert!(!s.matches(WorkspaceId(7), HostId(41), "other", path));
    assert!(!s.matches(
        WorkspaceId(7),
        HostId(41),
        "local",
        "/other/session-aliases.json"
    ));
}

#[test]
fn navigator_scope_rejects_stale_completion_after_workspace_switch() {
    let scope_a = scope(1, 41, "local", "/a/.config/agentty/session-aliases.json");
    let scope_b = scope(2, 42, "remote-b", "/b/.config/agentty/session-aliases.json");
    let mut state = SessionRefreshState::default();
    assert_eq!(state.request(false), SessionRefreshRequest::Start(1));
    assert!(state.bind_scope(1, scope_a.clone()));
    assert!(state.accepts_scope(1, &scope_a));
    state.invalidate();
    assert!(!state.accepts_scope(1, &scope_a));
    assert_eq!(state.request(false), SessionRefreshRequest::Start(3));
    assert!(state.bind_scope(3, scope_b.clone()));
    assert!(!state.accepts_scope(3, &scope_a));
    assert!(state.accepts_scope(3, &scope_b));
}

#[test]
fn session_history_is_cleared_when_workspace_scope_changes() {
    // A workspace switch invalidates the navigator before rebinding: no
    // completion of the old workspace is accepted, nothing stays pending,
    // and the new workspace starts its own initial scan.
    let old = scope(1, 41, "local", "/a/aliases.json");
    let mut state = SessionRefreshState::default();
    assert_eq!(state.request(false), SessionRefreshRequest::Start(1));
    assert!(state.bind_scope(1, old.clone()));
    assert_eq!(state.request(false), SessionRefreshRequest::Coalesced);
    state.invalidate();
    assert!(!state.is_inflight());
    assert!(!state.accepts(1));
    assert_eq!(state.finish(1), None);
    let start = state.request_for(SessionRefreshIntent::InitialTargetReady);
    assert_eq!(start, Some(4));
    assert!(!state.bind_scope(1, old.clone()));
    assert!(state.bind_scope(4, scope(2, 42, "remote", "/b/aliases.json")));
}

#[test]
fn rebuild_session_navigator_gates_on_input_fingerprint() {
    assert!(needs_rebuild(None, 7));
    assert!(!needs_rebuild(Some(7), 7));
    assert!(needs_rebuild(Some(7), 8));
}

#[test]
fn keyboard_cursor_uses_row_identity_not_list_index() {
    let (a, b, c) = (NavigatorRowId(1), NavigatorRowId(2), NavigatorRowId(3));
    let mut cursor = SessionKeyboardCursor::default();
    assert_eq!(cursor.move_by(&[a, b, c], 1), Some(a));
    assert_eq!(cursor.move_by(&[c, a, b], 1), Some(b));
    assert_eq!(cursor.current(), Some(&b));
}

#[test]
fn enter_activates_filtered_cursor_and_escape_clears_transient_state() {
    let a = NavigatorRowId(1);
    let b = NavigatorRowId(2);
    let mut cursor = SessionKeyboardCursor::default();
    cursor.move_by(&[a, b], 1);
    cursor.move_by(&[b], 1);
    assert_eq!(cursor.activation_target(&[b]), Some(b));
    cursor.clear();
    assert!(cursor.current().is_none());
}

#[test]
fn cursor_moves_clamp_at_the_ends_and_normalize_to_visible_rows() {
    let ids = [NavigatorRowId(1), NavigatorRowId(2), NavigatorRowId(3)];
    let mut cursor = SessionKeyboardCursor::default();
    assert_eq!(cursor.move_by(&ids, -1), Some(ids[2]));
    assert_eq!(cursor.move_by(&ids, 5), Some(ids[2]));
    assert_eq!(cursor.move_by(&ids, -9), Some(ids[0]));
    cursor.normalize(&ids[1..]);
    assert!(cursor.current().is_none());
    assert_eq!(cursor.move_by(&[], 1), None);
    assert!(cursor.current().is_none());
}

#[test]
fn viewport_projection_keeps_split_siblings_as_one_unit() {
    let units = vec![unit(&[1]), unit(&[2, 3]), unit(&[4])];
    let projection = SessionViewportProjection::new(&units, &[NavigatorRowId(3)]);
    assert_eq!(projection.len(), 1);
    assert_eq!(
        projection.unit(0).unwrap().row_ids,
        vec![NavigatorRowId(2), NavigatorRowId(3)]
    );
    assert_eq!(projection.unit_index_for_row(&NavigatorRowId(2)), Some(0));
    assert_eq!(projection.unit_index_for_row(&NavigatorRowId(1)), None);
    let all = SessionViewportProjection::new(
        &units,
        &[NavigatorRowId(1), NavigatorRowId(2), NavigatorRowId(4)],
    );
    assert_eq!(
        all.row_ids(),
        vec![
            NavigatorRowId(1),
            NavigatorRowId(2),
            NavigatorRowId(3),
            NavigatorRowId(4)
        ]
    );
    assert_eq!(all.truncated(2).len(), 2);
    assert!(SessionViewportProjection::new(&units, &[]).is_empty());
}

#[test]
fn viewport_splice_delta_is_the_changed_middle() {
    let before = SessionViewportProjection::new(
        &vec![unit(&[1]), unit(&[2]), unit(&[3]), unit(&[4])],
        &[
            NavigatorRowId(1),
            NavigatorRowId(2),
            NavigatorRowId(3),
            NavigatorRowId(4),
        ],
    );
    let after = SessionViewportProjection::new(
        &vec![unit(&[1]), unit(&[5]), unit(&[6]), unit(&[3]), unit(&[4])],
        &[
            NavigatorRowId(1),
            NavigatorRowId(5),
            NavigatorRowId(6),
            NavigatorRowId(3),
            NavigatorRowId(4),
        ],
    );
    let (range, count) = after.splice_delta(&before);
    assert_eq!(range, 1..2);
    assert_eq!(count, 2);
    let (same, none) = before.splice_delta(&before);
    assert_eq!(same, 4..4);
    assert_eq!(none, 0);
}

#[test]
fn session_search_identity_combines_environment_and_row_id() {
    let a = SessionSearchDocumentId::new("local".to_string(), NavigatorRowId(1));
    let b = SessionSearchDocumentId::new("remote".to_string(), NavigatorRowId(1));
    assert_eq!(a.row_id(), b.row_id());
    assert_ne!(a, b);
    assert_eq!(a.environment(), "local");
    assert_eq!(
        a,
        SessionSearchDocumentId::new("local".to_string(), NavigatorRowId(1))
    );
}

#[test]
fn rows_share_a_session_by_row_identity_or_provider_session() {
    let a = live_row(1, "s1", "c1", "t1");
    let b = virtual_row(2, "s1");
    let c = virtual_row(3, "s2");
    assert!(navigator_rows_share_session(&a, &b));
    assert!(!navigator_rows_share_session(&a, &c));
    assert!(navigator_rows_share_session(&c, &c));
}

#[test]
fn activate_virtual_while_live_exists_focuses_existing_tab() {
    let live = live_row(1, "s1", "c1", "tab-b");
    let history = virtual_row(2, "s1");
    let rows = vec![live.clone(), history.clone()];
    assert_eq!(
        live_carrier_row_for_activation(&rows, &history).map(|r| r.row_id),
        Some(NavigatorRowId(1))
    );
    let tabs = vec!["tab-a".to_string(), "tab-b".to_string()];
    let plan = activation_plan(&rows, NavigatorRowId(2), &tabs).unwrap();
    assert_eq!(plan.selected, NavigatorRowId(1));
    assert_eq!(plan.step, ActivationStep::FocusTab(1));
    let alone = vec![virtual_row(3, "s9")];
    let restore = activation_plan(&alone, NavigatorRowId(3), &tabs).unwrap();
    assert_eq!(restore.step, ActivationStep::Restore);
    let gone = vec![live_row(4, "s4", "c4", "tab-z")];
    let missing = activation_plan(&gone, NavigatorRowId(4), &tabs).unwrap();
    assert_eq!(missing.step, ActivationStep::CarrierMissing);
    assert!(activation_plan(&gone, NavigatorRowId(9), &tabs).is_none());
}

#[test]
fn split_navigator_soft_close_targets_only_selected_carrier() {
    let here = scope(1, 41, "local", "/a");
    let rows = vec![live_row(1, "s1", "c1", "tab"), live_row(2, "s2", "c2", "tab")];
    let token = soft_close_token(&rows, NavigatorRowId(2), here.clone()).expect("live row");
    assert_eq!(token.row_id, NavigatorRowId(2));
    assert_eq!(token.carrier, carrier("c2", "tab", 2));
    assert!(soft_close_token(&[virtual_row(3, "s3")], NavigatorRowId(3), here.clone()).is_none());
    assert!(carrier_token_is_current(&token, true, &rows));
    assert_eq!(
        pending_carrier_step(true, CarrierCloseOutcome::Closed, false),
        CarrierStep::HandOffThenRefresh
    );
}

#[test]
fn split_navigator_close_and_delete_re_resolves_carrier() {
    let here = scope(1, 41, "local", "/a");
    let rows = vec![live_row(1, "s1", "c1", "tab")];
    let token = carrier_token_for_row(&rows[0], here).expect("carrier");
    // The same row now sits in another pane: the captured carrier is stale.
    let moved = vec![live_row(1, "s1", "c1", "tab-2")];
    assert!(!carrier_token_is_current(&token, true, &moved));
    assert_eq!(
        pending_carrier_step(false, CarrierCloseOutcome::Closed, true),
        CarrierStep::NotifyStale
    );
    assert_eq!(
        pending_carrier_step(true, CarrierCloseOutcome::Closed, true),
        CarrierStep::HandOffThenDelete
    );
    assert_eq!(
        pending_carrier_step(true, CarrierCloseOutcome::NeedsSshConfirmation, true),
        CarrierStep::AwaitSshConfirmation
    );
}

#[test]
fn close_and_delete_carries_captured_host_scope_after_rebind() {
    let captured = scope(1, 41, "local", "/a/aliases.json");
    let rows = vec![live_row(1, "s1", "c1", "tab")];
    let token = carrier_token_for_row(&rows[0], captured.clone()).expect("carrier");
    assert!(token
        .scope
        .matches(WorkspaceId(1), HostId(41), "local", "/a/aliases.json"));
    // After a rebind the captured scope no longer names the current one.
    let rebound = scope(1, 42, "local", "/a/aliases.json");
    assert!(!token.scope.same(&rebound));
    assert!(!carrier_token_is_current(&token, false, &rows));
}

#[test]
fn close_and_delete_aborts_when_carrier_token_is_stale() {
    let here = scope(1, 41, "local", "/a");
    let rows = vec![live_row(1, "s1", "c1", "tab")];
    let token = carrier_token_for_row(&rows[0], here).expect("carrier");
    let replaced = vec![live_row(1, "s1", "c9", "tab")];
    assert!(!carrier_token_is_current(&token, true, &replaced));
    assert!(!carrier_token_is_current(&token, true, &[]));
    for outcome in [
        CarrierCloseOutcome::Closed,
        CarrierCloseOutcome::Missing,
        CarrierCloseOutcome::Stale,
        CarrierCloseOutcome::NeedsSshConfirmation,
    ] {
        assert_eq!(pending_carrier_step(false, outcome, true), CarrierStep::NotifyStale);
    }
    assert_eq!(
        pending_carrier_step(true, CarrierCloseOutcome::Missing, true),
        CarrierStep::NotifyStale
    );
}

#[test]
fn session_reorder_moves_whole_units() {
    let units = vec![unit(&[1]), unit(&[2, 3]), unit(&[4])];
    assert_eq!(
        reorder_rows_for(&[1, 0, 2], &units),
        Some(vec![
            NavigatorRowId(2),
            NavigatorRowId(3),
            NavigatorRowId(1),
            NavigatorRowId(4)
        ])
    );
    assert_eq!(reorder_rows_for(&[0, 0, 2], &units), None);
    assert_eq!(reorder_rows_for(&[0, 1], &units), None);
    assert_eq!(reorder_rows_for(&[0, 1, 3], &units), None);
}

fn slot() -> LiveSlot {
    LiveSlot {
        binding_agent: Some(CliAgent::Codex),
        observed_agent: None,
        seen_session_id: None,
        binding_session_id: Some("s1".to_string()),
        container_id: "container-1".to_string(),
        candidates: TitleCandidates {
            provider: None,
            first_user: Some("Draw a fox".to_string()),
        },
        tab_name: Some("zsh — my tab".to_string()),
        terminal_title: Some("✳ agentty".to_string()),
        cwd: Some("/repo".to_string()),
        pane_id: Some(3),
        seen_argv: Some(Vec::new()),
        binding_argv: vec!["codex".to_string(), "resume".to_string()],
    }
}

#[test]
fn live_session_rows_omit_tab_and_terminal_titles() {
    let live = live_session_of(&slot(), "tab-1", "codex").expect("agent pane");
    assert_eq!(live.title.as_deref(), Some("Draw a fox"));
    assert_eq!(
        live.identity,
        SessionIdentity::Provider {
            provider: "codex".to_string(),
            session_id: "s1".to_string()
        }
    );
    assert_eq!(live.launch_argv, vec!["codex".to_string(), "resume".to_string()]);
    assert_eq!(live.carrier, carrier("container-1", "tab-1", 3));

    let mut untitled = slot();
    untitled.candidates.first_user = None;
    let live = live_session_of(&untitled, "tab-1", "codex").expect("agent pane");
    assert_eq!(live.title, None, "tab labels and terminal titles never title a session");

    let mut provider = slot();
    provider.candidates.provider = Some("Provider title".to_string());
    let live = live_session_of(&provider, "tab-1", "codex").expect("agent pane");
    assert_eq!(live.title.as_deref(), Some("Provider title"));

    let mut anonymous = slot();
    anonymous.binding_session_id = None;
    let live = live_session_of(&anonymous, "tab-1", "codex").expect("agent pane");
    assert_eq!(live.identity, SessionIdentity::Durable("container-1".to_string()));

    let mut plain = slot();
    plain.binding_agent = None;
    assert!(live_session_of(&plain, "tab-1", "codex").is_none());
}

#[test]
fn begin_session_alias_edit_selects_existing_display_title() {
    let seed = begin_session_alias_edit(
        NavigatorRowId(4),
        &None,
        &Some("Fix the switcher".to_string()),
    );
    assert_eq!(seed.text, "Fix the switcher");
    assert!(seed.select_all);
    assert_eq!(seed.row_id, NavigatorRowId(4));
    let aliased = begin_session_alias_edit(
        NavigatorRowId(4),
        &Some("mine".to_string()),
        &Some("Fix the switcher".to_string()),
    );
    assert_eq!(aliased.text, "mine");
    assert_eq!(begin_session_alias_edit(NavigatorRowId(4), &None, &None).text, "");
    assert_eq!(display_title(&None, &None, "Unnamed"), "Unnamed");
}

#[test]
fn close_and_delete_handles_missing_provider_source() {
    assert_eq!(
        captured_delete_route(false, SourcePlan::Missing),
        DeleteRoute::UserStateOnly
    );
    assert_eq!(
        captured_delete_route(false, SourcePlan::Found),
        DeleteRoute::Transaction
    );
    assert_eq!(
        captured_delete_route(false, SourcePlan::Failed),
        DeleteRoute::NotifyFailed
    );
    assert_eq!(
        captured_delete_route(true, SourcePlan::Failed),
        DeleteRoute::Transaction
    );
    assert_eq!(delete_landing(false, true), DeleteLanding::Ignore);
    assert_eq!(delete_landing(true, true), DeleteLanding::Commit);
    assert_eq!(delete_landing(true, false), DeleteLanding::NotifyFailed);
    let gone = Some("s1".to_string());
    assert!(!keeps_history_record("codex", "s1", "codex", &gone));
    assert!(keeps_history_record("codex", "s2", "codex", &gone));
    assert!(keeps_history_record("other", "s1", "codex", &gone));
    assert!(keeps_history_record("codex", "s1", "codex", &None));
}

#[test]
fn a_timed_out_scan_reads_as_a_timeout_and_any_other_error_as_itself() {
    assert!(matches!(scan_error_note(IoErrorKind::TimedOut, "whatever"), ScanError::TimedOut));
    assert!(matches!(scan_error_note(IoErrorKind::Other, "ssh: Operation Timed Out"), ScanError::TimedOut));
    match scan_error_note(IoErrorKind::Other, "permission denied") {
        ScanError::Message(m) => assert_eq!(m, "permission denied"),
        ScanError::TimedOut => panic!("not a timeout"),
    }
    let error = std::io::Error::new(std::io::ErrorKind::TimedOut, "slow");
    assert!(matches!(scan_error_message(&error), ScanError::TimedOut));
    let error = std::io::Error::new(std::io::ErrorKind::NotFound, "no such source");
    match scan_error_message(&error) {
        ScanError::Message(m) => assert_eq!(m, "no such source"),
        ScanError::TimedOut => panic!("not a timeout"),
    }
}

#[test]
fn a_discovery_ending_reads_as_one_message() {
    assert!(matches!(discovery_message(&DiscoveryOutcome::Complete), ScanNote::Completed));
    assert!(matches!(discovery_message(&DiscoveryOutcome::Cancelled), ScanNote::Cancelled));
    match discovery_message(&DiscoveryOutcome::Partial {
        failed_providers: vec!["codex".to_string(), "gemini".to_string()],
    }) {
        ScanNote::Incomplete { failed } => assert_eq!(failed, "codex, gemini"),
        _ => panic!("an incomplete scan"),
    }
    match discovery_message(&DiscoveryOutcome::Partial { failed_providers: vec![] }) {
        ScanNote::Incomplete { failed } => assert_eq!(failed, ""),
        _ => panic!("an incomplete scan"),
    }
    match discovery_message(&DiscoveryOutcome::SourceLimitExceeded { source: "~/.codex".to_string(), limit: 25000 }) {
        ScanNote::SourceLimit { source, limit } => {
            assert_eq!(source, "~/.codex");
            assert_eq!(limit, "25000");
        },
        _ => panic!("a source over its limit"),
    }
    match discovery_message(&DiscoveryOutcome::Failed { message: "boom".to_string() }) {
        ScanNote::Failed(m) => assert_eq!(m, "boom"),
        _ => panic!("a failed scan"),
    }
    match discovery_message(&DiscoveryOutcome::SourceMissing { source: "db".to_string() }) {
        ScanNote::SourceMissing { source } => assert_eq!(source, "db"),
        _ => panic!("a missing source"),
    }
}

#[test]
fn a_viewport_unit_yields_its_rows_only_while_all_of_them_exist() {
    let units = vec![unit(&[1]), unit(&[2, 3])];
    let projection = SessionViewportProjection::new(&units, &[NavigatorRowId(1), NavigatorRowId(3)]);
    let rows = vec![live_row(3, "s3", "c", "t3"), virtual_row(1, "s1"), virtual_row(2, "s2")];
    let found = projection.rows_for_unit(1, &rows).expect("both rows exist");
    assert_eq!(found.iter().map(|r| r.row_id).collect::<Vec<_>>(), vec![NavigatorRowId(2), NavigatorRowId(3)]);
    assert!(projection.rows_for_unit(2, &rows).is_none());
    assert!(projection.rows_for_unit(1, &rows[..2]).is_none());
}

#[test]
fn a_reorder_is_refused_while_the_sidebar_is_searched() {
    let units = vec![unit(&[1]), unit(&[2, 3]), unit(&[4])];
    let moved = Some(vec![NavigatorRowId(2), NavigatorRowId(3), NavigatorRowId(1), NavigatorRowId(4)]);
    assert_eq!(apply_session_reorder("", &[1, 0, 2], &units), moved);
    assert_eq!(apply_session_reorder("  \t", &[1, 0, 2], &units), moved, "a blank search is no search");
    assert_eq!(apply_session_reorder("co", &[1, 0, 2], &units), None);
    assert_eq!(apply_session_reorder(" co ", &[1, 0, 2], &units), None);
    assert_eq!(apply_session_reorder("", &[0, 1, 2], &units), None, "the identity moves nothing");
    assert_eq!(apply_session_reorder("", &[0, 0, 2], &units), None);
}

#[test]
fn a_stale_or_foreign_scan_result_is_dropped_and_its_generation_abandoned() {
    let mut state = SessionRefreshState::default();
    let g = match state.request(false) {
        SessionRefreshRequest::Start(g) => g,
        SessionRefreshRequest::Coalesced => panic!("nothing was running"),
    };
    let here = scope(1, 0, "local", "/aliases");
    assert!(state.bind_scope(g, here.clone()));
    let done = ScanResult::Outcome { outcome: DiscoveryOutcome::Complete, aliases_loaded: true };
    assert!(matches!(state.land_scan(g, &scope(2, 0, "local", "/aliases"), true, &done), ScanLanding::Dropped));
    assert!(!state.accepts(g), "the generation is abandoned");

    let g = match state.request(false) {
        SessionRefreshRequest::Start(g) => g,
        SessionRefreshRequest::Coalesced => panic!("nothing was running"),
    };
    assert!(state.bind_scope(g, here.clone()));
    assert!(matches!(state.land_scan(g, &here, false, &done), ScanLanding::Dropped), "the window moved on");

    let g = match state.request(false) {
        SessionRefreshRequest::Start(g) => g,
        SessionRefreshRequest::Coalesced => panic!("nothing was running"),
    };
    assert!(state.bind_scope(g, here.clone()));
    assert_eq!(state.request(false), SessionRefreshRequest::Coalesced);
    assert!(state.accepts_scope(g, &here), "a coalesced request keeps the bound scope");
    assert!(!state.accepts_scope(g, &scope(1, 0, "ssh", "/aliases")));
    match state.land_scan(g, &here, true, &done) {
        ScanLanding::Landed { report: ScanReport::History { adopt_aliases: true }, rescan: Some(next) } => {
            assert!(next > g);
            assert!(state.accepts(next));
        },
        _ => panic!("the scan lands and the coalesced request rescans"),
    }
}

#[test]
fn a_landed_scan_reports_its_outcome() {
    let here = scope(1, 0, "local", "/aliases");
    let mut state = SessionRefreshState::default();
    let SessionRefreshRequest::Start(g) = state.request(true) else { panic!("explicit") };
    assert!(state.bind_scope(g, here.clone()));
    let failed = ScanResult::Error { kind: IoErrorKind::Other, message: "request timed out".to_string() };
    match state.land_scan(g, &here, true, &failed) {
        ScanLanding::Landed { report: ScanReport::Error(ScanError::TimedOut), rescan: None } => {},
        _ => panic!("a timeout"),
    }
    let SessionRefreshRequest::Start(g) = state.request(true) else { panic!("explicit") };
    assert!(state.bind_scope(g, here.clone()));
    let partial = ScanResult::Outcome {
        outcome: DiscoveryOutcome::Partial { failed_providers: vec!["codex".to_string()] },
        aliases_loaded: false,
    };
    match state.land_scan(g, &here, true, &partial) {
        ScanLanding::Landed { report: ScanReport::Note(ScanNote::Incomplete { failed }), rescan: None } => {
            assert_eq!(failed, "codex")
        },
        _ => panic!("an incomplete scan"),
    }
}

#[test]
fn restoring_an_environment_gives_back_what_was_stashed() {
    let mut stash: NavigatorStash<Vec<u64>> = NavigatorStash::new();
    stash.stash("local".to_string(), false, true, vec![1]);
    assert_eq!(stash.restore("local"), None, "a navigator that never scanned is not stashed");
    stash.stash("local".to_string(), true, true, vec![1, 2]);
    stash.stash("ssh:box".to_string(), false, false, vec![3]);
    stash.stash("local".to_string(), true, false, vec![4]);
    assert_eq!(stash.restore("local"), Some(vec![4]), "the last stash wins");
    assert_eq!(stash.restore("local"), None, "a restore takes the stash out");
    assert_eq!(stash.restore("ssh:box"), Some(vec![3]));
}
