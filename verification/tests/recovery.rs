use agentty::ids::{HostId, TabId, WorkspaceId};
use agentty::recovery::{
    lease_landing, resume_admission, resume_landing, resumed_machine_matches, LeaseLanding,
    RecoveryAction, ResumeAdmission, ResumeLanding, accepted_resume_reply, same_slots, tab_sleep_plan, unique_tab, valid_tab_sleep_reply, Axis,
    Machine, PaneExit, PaneNode, PaneRecord, RecoveryBinding, ReplyOk, ResumeTarget, SleepSlot,
    SleepTabFailure, SleepTabReply, Tab, Workspace,
};
use agentty::recovery::{
    live_sleep_target, retained_candidate, stopped_resume_accepts, session_sleep_button, sleep_lease_landing,
    sleep_refresh_landing, sleep_reply_outcome, sleep_scope_current, sleep_status,
    sleep_still_live, tab_sleep_button, PendingSleep, Placeholder, ResumeUiState, SleepButton,
    SleepLeaseLanding, SleepRefreshLanding, SleepReply, SleepStatus, ViewFacts, WorkspaceRecord,
};
use agentty::tray::CliAgent;

const WS: WorkspaceId = WorkspaceId(500);
const TAB: TabId = TabId(900);

fn record(id: u64) -> PaneRecord {
    PaneRecord {
        id,
        title: "zsh".to_string(),
        live: false,
        exit: None,
        ssh_spec: None,
        agent: None,
        recovery_binding: None,
        resume_pending: false,
    }
}

fn stopped_machine() -> Machine {
    Machine {
        workspaces: vec![Workspace {
            id: WS,
            tabs: vec![Tab {
                id: TAB,
                name: None,
                root: PaneNode::Leaf { pane: 71 },
            }],
        }],
        panes: vec![PaneRecord {
            exit: Some(PaneExit { code: Some(0) }),
            recovery_binding: Some(RecoveryBinding {
                agent: CliAgent::Codex,
                session_id: "01900000-0000-7000-8000-000000000001".to_string(),
                cwd: "/retained".to_string(),
            }),
            ..record(71)
        }],
    }
}

fn split(a: u64, b: u64, ratio: u32) -> PaneNode {
    PaneNode::Split {
        axis: Axis::Horizontal,
        ratio,
        a: Box::new(PaneNode::Leaf { pane: a }),
        b: Box::new(PaneNode::Leaf { pane: b }),
    }
}

fn set_ratio(node: &mut PaneNode, value: u32) {
    if let PaneNode::Split { ratio, .. } = node {
        *ratio = value;
    }
}

#[test]
fn whole_tab_sleep_reply_rejects_foreign_and_unordered_results() {
    for (accepted, stopped, failed, valid) in [
        (vec![71, 72, 73], vec![], None, true),
        (vec![71, 73], vec![72], None, true),
        (vec![], vec![71, 72, 73], None, true),
        (vec![71], vec![], Some(72), true),
        (vec![71], vec![72], Some(73), true),
        (vec![71], vec![], None, false),
        (vec![72, 71, 73], vec![], None, false),
        (vec![71, 71, 73], vec![], None, false),
        (vec![71, 72, 99], vec![], None, false),
        (vec![71, 73], vec![72, 72], None, false),
        (vec![], vec![72, 71, 73], None, false),
        (vec![71], vec![], Some(73), false),
        (vec![71, 72, 73], vec![], Some(99), false),
    ] {
        let reply = SleepTabReply {
            accepted,
            already_stopped: stopped,
            failed: failed.map(|pane| SleepTabFailure {
                pane,
                error: "fixture".to_string(),
            }),
        };
        assert_eq!(
            valid_tab_sleep_reply(&[71, 72, 73], &reply),
            valid,
            "accepted {:?} stopped {:?}",
            reply.accepted,
            reply.already_stopped
        );
    }
}

#[test]
fn stopped_resume_keeps_slot_identity_across_ratio_changes() {
    let mut machine = stopped_machine();
    machine.workspaces[0].tabs[0].root = split(71, 72, 300);
    machine.panes.push(record(72));
    let target = ResumeTarget::from_machine(WS, HostId(0), WS, 71, &machine).unwrap();
    let mut resized = stopped_machine();
    resized.workspaces[0].tabs[0].root = split(71, 72, 700);
    resized.panes.push(record(72));
    assert!(
        target.reconcile(&resized).is_some(),
        "resizing invalidated the retained slot"
    );
    let updated = ResumeTarget::from_machine(WS, HostId(0), WS, 71, &resized).unwrap();
    assert!(target.same_slot(&updated), "preflight treated geometry as identity");
    for case in ["client", "host", "workspace", "tab", "pane", "session"] {
        let mut foreign = updated.clone();
        match case {
            "client" => foreign.client_workspace = WorkspaceId(1),
            "host" => foreign.host = HostId(9),
            "workspace" => foreign.workspace = WorkspaceId(2),
            "tab" => foreign.tab = TabId(3),
            "pane" => foreign.pane = 73,
            "session" => foreign.identity.id = "01900000-0000-7000-8000-000000000002".to_string(),
            _ => unreachable!(),
        }
        assert!(!target.same_slot(&foreign), "{case}");
    }

    let mut snapshot = resized;
    snapshot.workspaces[0].tabs[0].root.replace_leaf(71, 99);
    snapshot.panes[0].id = 99;
    snapshot.panes[0].exit = None;
    snapshot.panes[0].live = true;
    let mut current = Machine {
        workspaces: vec![Workspace {
            id: WS,
            tabs: vec![snapshot.workspaces[0].tabs[0].clone()],
        }],
        panes: vec![snapshot.panes[0].clone(), snapshot.panes[1].clone()],
    };
    set_ratio(&mut current.workspaces[0].tabs[0].root, 800);
    current.workspaces[0].tabs[0].name = Some("new title".to_string());
    let (_, selected) = target
        .reconcile_current(&snapshot, &current)
        .expect("resized successor");
    assert_eq!(selected, current.workspaces[0].tabs[0], "stale geometry won");

    for case in ["axis", "order", "neighbor", "binding"] {
        let mut changed = Machine {
            workspaces: vec![Workspace {
                id: WS,
                tabs: vec![current.workspaces[0].tabs[0].clone()],
            }],
            panes: vec![current.panes[0].clone(), current.panes[1].clone()],
        };
        match case {
            "axis" => {
                if let PaneNode::Split { axis, .. } = &mut changed.workspaces[0].tabs[0].root {
                    *axis = Axis::Vertical;
                }
            }
            "order" => changed.workspaces[0].tabs[0].root = split(72, 99, 800),
            "neighbor" => changed.workspaces[0].tabs[0].root = split(99, 73, 800),
            "binding" => changed.panes[0].recovery_binding = None,
            _ => unreachable!(),
        }
        assert!(target.reconcile_current(&snapshot, &changed).is_none(), "{case}");
    }
}

#[test]
fn stopped_resume_projection_rejects_ambiguous_or_changed_target() {
    let machine = stopped_machine();
    let target = ResumeTarget::from_machine(WS, HostId(0), WS, 71, &machine).unwrap();
    assert!(accepted_resume_reply(&target, ReplyOk::Unit).is_none());
    assert!(accepted_resume_reply(
        &target,
        ReplyOk::StoppedSessionResumed {
            workspace: WS,
            tab: target.tab,
            predecessor: 71,
            pane: 71,
        }
    )
    .is_none());
    assert_eq!(
        accepted_resume_reply(
            &target,
            ReplyOk::StoppedSessionResumed {
                workspace: WS,
                tab: target.tab,
                predecessor: 71,
                pane: 99,
            }
        ),
        Some(99)
    );
    let (i, _, _) = target.reconcile(&machine).unwrap();
    assert_eq!(machine.panes[i].id, 71);

    let resumed = || {
        let mut m = stopped_machine();
        m.workspaces[0].tabs[0].root.replace_leaf(71, 99);
        m.panes[0].id = 99;
        m.panes[0].exit = None;
        m.panes[0].live = true;
        m.panes[0].resume_pending = true;
        m
    };
    let r = resumed();
    let (i, _, _) = target.reconcile(&r).unwrap();
    assert_eq!(r.panes[i].id, 99);

    let mut current = resumed();
    current.panes[0].title = "newer target facts".to_string();
    current.panes[0].exit = Some(PaneExit { code: Some(23) });
    current.panes[0].live = false;
    current.panes[0].resume_pending = false;
    let (fresh, _) = target.reconcile_current(&r, &current).unwrap();
    assert_eq!(fresh, current.panes[0], "snapshot overwrote a newer target exit/title");

    for case in ["binding", "cwd", "duplicate", "layout", "boundary"] {
        let mut changed = resumed();
        match case {
            "binding" => changed.panes[0].recovery_binding = None,
            "cwd" => {
                if let Some(b) = changed.panes[0].recovery_binding.as_mut() {
                    b.cwd = "/foreign".to_string();
                }
            }
            "duplicate" => changed.workspaces[0].tabs.push(Tab {
                id: TabId(901),
                name: None,
                root: PaneNode::Leaf { pane: 99 },
            }),
            "layout" => changed.workspaces[0].tabs[0].root = split(99, 100, 500),
            "boundary" => changed.workspaces[0].id = WorkspaceId(77),
            _ => unreachable!(),
        }
        assert!(target.reconcile(&changed).is_none(), "{case}");
    }

    let mut duplicate = stopped_machine();
    duplicate.workspaces[0].tabs.push(Tab {
        id: TabId(902),
        name: None,
        root: PaneNode::Leaf { pane: 71 },
    });
    assert!(ResumeTarget::from_machine(WS, HostId(0), WS, 71, &duplicate).is_none());
    let mut unknown = stopped_machine();
    unknown.panes[0].exit = None;
    assert!(ResumeTarget::from_machine(WS, HostId(0), WS, 71, &unknown).is_none());
}

#[test]
fn a_pane_held_once_has_one_tab() {
    let machine = stopped_machine();
    assert_eq!(unique_tab(&machine, WS, 71), Some((0, 0)));
    assert_eq!(unique_tab(&machine, WorkspaceId(1), 71), None);
    assert_eq!(unique_tab(&machine, WS, 5), None);
    assert!(same_slots(&split(1, 2, 10), &split(1, 2, 90)));
    assert!(!same_slots(&split(1, 2, 10), &split(2, 1, 10)));
    assert_eq!(split(1, 2, 0).pane_ids(), vec![1, 2]);
}

#[test]
fn live_panes_have_a_live_target_and_no_stopped_one() {
    let mut machine = stopped_machine();
    machine.panes[0].exit = None;
    machine.panes[0].live = true;
    assert!(ResumeTarget::from_live_machine(WS, HostId(0), WS, 71, &machine).is_some());
    assert!(ResumeTarget::from_machine(WS, HostId(0), WS, 71, &machine).is_none());
    machine.panes[0].ssh_spec = Some("ssh box".to_string());
    assert!(ResumeTarget::from_live_machine(WS, HostId(0), WS, 71, &machine).is_none());
    assert!(ResumeTarget::from_bound_machine(WS, HostId(0), WS, 71, &machine).is_some());
}

#[test]
fn a_whole_tab_sleeps_only_when_every_pane_is_a_member() {
    let mut machine = stopped_machine();
    machine.workspaces[0].tabs[0].root = split(71, 72, 500);
    let mut second = record(72);
    second.exit = Some(PaneExit { code: Some(1) });
    second.recovery_binding = Some(RecoveryBinding {
        agent: CliAgent::Claude,
        session_id: "s2".to_string(),
        cwd: "/w".to_string(),
    });
    machine.panes.push(second);
    let slot = |entity: u64, pane: u64| SleepSlot {
        entity,
        occurrences: 1,
        pane: Some(pane),
        exited: false,
    };
    let plan = tab_sleep_plan(WS, HostId(0), WS, TAB, 1, false, &[slot(1, 71), slot(2, 72)], &machine)
        .expect("both members");
    let wire = plan.wire_members();
    assert_eq!(wire.iter().map(|w| w.pane).collect::<Vec<_>>(), vec![71, 72]);
    assert!(plan.same_members(&plan));
    assert!(tab_sleep_plan(WS, HostId(0), WS, TAB, 2, false, &[slot(1, 71), slot(2, 72)], &machine).is_none());
    assert!(tab_sleep_plan(WS, HostId(0), WS, TAB, 1, false, &[slot(1, 71)], &machine).is_none());
    assert!(tab_sleep_plan(WS, HostId(0), WS, TAB, 1, false, &[slot(2, 72), slot(1, 71)], &machine).is_none());
    let shared = SleepSlot {
        occurrences: 2,
        ..slot(1, 71)
    };
    assert!(tab_sleep_plan(WS, HostId(0), WS, TAB, 1, false, &[shared, slot(2, 72)], &machine).is_none());
    assert!(tab_sleep_plan(WS, HostId(0), WS, TabId(1), 1, false, &[slot(1, 71), slot(2, 72)], &machine).is_none());
}

#[test]
fn a_resume_starts_only_on_a_checked_link_with_no_sibling_resuming() {
    assert_eq!(resume_admission(false, false, true, true), ResumeAdmission::Cancel);
    assert_eq!(resume_admission(true, true, true, true), ResumeAdmission::Busy);
    assert_eq!(resume_admission(true, false, false, true), ResumeAdmission::Unavailable);
    assert_eq!(resume_admission(true, false, true, false), ResumeAdmission::Unavailable);
    assert_eq!(resume_admission(true, false, true, true), ResumeAdmission::Proceed);
}

#[test]
fn a_lease_is_kept_only_for_the_same_request_link_and_slot() {
    assert_eq!(lease_landing(false, true, true, RecoveryAction::Resume, true), LeaseLanding::Unavailable);
    assert_eq!(lease_landing(true, false, true, RecoveryAction::Resume, true), LeaseLanding::Release);
    assert_eq!(lease_landing(true, true, false, RecoveryAction::Resume, true), LeaseLanding::Release);
    assert_eq!(lease_landing(true, true, true, RecoveryAction::Resume, false), LeaseLanding::Release);
    assert_eq!(lease_landing(true, true, true, RecoveryAction::Refresh, false), LeaseLanding::Resume);
    assert_eq!(lease_landing(true, true, true, RecoveryAction::Output, true), LeaseLanding::Output);
}

#[test]
fn a_resume_lands_on_the_successor_or_leaves_the_stopped_slot() {
    let mut facts = record(71);
    assert_eq!(resume_landing(71, &facts), ResumeLanding::Unavailable);
    facts.exit = Some(PaneExit { code: Some(0) });
    assert_eq!(resume_landing(71, &facts), ResumeLanding::Unchanged);
    let mut successor = record(99);
    assert_eq!(
        resume_landing(71, &successor),
        ResumeLanding::Rearm {
            pane: 99,
            stopped: false
        }
    );
    successor.exit = Some(PaneExit { code: None });
    assert_eq!(
        resume_landing(71, &successor),
        ResumeLanding::Rearm {
            pane: 99,
            stopped: true
        }
    );
    let machine = stopped_machine();
    let target = ResumeTarget::from_machine(WS, HostId(0), WS, 71, &machine).unwrap();
    assert!(resumed_machine_matches(&target, None, &machine));
    assert!(resumed_machine_matches(&target, Some(71), &machine));
    assert!(!resumed_machine_matches(&target, Some(99), &machine));
}

fn live_machine() -> Machine {
    let mut machine = stopped_machine();
    machine.panes[0].exit = None;
    machine.panes[0].live = true;
    machine
}

fn view(pane: u64, exited: bool) -> ViewFacts {
    ViewFacts { owned_here: true, exited, ssh: false, pane, host: HostId(0) }
}

const HERE: WorkspaceRecord = WorkspaceRecord { host: HostId(0), remote: None };

#[test]
fn a_running_view_sleeps_only_from_its_one_leaf_in_its_tab() {
    let machine = live_machine();
    let target = live_sleep_target(view(71, false), Some(HERE), WS, Some(&machine), &[TAB]).expect("live slot");
    assert_eq!((target.tab, target.pane, target.workspace), (TAB, 71, WS));
    assert!(live_sleep_target(view(71, false), Some(HERE), WS, Some(&machine), &[TAB, TAB]).is_none());
    assert!(live_sleep_target(view(71, false), Some(HERE), WS, Some(&machine), &[TabId(1)]).is_none());
    assert!(live_sleep_target(view(71, true), Some(HERE), WS, Some(&machine), &[TAB]).is_none());
    assert!(live_sleep_target(view(71, false), None, WS, Some(&machine), &[TAB]).is_none());
    assert!(live_sleep_target(view(71, false), Some(HERE), WS, None, &[TAB]).is_none());
    let elsewhere = WorkspaceRecord { host: HostId(3), remote: Some(WS) };
    assert!(live_sleep_target(view(71, false), Some(elsewhere), WorkspaceId(8), Some(&machine), &[TAB]).is_none());
    let remote_view = ViewFacts { host: HostId(3), ..view(71, false) };
    let t = live_sleep_target(remote_view, Some(elsewhere), WorkspaceId(8), Some(&machine), &[TAB]).expect("remote slot");
    assert_eq!((t.client_workspace, t.workspace, t.host), (WorkspaceId(8), WS, HostId(3)));
    let ssh = ViewFacts { ssh: true, ..view(71, false) };
    assert!(live_sleep_target(ssh, Some(HERE), WS, Some(&machine), &[TAB]).is_none());
}

#[test]
fn an_exited_view_resumes_only_into_its_stopped_slot() {
    let machine = stopped_machine();
    let target = retained_candidate(view(71, true), Some(HERE), WS, Some(&machine), &[TAB]).expect("stopped slot");
    assert_eq!(target.identity.cwd, "/retained");
    assert!(retained_candidate(view(71, false), Some(HERE), WS, Some(&machine), &[TAB]).is_none());
    assert!(retained_candidate(view(71, true), Some(HERE), WS, Some(&machine), &[]).is_none());
    assert!(retained_candidate(view(71, true), Some(HERE), WS, Some(&live_machine()), &[TAB]).is_none());
    let other_host = ViewFacts { host: HostId(2), ..view(71, true) };
    assert!(retained_candidate(other_host, Some(HERE), WS, Some(&machine), &[TAB]).is_none());
}

#[test]
fn a_sleep_stays_in_scope_while_its_slot_is_the_same() {
    let machine = live_machine();
    let target = ResumeTarget::from_live_machine(WS, HostId(0), WS, 71, &machine).unwrap();
    let same = target.clone();
    assert!(sleep_scope_current(true, true, None, None, &target, Some(&same)));
    assert!(!sleep_scope_current(false, true, None, None, &target, Some(&same)));
    assert!(!sleep_scope_current(true, false, None, None, &target, Some(&same)));
    assert!(!sleep_scope_current(true, true, None, None, &target, None));
    let mut moved = target.clone();
    moved.pane = 72;
    assert!(!sleep_scope_current(true, true, None, None, &target, Some(&moved)));
}

#[test]
fn a_sleep_lease_is_kept_only_for_a_current_request() {
    assert_eq!(sleep_lease_landing(false, false, true), SleepLeaseLanding::Quiet);
    assert_eq!(sleep_lease_landing(false, true, true), SleepLeaseLanding::Refused);
    assert_eq!(sleep_lease_landing(true, false, true), SleepLeaseLanding::Release { refused: false });
    assert_eq!(sleep_lease_landing(true, true, false), SleepLeaseLanding::Release { refused: true });
    assert_eq!(sleep_lease_landing(true, true, true), SleepLeaseLanding::Submit);
}

#[test]
fn a_sleep_reply_is_accepted_only_in_its_own_shape() {
    let out = sleep_reply_outcome(None, Some(SleepReply::Unit));
    assert!(out.accepted && out.details.is_none());
    let out = sleep_reply_outcome(None, Some(SleepReply::Other));
    assert!(!out.accepted && out.details.is_none());
    let out = sleep_reply_outcome(None, None);
    assert!(!out.accepted);
    let reply = SleepTabReply { accepted: vec![71], already_stopped: vec![], failed: None };
    let out = sleep_reply_outcome(None, Some(SleepReply::TabSleep(reply)));
    assert!(!out.accepted && out.details.is_none());
}

#[test]
fn a_whole_tab_reply_is_kept_and_a_failure_is_not_acceptance() {
    let mut machine = stopped_machine();
    machine.workspaces[0].tabs[0].root = split(71, 72, 500);
    machine.panes[0].exit = None;
    machine.panes[0].live = true;
    let mut second = record(72);
    second.live = true;
    second.recovery_binding = Some(RecoveryBinding {
        agent: CliAgent::Codex,
        session_id: "s2".to_string(),
        cwd: "/w".to_string(),
    });
    machine.panes.push(second);
    let slot = |entity: u64, pane: u64| SleepSlot { entity, occurrences: 1, pane: Some(pane), exited: false };
    let plan = tab_sleep_plan(WS, HostId(0), WS, TAB, 1, false, &[slot(1, 71), slot(2, 72)], &machine).expect("plan");
    let whole = SleepTabReply { accepted: vec![71, 72], already_stopped: vec![], failed: None };
    let out = sleep_reply_outcome(Some(&plan), Some(SleepReply::TabSleep(whole)));
    assert!(out.accepted);
    assert_eq!(out.details.unwrap().accepted, vec![71, 72]);
    let partial = SleepTabReply {
        accepted: vec![71],
        already_stopped: vec![],
        failed: Some(SleepTabFailure { pane: 72, error: "busy".to_string() }),
    };
    let out = sleep_reply_outcome(Some(&plan), Some(SleepReply::TabSleep(partial)));
    assert!(!out.accepted);
    let kept = out.details.expect("a valid partial reply is kept");
    assert_eq!(sleep_status(false, false, Some(&kept)), SleepStatus::Partial { accepted: 1, stopped: 0 });
    let foreign = SleepTabReply { accepted: vec![71, 99], already_stopped: vec![], failed: None };
    let out = sleep_reply_outcome(Some(&plan), Some(SleepReply::TabSleep(foreign)));
    assert!(!out.accepted && out.details.is_none());
    let out = sleep_reply_outcome(Some(&plan), Some(SleepReply::Unit));
    assert!(!out.accepted && out.details.is_none());
    assert!(sleep_still_live(&plan.members[0].target, Some(&plan), Some(&machine)));
    machine.panes[1].live = false;
    assert!(!sleep_still_live(&plan.members[0].target, Some(&plan), Some(&machine)));
}

#[test]
fn a_refresh_clears_a_sleep_whose_session_still_runs() {
    let machine = live_machine();
    let target = ResumeTarget::from_live_machine(WS, HostId(0), WS, 71, &machine).unwrap();
    assert!(sleep_still_live(&target, None, Some(&machine)));
    assert!(!sleep_still_live(&target, None, None));
    assert!(!sleep_still_live(&target, None, Some(&stopped_machine())));
    assert_eq!(sleep_refresh_landing(false, true), SleepRefreshLanding::Ignore);
    assert_eq!(sleep_refresh_landing(true, true), SleepRefreshLanding::Clear);
    assert_eq!(sleep_refresh_landing(true, false), SleepRefreshLanding::Refused);
}

#[test]
fn sleep_status_and_buttons() {
    assert_eq!(sleep_status(true, false, None), SleepStatus::Working);
    assert_eq!(sleep_status(false, true, None), SleepStatus::AwaitingExit);
    assert_eq!(sleep_status(false, false, None), SleepStatus::Unknown);
    let pending = |busy: bool, whole_tab: bool, ours: bool| Some(PendingSleep { busy, whole_tab, ours });
    assert_eq!(tab_sleep_button(true, None), SleepButton { refresh: false, disabled: false });
    assert_eq!(tab_sleep_button(false, None), SleepButton { refresh: false, disabled: true });
    assert_eq!(tab_sleep_button(false, pending(false, true, true)), SleepButton { refresh: true, disabled: false });
    assert_eq!(tab_sleep_button(true, pending(true, true, true)), SleepButton { refresh: true, disabled: true });
    assert_eq!(tab_sleep_button(true, pending(false, false, true)), SleepButton { refresh: false, disabled: true });
    assert_eq!(session_sleep_button(pending(false, true, true)), None);
    assert_eq!(session_sleep_button(None), Some(SleepButton { refresh: false, disabled: false }));
    assert_eq!(session_sleep_button(pending(false, false, true)), Some(SleepButton { refresh: true, disabled: false }));
    assert_eq!(session_sleep_button(pending(false, false, false)), Some(SleepButton { refresh: false, disabled: true }));
}

#[test]
fn only_the_current_generation_touches_a_placeholder() {
    let resuming = |action: RecoveryAction| Placeholder {
        resume: Some(ResumeUiState { generation: 4, action, busy: true }),
        resume_unavailable: false,
        output_unavailable: false,
    };
    let mut p = resuming(RecoveryAction::Resume);
    p.unavailable(3);
    assert_eq!(p, resuming(RecoveryAction::Resume));
    p.unavailable(4);
    assert_eq!(p.resume, Some(ResumeUiState { generation: 4, action: RecoveryAction::Resume, busy: false }));
    let mut o = resuming(RecoveryAction::Output);
    o.unavailable(4);
    assert_eq!(o.resume, None);
    assert!(o.output_unavailable && !o.resume_unavailable);
    let mut c = resuming(RecoveryAction::Refresh);
    c.cancel_presentation(5);
    assert_eq!(c, resuming(RecoveryAction::Refresh));
    c.cancel_presentation(4);
    assert_eq!(c.resume, None);
    assert!(c.resume_unavailable && !c.output_unavailable);
}

#[test]
fn a_resume_worker_hands_on_only_a_tree_that_agrees_with_the_reply() {
    let machine = stopped_machine();
    let target = ResumeTarget::from_machine(WS, HostId(0), WS, 71, &machine).unwrap();
    let mut resumed = stopped_machine();
    resumed.workspaces[0].tabs[0].root.replace_leaf(71, 99);
    resumed.panes[0].id = 99;
    resumed.panes[0].exit = None;
    resumed.panes[0].live = true;
    let reply = |pane: u64| {
        Some(ReplyOk::StoppedSessionResumed { workspace: WS, tab: target.tab, predecessor: 71, pane })
    };
    assert!(stopped_resume_accepts(&target, false, reply(99), Some(&resumed), true));
    assert!(!stopped_resume_accepts(&target, false, reply(99), Some(&resumed), false));
    assert!(!stopped_resume_accepts(&target, false, reply(98), Some(&resumed), true));
    assert!(!stopped_resume_accepts(&target, false, reply(71), Some(&resumed), true));
    assert!(!stopped_resume_accepts(&target, false, None, Some(&resumed), true));
    assert!(!stopped_resume_accepts(&target, false, Some(ReplyOk::Unit), Some(&resumed), true));
    assert!(!stopped_resume_accepts(&target, false, reply(99), None, true));
    assert!(stopped_resume_accepts(&target, true, None, Some(&machine), true));
    assert!(!stopped_resume_accepts(&target, true, None, None, true));
}
