use agentty::ids::WorkspaceId;
use agentty::tray::{
    action_from_id, dispatch_plan, dispatch_target_for_reveal, menu_spec, notification_reveal_action,
    order_by_urgency, tr, urgency, AgentRow, AgentStatus, CliAgent, DispatchPlan, Locale, NotifyMode,
    PaneIdentity, SpecItem, TrayAction, TrayRetry, TraySnapshot, TrayText, TrayTick,
};

fn snapshot_with_agent(status: AgentStatus) -> TraySnapshot {
    TraySnapshot {
        agents: vec![AgentRow {
            leaf_id: 42,
            agent: CliAgent::Claude,
            status,
            detail: "agentty @ main".to_string(),
        }],
        notify_mode: NotifyMode::Unfocused,
        locale: Locale::EnUs,
    }
}

fn check_ids(items: &[SpecItem]) {
    for item in items {
        match item {
            SpecItem::Item { id, label, .. } => assert!(
                action_from_id(id).is_some(),
                "menu item {label:?} has undecodable id {id:?}"
            ),
            SpecItem::Separator => {}
            SpecItem::Submenu { items, .. } => check_ids(items),
        }
    }
}

#[test]
fn every_menu_id_decodes_to_an_action() {
    check_ids(&menu_spec(&snapshot_with_agent(AgentStatus::Waiting)));
    check_ids(&menu_spec(&TraySnapshot::default()));
}

#[test]
fn agent_rows_decode_to_reveal_with_their_leaf_id() {
    assert_eq!(
        action_from_id("agent:42"),
        Some(TrayAction::RevealLeaf { leaf_id: 42 })
    );
    assert_eq!(action_from_id("agent:nope"), None);
    assert_eq!(action_from_id("bogus"), None);
}

#[test]
fn notification_reveal_targets_environment_and_pane_not_entity_id() {
    let target = PaneIdentity {
        environment: "local".to_string(),
        pane_id: 42,
    };
    assert_eq!(
        notification_reveal_action(target.clone()),
        TrayAction::RevealPane { target }
    );
}

#[test]
fn stale_notification_target_is_a_noop() {
    assert_eq!(dispatch_target_for_reveal(false, true), None);
}

#[test]
fn attention_follows_waiting_and_tooltip_counts() {
    assert!(snapshot_with_agent(AgentStatus::Waiting).attention());
    assert!(!snapshot_with_agent(AgentStatus::Working).attention());
    assert!(!snapshot_with_agent(AgentStatus::Done).attention());
    assert_eq!(
        snapshot_with_agent(AgentStatus::Waiting).tooltip(),
        "agentty — 1 waiting"
    );
    assert_eq!(TraySnapshot::default().tooltip(), "agentty");
}

#[test]
fn menu_spec_shape() {
    let empty = menu_spec(&TraySnapshot::default());
    let labels: Vec<&str> = empty
        .iter()
        .filter_map(|i| match i {
            SpecItem::Item { label, .. } => Some(label.as_str()),
            SpecItem::Submenu { label, .. } => Some(label.as_str()),
            SpecItem::Separator => None,
        })
        .collect();
    assert_eq!(
        labels,
        [
            "Show agentty",
            "Notifications",
            "Settings…",
            "Check for Updates…",
            "Quit agentty",
            "Quit and Stop Server…"
        ]
    );
    assert!(!empty
        .windows(2)
        .any(|w| matches!(w, [SpecItem::Separator, SpecItem::Separator])));

    let with_agent = menu_spec(&snapshot_with_agent(AgentStatus::Waiting));
    assert!(with_agent.iter().any(|i| matches!(
        i,
        SpecItem::Item { id, avatar: Some(_), .. } if id == "agent:42"
    )));
}

#[test]
fn tooltip_counts_each_status_in_urgency_order() {
    let mut snap = snapshot_with_agent(AgentStatus::Done);
    snap.agents.push(AgentRow {
        leaf_id: 7,
        agent: CliAgent::Codex,
        status: AgentStatus::Waiting,
        detail: String::new(),
    });
    snap.agents.push(AgentRow {
        leaf_id: 8,
        agent: CliAgent::Codex,
        status: AgentStatus::Working,
        detail: String::new(),
    });
    snap.agents.push(AgentRow {
        leaf_id: 9,
        agent: CliAgent::Codex,
        status: AgentStatus::Waiting,
        detail: String::new(),
    });
    assert!(snap.attention());
    assert_eq!(snap.tooltip(), "agentty — 2 waiting, 1 working, 1 done");
    let idle = snapshot_with_agent(AgentStatus::Idle);
    assert_eq!(idle.tooltip(), "agentty");
}

#[test]
fn agent_row_item_reads_name_detail_and_status() {
    let items = menu_spec(&snapshot_with_agent(AgentStatus::Working));
    assert!(items.iter().any(|i| matches!(
        i,
        SpecItem::Item { id, label, checked: None, avatar: Some((CliAgent::Claude, AgentStatus::Working)) }
            if id == "agent:42" && label == "Anthropic CLI · agentty @ main — Working"
    )));
}

#[test]
fn notify_submenu_checks_the_current_mode() {
    let mut snap = TraySnapshot::default();
    snap.notify_mode = NotifyMode::Always;
    let items = menu_spec(&snap);
    let sub = items
        .iter()
        .find_map(|i| match i {
            SpecItem::Submenu { items, .. } => Some(items),
            _ => None,
        })
        .expect("notifications submenu");
    let checked: Vec<(&str, Option<bool>)> = sub
        .iter()
        .filter_map(|i| match i {
            SpecItem::Item { label, checked, .. } => Some((label.as_str(), *checked)),
            _ => None,
        })
        .collect();
    assert_eq!(
        checked,
        vec![
            ("Never", Some(false)),
            ("When Unfocused", Some(false)),
            ("Always", Some(true))
        ]
    );
    for item in sub {
        if let SpecItem::Item { id, .. } = item {
            assert!(matches!(
                action_from_id(id),
                Some(TrayAction::SetNotifyMode(_))
            ));
        }
    }
}

#[test]
fn fixed_menu_ids_decode_to_their_actions() {
    assert_eq!(action_from_id("show"), Some(TrayAction::ShowWindow));
    assert_eq!(action_from_id("settings"), Some(TrayAction::OpenSettings));
    assert_eq!(action_from_id("updates"), Some(TrayAction::CheckForUpdates));
    assert_eq!(action_from_id("quit"), Some(TrayAction::Quit));
    assert_eq!(action_from_id("quit-stop"), Some(TrayAction::QuitStopSessions));
    assert_eq!(action_from_id("agent:"), None);
    assert_eq!(action_from_id("agent:18446744073709551616"), None);
    assert_eq!(
        action_from_id("agent:18446744073709551615"),
        Some(TrayAction::RevealLeaf {
            leaf_id: u64::MAX
        })
    );
}

#[test]
fn urgency_ranks_waiting_highest() {
    assert_eq!(urgency(AgentStatus::Waiting), 3);
    assert_eq!(urgency(AgentStatus::Working), 2);
    assert_eq!(urgency(AgentStatus::Done), 1);
    assert_eq!(urgency(AgentStatus::Idle), 0);
    assert_eq!(tr(Locale::EnUs, TrayText::Show), "Show agentty");
}

#[test]
fn listing_order_is_stable_by_urgency() {
    let row = |leaf_id: u64, status: AgentStatus| AgentRow {
        leaf_id,
        agent: CliAgent::Codex,
        status,
        detail: String::new(),
    };
    let rows = vec![
        row(1, AgentStatus::Done),
        row(2, AgentStatus::Waiting),
        row(3, AgentStatus::Idle),
        row(4, AgentStatus::Working),
        row(5, AgentStatus::Waiting),
    ];
    let ids: Vec<u64> = order_by_urgency(&rows).iter().map(|r| r.leaf_id).collect();
    assert_eq!(ids, vec![2, 5, 4, 1, 3]);
}

#[test]
fn tray_actions_go_to_their_owner_or_the_latest_window() {
    let a = WorkspaceId(1);
    let b = WorkspaceId(2);
    let reveal = TrayAction::RevealPane {
        target: PaneIdentity {
            environment: "local".to_string(),
            pane_id: 3,
        },
    };
    assert_eq!(dispatch_plan(&reveal, None, Some(b)), DispatchPlan::Drop);
    assert_eq!(dispatch_plan(&reveal, Some(a), Some(b)), DispatchPlan::Deliver(a));
    let leaf = TrayAction::RevealLeaf { leaf_id: 9 };
    assert_eq!(dispatch_plan(&leaf, None, Some(b)), DispatchPlan::Deliver(b));
    assert_eq!(dispatch_plan(&TrayAction::Quit, None, None), DispatchPlan::QuitApp);
    assert_eq!(dispatch_plan(&TrayAction::OpenSettings, None, None), DispatchPlan::Drop);
    assert_eq!(
        dispatch_plan(&TrayAction::OpenSettings, Some(a), Some(b)),
        DispatchPlan::Deliver(b)
    );
}

#[test]
fn tray_icon_creation_gives_up_after_ten_failures() {
    let mut retry = TrayRetry::default();
    let mut attempts = 0;
    let mut gave_up = false;
    for _ in 0..400 {
        match retry.tick(true, false) {
            TrayTick::Create => {
                attempts += 1;
                gave_up = retry.created(false);
            }
            TrayTick::Cooling | TrayTick::Update => {}
            TrayTick::Disabled => panic!("enabled tray reported off"),
        }
    }
    assert_eq!(attempts, 10);
    assert!(gave_up);
    assert_eq!(retry.tick(true, false), TrayTick::Update);
    assert_eq!(retry.tick(false, false), TrayTick::Disabled);
    assert_eq!(retry.tick(true, false), TrayTick::Create);
}
