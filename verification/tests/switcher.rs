use std::collections::HashSet;

use agentty::switcher::{mru_activate, pending_machine, route_label, MachineRail};

use agentty::switcher::{
    host_menu, history_workspace, machine_launcher_item, rejoin_admits, rejoin_plan,
    switcher_open_route, CarrierFacts, HistoryWorkspace, HostMenuItem, LauncherAction,
    LauncherItem, OpenRoute, RejoinPlan, StoredWorkspace,
};
use agentty::switcher::{
    dismiss_retires_connect, footer_hint, group_banner, offers_server_replace, rail_tabs,
    row_click_opens, row_face, row_menu, tab_column, Banner, FooterHint, HostDot, RowBadge,
    RowFace, TabColumn,
};

use agentty::ids::{TabId, WorkspaceId};
use agentty::switcher::{
    here_line, hold_step, panel_action, plain_opening, tab_switch_opening, HoldStep, PanelAction,
    add_pending_groups, add_unclaimed_rows, ensure_current_row, ensure_local_group,
    group_store_rows, sort_groups_by_rank, PendingMachine, StoreEntry, flatten, host_form_label, key_intent, link_from, link_is_engaged, lists_workspace,
    machine_link_label, orphan_panes_of, owner_label, owner_label_given, search_text, settle_group,
    slot_for_key, step, str_lt, switcher_confirm, visible_tabs, Column, Confirm, ConnectFlow, Group,
    HostChoice, Key, Layout, Link, LinkCaption, Liveness, MachineStatus, Modifiers, OrphanPane,
    PaneInfo, RemoteTarget, RemoteWorkspaceRow, Row, SwitcherCursor, TabRow,
};

fn direct(user: &str, host: &str, port: u16) -> RemoteTarget {
    RemoteTarget::Direct {
        user: user.to_string(),
        host: host.to_string(),
        port,
    }
}

fn tab(label: &str, path: &str) -> TabRow {
    TabRow {
        id: TabId(label.len() as u128 + 1000 * path.len() as u128),
        index: 0,
        label: label.to_string(),
        path: path.to_string(),
        named: false,
        unread: 0,
        active: false,
    }
}

fn row(name: &str, tabs: Vec<TabRow>) -> Row {
    Row {
        id: WorkspaceId(name.len() as u128 + 7 * name.chars().map(|c| c as u128).sum::<u128>()),
        name: name.to_string(),
        path: "~/code".to_string(),
        last_active: 0,
        live: Liveness::Alive,
        open: true,
        current: false,
        preempted: false,
        adopt: None,
        remote_id: None,
        tabs,
    }
}

fn aged(mut r: Row, last_active: u64) -> Row {
    r.last_active = last_active;
    r
}

fn group(rows: Vec<Row>) -> Group {
    Group {
        key: String::new(),
        label: "This Computer".to_string(),
        endpoint: String::new(),
        target: None,
        link: Link::Local,
        error: None,
        preempted: false,
        parked: false,
        rows,
    }
}

fn named_group(label: &str, rows: Vec<Row>) -> Group {
    Group {
        key: label.to_lowercase(),
        label: label.to_string(),
        endpoint: String::new(),
        target: Some(direct("me", label, 22)),
        link: Link::Connected,
        error: None,
        preempted: false,
        parked: false,
        rows,
    }
}

fn no_mods() -> Modifiers {
    Modifiers {
        control: false,
        alt: false,
        shift: false,
        platform: false,
        function: false,
        secondary: false,
    }
}

#[test]
fn machine_connecting_is_explicitly_disconnectable() {
    assert!(link_is_engaged(Link::Connecting));
    assert!(link_is_engaged(Link::Reconnecting { attempt: 1 }));
    assert!(!link_is_engaged(Link::Offline));
    assert!(!link_is_engaged(Link::Local));
}

#[test]
fn every_ssh_machine_offers_its_host_form_and_nothing_else_does() {
    assert_eq!(
        host_form_label(&RemoteTarget::Profile { id: 5 }),
        Some("Edit Host…")
    );
    assert_eq!(
        host_form_label(&RemoteTarget::Alias {
            alias: "prod".to_string()
        }),
        Some("Save as SSH Host…"),
        "an alias lives in ~/.ssh/config, which this form does not write"
    );
    assert_eq!(
        host_form_label(&direct("me", "10.0.0.5", 22)),
        Some("Save as SSH Host…")
    );
    assert_eq!(
        host_form_label(&RemoteTarget::Wsl {
            distro: "Ubuntu".to_string()
        }),
        None,
        "a WSL distro is configured nowhere this form could reach"
    );
    assert_eq!(
        host_form_label(&RemoteTarget::LocalStdio {
            program: "tty7-server".to_string(),
            args: Vec::new()
        }),
        None
    );
}

#[test]
fn a_machine_being_retried_does_not_read_as_one_nobody_ever_connected_to() {
    let target = direct("me", "build-box", 22);
    let retrying = MachineStatus::Reconnecting {
        attempt: 2,
        last_error: Some("connection refused".to_string()),
    };
    assert_eq!(
        link_from(None, &target, Some(&retrying), false),
        Link::Reconnecting { attempt: 2 }
    );
    assert_eq!(link_from(None, &target, None, false), Link::Offline);
    assert_eq!(
        link_from(None, &target, Some(&MachineStatus::Attached), false),
        Link::Connected
    );
    assert_eq!(
        link_from(
            None,
            &target,
            Some(&MachineStatus::Failed("no route to host".to_string())),
            false
        ),
        Link::Failed,
        "a route the supervisor could not build has to reach the panel too"
    );
    assert_eq!(link_from(None, &target, None, true), Link::Connected);
}

#[test]
fn this_windows_own_attempt_is_only_ever_about_its_own_machine() {
    let build = direct("me", "build-box", 22);
    let flow = ConnectFlow::Connecting {
        choice: HostChoice {
            target: direct("me", "gpu-lab", 22),
            label: "gpu-lab".to_string(),
            detail: String::new(),
        },
    };
    assert_eq!(
        link_from(Some(&flow), &build, Some(&MachineStatus::Attached), true),
        Link::Connected,
        "a connect to the GPU box says nothing about the build box"
    );
    let mine = ConnectFlow::Failed {
        choice: HostChoice {
            target: direct("me", "build-box", 22),
            label: "build-box".to_string(),
            detail: String::new(),
        },
        error: "refused".to_string(),
    };
    assert_eq!(
        link_from(Some(&mine), &build, Some(&MachineStatus::Attached), true),
        Link::Failed
    );
    assert_eq!(machine_link_label(Link::Failed), LinkCaption::ConnectFailed);
    assert_eq!(machine_link_label(Link::Local), LinkCaption::ThisComputer);
}

#[test]
fn orphan_panes_of_keeps_only_live_panes_no_workspace_holds() {
    let info = |pane_id: u64, alive: bool| PaneInfo {
        pane_id,
        cwd: Some("/tmp/x".to_string()),
        title: "zsh".to_string(),
        osc_title: None,
        alive,
        owner: Some("tty7-cli".to_string()),
    };
    let held: HashSet<u64> = [2].into_iter().collect();
    let orphans = orphan_panes_of(vec![info(1, true), info(2, true), info(3, false)], &held);
    assert_eq!(
        orphans,
        vec![OrphanPane {
            pane_id: 1,
            title: "zsh".to_string(),
            cwd: Some("/tmp/x".to_string()),
            owner: Some("tty7-cli".to_string()),
        }],
        "%2 is held by a workspace and %3 is dead — neither is a leak to reap (#596)"
    );
}

#[test]
fn an_orphans_owner_reads_as_a_workspace_never_as_a_whole_uuid() {
    let uuid = "e0d7bebd-2e46-4a8e-abbb-f2f109a9b61d";
    assert_eq!(
        owner_label(uuid, Some("seeg".to_string())),
        "seeg",
        "the workspace is still here, so say which one it is"
    );
    assert_eq!(
        owner_label(uuid, None),
        "e0d7bebd",
        "no workspace left to name: the short id `pane ls` prints"
    );
    assert_eq!(
        owner_label("tty7-cli", None),
        "tty7-cli",
        "an older client's own label is not an id and reads fine whole"
    );
}

#[test]
fn owner_label_keeps_short_ids_whole() {
    assert_eq!(owner_label_given("abc", None, true), "abc");
    assert_eq!(owner_label_given("0123456789", None, true), "01234567");
    assert_eq!(owner_label_given("0123456789", None, false), "0123456789");
}

#[test]
fn a_workspace_stays_in_the_list_when_only_one_of_its_tabs_matches() {
    let ws = row("notes", vec![tab("zsh", "~/notes"), tab("gemini", "~/notes")]);
    assert!(ws.matches("gemini"));
    assert!(!ws.matches("codex"));
}

#[test]
fn searching_a_tab_name_narrows_the_tab_column_to_the_hits() {
    let ws = row("notes", vec![tab("zsh", "~/a"), tab("gemini", "~/b")]);
    assert_eq!(visible_tabs(&ws, "gemini"), vec![1]);
}

#[test]
fn searching_the_workspace_name_keeps_all_of_its_tabs() {
    let ws = row("notes", vec![tab("zsh", "~/a"), tab("gemini", "~/b")]);
    assert_eq!(visible_tabs(&ws, "notes"), vec![0, 1]);
}

#[test]
fn a_workspace_shown_only_because_its_host_matched_keeps_all_its_tabs() {
    let ws = row("notes", vec![tab("zsh", "~/a")]);
    assert_eq!(visible_tabs(&ws, "dev-box"), vec![0]);
}

#[test]
fn the_flat_list_is_most_recently_used_first_across_machines() {
    let groups = vec![
        group(vec![
            aged(row("old-local", vec![]), 10),
            aged(row("fresh-local", vec![]), 40),
        ]),
        named_group("devbox", vec![aged(row("remote", vec![]), 30)]),
    ];
    let names: Vec<&str> = flatten(&groups, "")
        .into_iter()
        .map(|(g, r)| groups[g].rows[r].name.as_str())
        .collect();
    assert_eq!(names, vec!["fresh-local", "remote", "old-local"]);
}

#[test]
fn this_windows_workspace_outranks_everything_however_stale() {
    let mut here = aged(row("here", vec![]), 1);
    here.current = true;
    let groups = vec![group(vec![aged(row("busy", vec![]), 99), here])];
    let first = flatten(&groups, "")[0];
    assert_eq!(groups[first.0].rows[first.1].name, "here");
}

#[test]
fn a_query_matching_a_machines_name_keeps_all_of_its_rows() {
    let groups = vec![
        group(vec![row("local-notes", vec![])]),
        named_group("devbox", vec![row("api", vec![]), row("web", vec![])]),
    ];
    let hits = flatten(&groups, "devbox");
    assert_eq!(hits.len(), 2);
    assert!(hits.iter().all(|&(g, _)| g == 1));
}

#[test]
fn equal_recency_falls_back_to_name_order() {
    let groups = vec![group(vec![
        aged(row("beta", vec![]), 5),
        aged(row("alpha", vec![]), 5),
        aged(row("alpha", vec![]), 5),
    ])];
    assert_eq!(flatten(&groups, ""), vec![(0, 1), (0, 2), (0, 0)]);
    assert!(str_lt("alpha", "beta"));
    assert!(str_lt("al", "alpha"));
    assert!(!str_lt("beta", "beta"));
}

#[test]
fn the_tab_column_follows_the_flat_cursor() {
    let layout = Layout {
        groups: vec![group(vec![row("a", vec![]), row("b", vec![])])],
        nav: vec![(0, 1), (0, 0)],
    };
    assert_eq!(layout.subject(0), Some((0, 1)));
    assert_eq!(layout.subject(1), Some((0, 0)));
    assert_eq!(layout.subject(2), None, "past the end is nothing");
    assert_eq!(layout.subject_row(0).map(|r| r.name.as_str()), Some("b"));
}

#[test]
fn the_cursor_wraps_at_both_ends() {
    assert_eq!(step(0, 3, true), 1);
    assert_eq!(step(2, 3, true), 0);
    assert_eq!(step(0, 3, false), 2);
}

#[test]
fn stepping_a_column_moves_the_cursor_there() {
    let mut cursor = SwitcherCursor {
        column: Column::Right,
        left_sel: 7,
        right_sel: 4,
        hover_card: true,
        hover_tabs: false,
        mru: false,
        hold: None,
    };
    assert!(cursor.hover_keeps_open());
    cursor.step_left(3, true);
    assert_eq!((cursor.column, cursor.left_sel, cursor.right_sel), (Column::Left, 0, 0));
    cursor.step_right(2, false);
    assert_eq!((cursor.column, cursor.right_sel), (Column::Right, 1));
    let before = cursor;
    cursor.step_right(0, true);
    assert_eq!(cursor, before);
}

#[test]
fn confirming_opens_the_selected_tab_or_line() {
    let ws = row("notes", vec![tab("zsh", "~/a"), tab("gemini", "~/b")]);
    let (ws_id, gemini) = (ws.id, ws.tabs[1].id);
    let layout = Layout {
        groups: vec![group(vec![ws])],
        nav: vec![(0, 0)],
    };
    let mut cursor = SwitcherCursor {
        column: Column::Right,
        left_sel: 0,
        right_sel: 0,
        hover_card: false,
        hover_tabs: false,
        mru: false,
        hold: None,
    };
    assert_eq!(
        switcher_confirm(&layout, cursor, "gemini"),
        Some(Confirm::Tab {
            workspace: ws_id,
            tab: gemini
        })
    );
    cursor.right_sel = 1;
    assert_eq!(switcher_confirm(&layout, cursor, "gemini"), None);
    cursor.column = Column::Left;
    assert_eq!(
        switcher_confirm(&layout, cursor, ""),
        Some(Confirm::Line { group: 0, row: 0 })
    );
}

#[test]
fn bare_arrows_and_enter_drive_the_panel() {
    let none = no_mods();
    assert_eq!(key_intent("down", none), Key::Step(true));
    assert_eq!(key_intent("up", none), Key::Step(false));
    assert_eq!(key_intent("left", none), Key::ToColumn(Column::Left));
    assert_eq!(key_intent("right", none), Key::ToColumn(Column::Right));
    assert_eq!(key_intent("enter", none), Key::Confirm(false));
    assert_eq!(key_intent("escape", none), Key::Close);
}

#[test]
fn the_secondary_modifier_turns_enter_into_a_new_window() {
    let secondary = Modifiers {
        secondary: true,
        ..no_mods()
    };
    assert_eq!(key_intent("enter", secondary), Key::Confirm(true));
}

#[test]
fn tab_walks_the_tab_column_in_both_directions() {
    assert_eq!(key_intent("tab", no_mods()), Key::Tab(true));
    let shift = Modifiers {
        shift: true,
        ..no_mods()
    };
    assert_eq!(key_intent("tab", shift), Key::Tab(false));
}

#[test]
fn a_held_control_keeps_tab_working_but_parks_the_arrows() {
    // Off macOS, Ctrl is the secondary modifier: the raw Tab falls through.
    let ctrl_secondary = Modifiers {
        control: true,
        secondary: true,
        ..no_mods()
    };
    assert_eq!(key_intent("tab", ctrl_secondary), Key::Pass);
    // On macOS, Ctrl is not the secondary modifier: Tab still steps.
    let ctrl = Modifiers {
        control: true,
        ..no_mods()
    };
    assert_eq!(key_intent("tab", ctrl), Key::Tab(true));
    assert_eq!(key_intent("up", ctrl), Key::Pass);
}

#[test]
fn alt_and_fn_chords_are_left_alone() {
    let alt = Modifiers {
        alt: true,
        ..no_mods()
    };
    assert_eq!(key_intent("down", alt), Key::Pass);
    assert_eq!(key_intent("enter", alt), Key::Pass);
}

#[test]
fn escape_closes_even_mid_chord() {
    let alt = Modifiers {
        alt: true,
        ..no_mods()
    };
    assert_eq!(key_intent("escape", alt), Key::Close);
    let secondary = Modifiers {
        secondary: true,
        ..no_mods()
    };
    assert_eq!(key_intent("escape", secondary), Key::Close);
}

#[test]
fn search_text_is_trimmed_and_lowercased() {
    assert_eq!(search_text("  DevBox "), "devbox");
    assert_eq!(search_text(""), "");
}

#[test]
fn merging_a_listing_adds_only_unknown_workspaces() {
    let mut known = row("api", vec![]);
    known.remote_id = Some(WorkspaceId(11));
    let mut g = named_group("devbox", vec![known]);
    let listing = vec![
        RemoteWorkspaceRow {
            id: WorkspaceId(11),
            name: "api".to_string(),
            last_active: 3,
        },
        RemoteWorkspaceRow {
            id: WorkspaceId(12),
            name: "web".to_string(),
            last_active: 4,
        },
    ];
    g.merge(&listing);
    assert_eq!(g.rows.len(), 2);
    let added = &g.rows[1];
    assert_eq!(added.id, WorkspaceId(12));
    assert_eq!(added.name, "web");
    assert_eq!(added.live, Liveness::Stopped);
    assert!(!added.open && !added.current && added.tabs.is_empty());
    assert_eq!(added.remote_id, Some(WorkspaceId(12)));
    let mut local = group(vec![]);
    local.merge(&listing);
    assert!(local.rows.is_empty());
}

#[test]
fn settling_a_group_takes_errors_in_order() {
    let target = direct("me", "devbox", 22);
    let mut g = named_group("devbox", vec![row("api", vec![])]);
    let api = g.rows[0].id;
    let flow = ConnectFlow::Failed {
        choice: HostChoice {
            target: direct("me", "devbox", 22),
            label: "devbox".to_string(),
            detail: String::new(),
        },
        error: "refused".to_string(),
    };
    let known = HostChoice {
        target,
        label: "Dev Box".to_string(),
        detail: "me@devbox:22".to_string(),
    };
    let host_error = "stale".to_string();
    settle_group(
        &mut g,
        Some(&known),
        Link::Failed,
        false,
        Some(&flow),
        Some(&host_error),
        None,
        &[api],
    );
    assert_eq!(g.label, "Dev Box");
    assert_eq!(g.endpoint, "me@devbox:22");
    assert_eq!(g.link, Link::Failed);
    assert!(g.parked);
    assert_eq!(g.error.as_deref(), Some("refused"));
    assert!(g.preempted && g.rows[0].preempted);

    let mut quiet = named_group("devbox", vec![]);
    let retry = MachineStatus::Reconnecting {
        attempt: 3,
        last_error: Some("timeout".to_string()),
    };
    settle_group(&mut quiet, None, Link::Reconnecting { attempt: 3 }, true, None, None, Some(&retry), &[]);
    assert_eq!(quiet.error.as_deref(), Some("timeout"));
    assert!(!quiet.parked && !quiet.preempted);

    let mut local = group(vec![]);
    local.link = Link::Offline;
    settle_group(&mut local, None, Link::Connected, false, None, None, None, &[]);
    assert_eq!(local.link, Link::Local);
}

#[test]
fn groups_are_found_by_key_and_rows_by_workspace() {
    let groups = vec![group(vec![row("a", vec![])]), named_group("devbox", vec![])];
    assert_eq!(slot_for_key(&groups, ""), Some(0));
    assert_eq!(slot_for_key(&groups, "devbox"), Some(1));
    assert_eq!(slot_for_key(&groups, "gone"), None);
    let id = groups[0].rows[0].id;
    assert!(lists_workspace(&groups, id));
    assert!(!lists_workspace(&groups, WorkspaceId(u128::MAX)));
}

fn entry(key: &str, label: &str, name: &str) -> StoreEntry {
    StoreEntry {
        key: key.to_string(),
        label: label.to_string(),
        endpoint: String::new(),
        target: if key.is_empty() {
            None
        } else {
            Some(direct("me", key, 22))
        },
        row: row(name, vec![]),
    }
}

#[test]
fn store_rows_group_by_machine_in_first_seen_order() {
    let groups = group_store_rows(vec![
        entry("devbox", "Dev Box", "api"),
        entry("", "This Computer", "notes"),
        entry("devbox", "ignored", "web"),
    ]);
    assert_eq!(groups.len(), 2);
    assert_eq!(groups[0].key, "devbox");
    assert_eq!(groups[0].label, "Dev Box");
    assert_eq!(
        groups[0].rows.iter().map(|r| r.name.as_str()).collect::<Vec<_>>(),
        vec!["api", "web"]
    );
    assert_eq!(groups[1].key, "");
    assert_eq!(groups[1].link, Link::Offline);
}

#[test]
fn pending_machines_get_one_empty_group_each() {
    let mut groups = group_store_rows(vec![entry("devbox", "Dev Box", "api")]);
    add_pending_groups(
        &mut groups,
        vec![
            PendingMachine {
                key: "devbox".to_string(),
                label: "again".to_string(),
                target: direct("me", "devbox", 22),
            },
            PendingMachine {
                key: "gpu".to_string(),
                label: "GPU".to_string(),
                target: direct("me", "gpu", 22),
            },
            PendingMachine {
                key: "gpu".to_string(),
                label: "twice".to_string(),
                target: direct("me", "gpu", 22),
            },
        ],
    );
    assert_eq!(
        groups.iter().map(|g| g.label.as_str()).collect::<Vec<_>>(),
        vec!["Dev Box", "GPU"]
    );
    assert!(groups[1].rows.is_empty());
}

#[test]
fn this_computer_and_this_window_are_always_listed() {
    let mut groups = group_store_rows(vec![entry("devbox", "Dev Box", "api")]);
    ensure_local_group(&mut groups, "This Computer".to_string());
    assert_eq!(groups[0].key, "");
    assert_eq!(groups[0].label, "This Computer");
    ensure_local_group(&mut groups, "again".to_string());
    assert_eq!(groups.len(), 2);

    let mut here = row("here", vec![]);
    here.current = true;
    let here_id = here.id;
    ensure_current_row(&mut groups, here);
    assert_eq!(groups[0].rows[0].id, here_id);
    let again = row("here", vec![]);
    ensure_current_row(&mut groups, again);
    assert_eq!(groups[0].rows.len(), 1, "two rows under one id would be two ways into one window");

    let cli = row("from-cli", vec![]);
    let dup = row("here", vec![]);
    add_unclaimed_rows(&mut groups, vec![cli, dup]);
    assert_eq!(
        groups[0].rows.iter().map(|r| r.name.as_str()).collect::<Vec<_>>(),
        vec!["here", "from-cli"]
    );
}

#[test]
fn groups_follow_the_machine_rail_order() {
    let groups = group_store_rows(vec![
        entry("b", "B", "x"),
        entry("a", "A", "y"),
        entry("", "Local", "z"),
        entry("c", "C", "w"),
    ]);
    let sorted = sort_groups_by_rank(groups, &vec![2, 1, 0, 1]);
    assert_eq!(
        sorted.iter().map(|g| g.label.as_str()).collect::<Vec<_>>(),
        vec!["Local", "A", "C", "B"]
    );
}

fn ctrl() -> Modifiers {
    Modifiers {
        control: true,
        secondary: true,
        ..no_mods()
    }
}

#[test]
fn a_ctrl_tab_opens_on_the_previous_tab_and_holds() {
    let c = tab_switch_opening(3, true, ctrl());
    assert_eq!(c.column, Column::Right);
    assert_eq!(c.right_sel, 1);
    assert!(c.mru);
    assert_eq!(c.hold, Some(ctrl()));
    assert_eq!(tab_switch_opening(3, false, ctrl()).right_sel, 2);
    let mut walking = c;
    walking.step_right(3, true);
    assert_eq!(walking.right_sel, 2);
    assert_eq!(walking.hold, Some(ctrl()));
}

#[test]
fn releasing_the_hold_commits_unless_the_pointer_is_off_the_tabs() {
    let c = tab_switch_opening(3, true, ctrl());
    assert_eq!(hold_step(c, ctrl()), HoldStep::Keep);
    assert_eq!(hold_step(c, no_mods()), HoldStep::Commit);
    let shifted = Modifiers {
        shift: true,
        ..no_mods()
    };
    assert_eq!(hold_step(c, shifted), HoldStep::Commit);
    let mut over_list = c;
    over_list.hover_card = true;
    assert_eq!(hold_step(over_list, no_mods()), HoldStep::Release);
    over_list.hover_tabs = true;
    assert_eq!(hold_step(over_list, no_mods()), HoldStep::Commit);
    let mut dropped = c;
    assert!(dropped.release_hold());
    assert_eq!(hold_step(dropped, no_mods()), HoldStep::Keep);
    assert!(!dropped.release_hold());
}

#[test]
fn a_lone_tab_opens_the_workspace_column_without_a_hold() {
    let c = tab_switch_opening(1, true, ctrl());
    assert_eq!(c.column, Column::Left);
    assert_eq!(c.hold, None);
    assert_eq!(hold_step(c, no_mods()), HoldStep::Keep);
    assert_eq!(plain_opening(), c);
    assert_eq!(tab_switch_opening(3, true, no_mods()).hold, None);
}

#[test]
fn pointing_moves_the_cursor_without_acting() {
    let mut c = tab_switch_opening(3, true, ctrl());
    c.point_tab(0);
    assert_eq!((c.column, c.right_sel), (Column::Right, 0));
    c.point_at(2);
    assert_eq!((c.column, c.left_sel, c.right_sel), (Column::Left, 2, 0));
    c.right_sel = 1;
    c.point_at(2);
    assert_eq!(c.right_sel, 1, "pointing at the selected line changes nothing");
    c.query_changed();
    assert_eq!((c.left_sel, c.right_sel), (0, 0));
    c.focus(Column::Right);
    assert_eq!(c.column, Column::Right);
}

#[test]
fn keys_act_on_the_cursor_column() {
    let none = no_mods();
    assert_eq!(panel_action("down", none, Column::Left, true, true), PanelAction::StepLeft(true));
    assert_eq!(panel_action("up", none, Column::Right, true, true), PanelAction::StepRight(false));
    assert_eq!(panel_action("left", none, Column::Right, true, true), PanelAction::Focus(Column::Left));
    assert_eq!(panel_action("left", none, Column::Right, false, true), PanelAction::Nothing);
    assert_eq!(panel_action("right", none, Column::Left, true, false), PanelAction::Nothing);
    assert_eq!(panel_action("right", none, Column::Left, true, true), PanelAction::Focus(Column::Right));
    assert_eq!(panel_action("tab", none, Column::Left, true, true), PanelAction::StepRight(true));
    assert_eq!(panel_action("enter", none, Column::Left, true, true), PanelAction::Confirm(false));
    assert_eq!(panel_action("escape", none, Column::Left, true, true), PanelAction::Close);
    assert_eq!(panel_action("x", none, Column::Left, true, true), PanelAction::Nothing);
}

#[test]
fn the_panel_opens_on_this_windows_workspace() {
    let mut here = row("here", vec![]);
    here.current = true;
    let here_id = here.id;
    let groups = vec![group(vec![aged(row("busy", vec![]), 9), here])];
    let nav = flatten(&groups, "");
    let layout = Layout { groups, nav };
    assert_eq!(here_line(&layout, here_id), Some(0));
    assert_eq!(here_line(&layout, WorkspaceId(3)), None);
}

#[test]
fn a_machines_menu_follows_its_link_and_its_kind() {
    let target = direct("dev", "box", 22);
    assert_eq!(host_menu(None, Link::Local, &[], true), vec![]);
    assert_eq!(
        host_menu(Some(&target), Link::Connected, &[], true),
        vec![
            HostMenuItem::Separator,
            HostMenuItem::Label,
            HostMenuItem::TogglePin { pinned: false },
            HostMenuItem::HostForm { edit: false },
            HostMenuItem::Disconnect,
            HostMenuItem::RestartServer,
        ]
    );
    let pinned = vec![direct("other", "box", 22), direct("dev", "box", 22)];
    let profile = RemoteTarget::Profile { id: 7 };
    assert_eq!(
        host_menu(Some(&profile), Link::Connecting, &[RemoteTarget::Profile { id: 7 }], false),
        vec![
            HostMenuItem::Separator,
            HostMenuItem::Label,
            HostMenuItem::TogglePin { pinned: true },
            HostMenuItem::HostForm { edit: true },
            HostMenuItem::Disconnect,
        ]
    );
    assert_eq!(
        host_menu(Some(&target), Link::Failed, &pinned, false)[2..],
        [
            HostMenuItem::TogglePin { pinned: true },
            HostMenuItem::HostForm { edit: false },
            HostMenuItem::Connect { enabled: true },
        ]
    );
    let wsl = RemoteTarget::Wsl { distro: "Ubuntu".to_string() };
    assert_eq!(
        host_menu(Some(&wsl), Link::Offline, &pinned, false),
        vec![
            HostMenuItem::Separator,
            HostMenuItem::Label,
            HostMenuItem::TogglePin { pinned: false },
            HostMenuItem::Connect { enabled: true },
        ]
    );
}

fn carrier_facts() -> CarrierFacts {
    CarrierFacts {
        preempted_now: false,
        has_window: false,
        claimable: false,
        stored: None,
        unclaimed_local: false,
    }
}

#[test]
fn history_carrier_requires_resolved_host_and_unowned_window() {
    let mut candidate = row("candidate", vec![]);
    candidate.open = false;
    let id = candidate.id;
    let mut group = group(vec![candidate]);
    assert_eq!(group.history_carrier(&[carrier_facts()], true), None, "unknown identity is not Local");
    let local = CarrierFacts { stored: Some(StoredWorkspace { on_host: true, open: false }), ..carrier_facts() };
    assert_eq!(group.history_carrier(&[local], true), Some(0));
    assert_eq!(group.rows[0].id, id);
    group.rows[0].preempted = true;
    assert_eq!(group.history_carrier(&[local], true), None);
    group.rows[0].preempted = false;
    let remote_record = CarrierFacts { stored: Some(StoredWorkspace { on_host: false, open: false }), ..carrier_facts() };
    assert_eq!(group.history_carrier(&[remote_record], true), None, "Local cannot claim a remote mapping");
    group.target = Some(direct("dev", "ownership.test", 22));
    let on_remote = CarrierFacts { stored: Some(StoredWorkspace { on_host: true, open: false }), ..carrier_facts() };
    assert_eq!(group.history_carrier(&[on_remote], false), Some(0));
    let windowed = CarrierFacts { has_window: true, ..on_remote };
    assert_eq!(group.history_carrier(&[windowed], false), None, "window ownership outranks stale open=false");
    let remote_id = WorkspaceId(77);
    group.rows[0].id = remote_id;
    group.rows[0].remote_id = Some(remote_id);
    group.rows[0].adopt = Some(RemoteWorkspaceRow { id: remote_id, name: "stale listing".into(), last_active: 0 });
    let claimable_but_windowed = CarrierFacts { claimable: true, ..windowed };
    assert_eq!(
        group.history_carrier(&[claimable_but_windowed], false),
        None,
        "adoptable listing cannot bypass an occupied client mapping"
    );
    let claimable = CarrierFacts { claimable: true, ..carrier_facts() };
    assert_eq!(group.history_carrier(&[claimable], false), Some(0));
}

#[test]
fn a_history_entry_opens_in_the_first_carrier_or_a_new_workspace() {
    let mut first = row("first", vec![]);
    first.open = false;
    let mut second = row("second", vec![]);
    second.open = false;
    let second_id = second.id;
    let local = group(vec![first, second]);
    let stored = |open: bool| CarrierFacts { stored: Some(StoredWorkspace { on_host: true, open }), ..carrier_facts() };
    assert_eq!(history_workspace(true, Some(&local), &[stored(true), stored(false)], true), HistoryWorkspace::Current);
    assert_eq!(history_workspace(false, None, &[], true), HistoryWorkspace::NoMachine);
    assert_eq!(
        history_workspace(false, Some(&local), &[stored(true), stored(false)], true),
        HistoryWorkspace::Existing(second_id)
    );
    assert_eq!(history_workspace(false, Some(&local), &[stored(true), stored(true)], true), HistoryWorkspace::ClaimNewLocal);
    let mut listed = row("listed", vec![]);
    listed.open = false;
    listed.remote_id = Some(WorkspaceId(41));
    listed.adopt = Some(RemoteWorkspaceRow { id: WorkspaceId(41), name: "listed".into(), last_active: 3 });
    let remote = named_group("box", vec![listed]);
    let claimable = CarrierFacts { claimable: true, ..carrier_facts() };
    assert_eq!(history_workspace(false, Some(&remote), &[claimable], false), HistoryWorkspace::ClaimRemote(WorkspaceId(41)));
    assert_eq!(history_workspace(false, Some(&remote), &[carrier_facts()], false), HistoryWorkspace::ClaimNewRemote);
}

#[test]
fn the_launcher_opens_the_current_or_the_latest_row() {
    let mut here = aged(row("here", vec![]), 1);
    here.current = true;
    let g = group(vec![aged(row("a", vec![]), 9), here]);
    assert_eq!(
        machine_launcher_item(&g),
        LauncherItem { caption: LinkCaption::ThisComputer, checked: true, action: LauncherAction::Open(1) }
    );
    let g = named_group("box", vec![aged(row("a", vec![]), 9), aged(row("b", vec![]), 9), aged(row("c", vec![]), 2)]);
    assert_eq!(
        machine_launcher_item(&g),
        LauncherItem { caption: LinkCaption::Connected, checked: false, action: LauncherAction::Open(1) }
    );
    let mut empty = named_group("far", vec![]);
    empty.link = Link::Offline;
    assert_eq!(
        machine_launcher_item(&empty),
        LauncherItem { caption: LinkCaption::NotConnected, checked: false, action: LauncherAction::Connect }
    );
    assert_eq!(machine_launcher_item(&group(vec![])).action, LauncherAction::NewWorkspace);
}

#[test]
fn opening_a_row_never_takes_another_window() {
    let here = WorkspaceId(1);
    let there = WorkspaceId(2);
    assert_eq!(switcher_open_route(true, true, there, here, true), OpenRoute::AdoptRemote);
    assert_eq!(switcher_open_route(false, true, there, here, true), OpenRoute::NewWindow);
    assert_eq!(switcher_open_route(false, false, there, here, true), OpenRoute::Occupied);
    assert_eq!(switcher_open_route(false, false, here, here, true), OpenRoute::Switch);
    assert_eq!(switcher_open_route(false, false, there, here, false), OpenRoute::Switch);
}

#[test]
fn a_rejoin_takes_only_an_unambiguous_free_workspace() {
    let ws = WorkspaceId(5);
    assert_eq!(rejoin_plan(true, ws, false, false, &[], true), RejoinPlan::Use(ws));
    assert_eq!(rejoin_plan(true, ws, true, true, &[], false), RejoinPlan::Refuse);
    assert_eq!(rejoin_plan(false, ws, false, false, &[], false), RejoinPlan::Refuse);
    assert_eq!(rejoin_plan(false, ws, false, true, &[WorkspaceId(6)], true), RejoinPlan::Use(WorkspaceId(6)));
    assert_eq!(rejoin_plan(false, ws, false, true, &[WorkspaceId(6), WorkspaceId(7)], false), RejoinPlan::Refuse);
    assert_eq!(rejoin_plan(false, ws, false, true, &[], true), RejoinPlan::Refuse);
    assert_eq!(rejoin_plan(false, ws, false, true, &[], false), RejoinPlan::Claim);
    assert!(rejoin_admits(ws, ws, false, true, true));
    assert!(!rejoin_admits(ws, ws, true, false, false));
    assert!(!rejoin_admits(ws, WorkspaceId(1), false, true, false));
    assert!(!rejoin_admits(ws, WorkspaceId(1), false, false, true));
    assert!(rejoin_admits(ws, WorkspaceId(1), false, false, false));
}

#[test]
fn a_machine_band_shows_its_most_pressing_state() {
    let mut g = named_group("box", vec![row("a", vec![])]);
    assert_eq!(group_banner(&g, false, false), None);
    assert_eq!(group_banner(&g, true, false), Some(Banner::Installing));
    g.parked = true;
    assert_eq!(group_banner(&g, false, false), Some(Banner::Parked));
    assert_eq!(group_banner(&g, false, true), None);
    g.error = Some("refused".to_string());
    assert_eq!(group_banner(&g, false, true), Some(Banner::Error));
    g.error = None;
    g.link = Link::Reconnecting { attempt: 2 };
    assert_eq!(group_banner(&g, false, true), Some(Banner::Connecting));
    let mut local = group(vec![]);
    local.error = Some("ignored".to_string());
    assert_eq!(group_banner(&local, true, false), None);
    assert!(offers_server_replace(true, true));
    assert!(!offers_server_replace(true, false));
    assert!(!offers_server_replace(false, true));
}

#[test]
fn dismissing_retires_only_this_machines_failed_connect() {
    let target = direct("dev", "box", 22);
    let choice = |t: RemoteTarget| HostChoice { target: t, label: "box".to_string(), detail: String::new() };
    let failed = ConnectFlow::Failed { choice: choice(direct("dev", "box", 22)), error: "no".to_string() };
    assert!(dismiss_retires_connect(Some(&failed), Some(&target)));
    let elsewhere = ConnectFlow::Failed { choice: choice(direct("dev", "other", 22)), error: "no".to_string() };
    assert!(!dismiss_retires_connect(Some(&elsewhere), Some(&target)));
    let connecting = ConnectFlow::Connecting { choice: choice(direct("dev", "box", 22)) };
    assert!(!dismiss_retires_connect(Some(&connecting), Some(&target)));
    assert!(!dismiss_retires_connect(None, Some(&target)));
    assert!(!dismiss_retires_connect(Some(&failed), None));
}

#[test]
fn the_footer_names_the_gesture_that_applies() {
    assert_eq!(footer_hint(true, true), FooterHint::HoldToSwitch);
    assert_eq!(footer_hint(false, true), FooterHint::TabToCrossColumns);
    assert_eq!(footer_hint(false, false), FooterHint::NewWindowChord);
}

#[test]
fn the_rail_matches_a_tabs_label_and_path_together() {
    let r = row("w", vec![tab("Build", "~/src/app"), tab("notes", "~/docs"), tab("Server", "/srv")]);
    assert_eq!(rail_tabs(&r, ""), vec![0, 1, 2]);
    assert_eq!(rail_tabs(&r, "build"), vec![0]);
    assert_eq!(rail_tabs(&r, "build ~/src"), vec![0]);
    assert_eq!(rail_tabs(&r, "s ~/d"), vec![1]);
    assert_eq!(rail_tabs(&r, "zzz"), Vec::<usize>::new());
}

#[test]
fn a_row_reads_by_who_holds_it_and_how_its_machine_is_linked() {
    let mut r = row("w", vec![]);
    let mut g = named_group("box", vec![]);
    assert_eq!(row_face(&g, &r), RowFace { unlit: false, badge: Some(RowBadge::Open), dot: Some(HostDot::Live) });
    r.current = true;
    r.preempted = true;
    g.preempted = true;
    assert_eq!(row_face(&g, &r), RowFace { unlit: false, badge: Some(RowBadge::TakenOver), dot: Some(HostDot::Warning) });
    r.preempted = false;
    g.link = Link::Failed;
    assert_eq!(row_face(&g, &r), RowFace { unlit: true, badge: Some(RowBadge::ThisWindow), dot: Some(HostDot::Danger) });
    r.current = false;
    r.open = false;
    g.link = Link::Offline;
    assert_eq!(row_face(&g, &r), RowFace { unlit: true, badge: None, dot: Some(HostDot::Unknown) });
    let local = group(vec![]);
    assert_eq!(row_face(&local, &r).dot, None);
    assert!(!row_face(&local, &r).unlit);
    assert!(!row_click_opens(1, false));
    assert!(row_click_opens(2, false));
    assert!(row_click_opens(1, true));
}

#[test]
fn the_tab_column_says_why_it_is_empty() {
    assert!(matches!(tab_column(None, ""), TabColumn::PickWorkspace));
    let mut empty = row("w", vec![]);
    assert!(matches!(tab_column(Some(&empty), ""), TabColumn::NoTabs));
    empty.remote_id = Some(WorkspaceId(3));
    empty.open = false;
    assert!(matches!(tab_column(Some(&empty), ""), TabColumn::TabsAfterOpening));
    let r = row("w", vec![tab("Build", "~/src"), tab("notes", "~/docs")]);
    match tab_column(Some(&r), "zzz") {
        TabColumn::Tabs(v) => assert_eq!(v, vec![0, 1], "a row shown for its machine keeps all its tabs"),
        _ => panic!("the row's tabs"),
    }
    match tab_column(Some(&r), "notes") {
        TabColumn::Tabs(v) => assert_eq!(v, vec![1]),
        _ => panic!("one tab matches"),
    }
}

#[test]
fn a_rows_menu_offers_a_new_window_only_for_its_own_workspaces() {
    let target = direct("dev", "box", 22);
    let own = row_menu(false, Some(&target), Link::Connected, &[], false);
    assert!(own.open_in_new_window);
    assert_eq!(own.host.len(), 5);
    let listing = row_menu(true, None, Link::Local, &[], false);
    assert!(!listing.open_in_new_window);
    assert!(listing.host.is_empty());
}

#[test]
fn a_pending_machine_whose_profile_is_gone_is_not_named_by_its_uuid() {
    let gone = RemoteTarget::Profile { id: 0x67e5_5044_10b1_426f_9247_bb68_0e5f_e0c8 };
    let p = pending_machine(
        "67e55044-10b1-426f-9247-bb680e5fe0c8".to_string(),
        gone,
        &[],
        "Profile removed",
        "67e55044-10b1-426f-9247-bb680e5fe0c8",
    );
    assert!(!p.label.contains("67e55044"), "the switcher named a machine by its raw profile UUID");
    assert_eq!(p.label, "Profile removed");
    let configured = vec![
        HostChoice { target: direct("dev", "box", 22), label: "Dev box".to_string(), detail: String::new() },
        HostChoice { target: RemoteTarget::Profile { id: 9 }, label: "Build farm".to_string(), detail: String::new() },
    ];
    let named = pending_machine("k".to_string(), RemoteTarget::Profile { id: 9 }, &configured, "Profile removed", "9");
    assert_eq!(named.label, "Build farm");
    let address = pending_machine("k".to_string(), direct("me", "other", 22), &configured, "Profile removed", "me@other");
    assert_eq!(address.label, "me@other");
    assert_eq!(route_label(Some("Dev box"), "Profile removed"), "Dev box");
    assert_eq!(route_label(None, "Profile removed"), "Profile removed");
}

#[test]
fn a_machine_fold_toggles_and_a_search_outranks_it() {
    let mut rail = MachineRail { collapsed: vec![] };
    assert!(rail.expanded("", false));
    rail.toggle_collapsed("");
    assert_eq!(rail.collapsed, vec![String::new()], "the fold is written where the next launch reads it");
    assert!(!rail.expanded("", false));
    assert!(rail.expanded("", true), "a search outranks a fold");
    assert!(rail.expanded("box", false));
    rail.toggle_collapsed("");
    assert!(rail.collapsed.is_empty(), "unfolding takes the entry back out");
    let mut piled = MachineRail { collapsed: vec!["a".to_string(), "b".to_string(), "a".to_string()] };
    piled.toggle_collapsed("a");
    assert_eq!(piled.collapsed, vec!["b".to_string()]);
}

#[test]
fn every_uuid_spelling_reads_as_a_short_id() {
    assert_eq!(owner_label("67e55044-10b1-426f-9247-bb680e5fe0c8", None), "67e55044");
    assert_eq!(owner_label("67E5504410B1426F9247BB680E5FE0C8", None), "67E55044");
    assert_eq!(owner_label("{67e55044-10b1-426f-9247-bb680e5fe0c8}", None), "{67e5504");
    assert_eq!(owner_label("URN:uuid:67e55044-10b1-426f-9247-bb680e5fe0c8", None), "URN:uuid");
    assert_eq!(owner_label("67e55044_10b1-426f-9247-bb680e5fe0c8", None), "67e55044_10b1-426f-9247-bb680e5fe0c8");
    assert_eq!(owner_label("not-a-uuid", None), "not-a-uuid");
}

#[test]
fn two_complete_tab_switches_come_back_to_the_first_tab() {
    let mut order = vec![0usize, 1, 2, 3];
    for _ in 0..2 {
        let opened = tab_switch_opening(order.len(), true, no_mods());
        let picked = order[opened.right_sel];
        mru_activate(&mut order, picked);
    }
    assert_eq!(order[0], 0);
    let mut order = vec![2usize, 0, 1];
    mru_activate(&mut order, 1);
    assert_eq!(order, vec![1, 2, 0]);
    mru_activate(&mut order, 7);
    assert_eq!(order, vec![7, 1, 2, 0]);
}
