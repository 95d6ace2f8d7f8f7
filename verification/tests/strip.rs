use agentty::ids::TabId;
use agentty::switcher::RemoteTarget;
use agentty::strip::{
    environment_indicator_state, environment_menu_rows, environment_menu_target_selector,
    EnvironmentHost, EnvironmentLabel, EnvironmentState, RemoteStatus, abbreviate_home, diff_click_cwd, environment_indicator_icon, order_for_hover, reordered_rows,
    select_workspace_action, short_title, sidebar_info, sidebar_reorder_still_valid,
    sidebar_visible_tabs, tab_chip_hierarchy, tab_chip_window, target_after_removal,
    titlebar_chrome_anchor, ChipRoom, ChipWidth, Config, SidebarTabText, TitlebarChromeAnchor,
};
use agentty::strip::{merge_target, strip_display_order, workspace_avatar_face, LIVE_DOT, UNKNOWN_DOT};
use agentty::switcher::{Liveness, MachineRail};
use agentty::strip::sidebar_drawn_rows;
use agentty::strip::{
    tab_context_menu, tab_label, MenuSession, TabLabel, TabMenuAction, TabMenuEntry, TabMenuFacts,
};

const CHIP_GAP: f32 = 6.;
const CHIP_MIN_NATURAL: f32 = 100.;
const CHIP_MIN_FLOOR: f32 = 72.;
const OVERFLOW_CHIP_W: f32 = 40.;

fn fits(avail: f32, min_w: f32, n: usize, reserve: f32) -> bool {
    n as f32 * min_w + n.saturating_sub(1) as f32 * CHIP_GAP + reserve <= avail
}

fn capacity(avail: f32, edges: usize) -> usize {
    let reserve = edges as f32 * (OVERFLOW_CHIP_W + CHIP_GAP);
    (((avail - reserve + CHIP_GAP) / (CHIP_MIN_FLOOR + CHIP_GAP)).floor() as usize).max(1)
}

fn room(avail: f32, count: usize) -> ChipRoom {
    ChipRoom {
        all_natural: fits(avail, CHIP_MIN_NATURAL, count, 0.),
        all_floor: fits(avail, CHIP_MIN_FLOOR, count, 0.),
        bare: capacity(avail, 0),
        one_edge: capacity(avail, 1),
        two_edges: capacity(avail, 2),
    }
}

fn chars(s: &str) -> Vec<char> {
    s.chars().collect()
}

#[test]
fn short_title_strips_user_host_and_shows_shallow_path_in_full() {
    assert_eq!(short_title("user@host:~/projects/app", None), "~/projects/app");
    assert_eq!(short_title("/usr/local/bin", None), "/usr/local/bin");
    assert_eq!(short_title("plain", None), "plain");
}

#[test]
fn short_title_truncates_deep_paths_to_trailing_segments() {
    assert_eq!(
        short_title("user@host:~/repo/025/agentty", None),
        "…/repo/025/agentty"
    );
    assert_eq!(short_title("/usr/local/share/man", None), "…/local/share/man");
    assert_eq!(short_title("a/b/c/d", None), "…/b/c/d");
}

#[test]
fn short_title_keeps_home_tilde_and_normalizes_trailing_slash() {
    assert_eq!(short_title("user@host:~", None), "~");
    assert_eq!(short_title("~", None), "~");
    assert_eq!(short_title("a/b/c/", None), "a/b/c");
}

#[test]
fn short_title_blank_input_is_empty_and_long_names_are_clamped() {
    assert_eq!(short_title("   ", None), "");
    let long = "a".repeat(50);
    let out = short_title(&long, None);
    assert_eq!(out.chars().count(), 41);
    assert!(out.ends_with('…'));
}

#[test]
fn short_title_writes_the_home_directory_as_tilde() {
    assert_eq!(short_title("/home/me/code/app", Some("/home/me/")), "~/code/app");
    assert_eq!(short_title("/home/me/a/b/c", Some("/home/me")), "…/a/b/c");
    assert_eq!(short_title("/home/me", Some("/home/me")), "~");
    assert_eq!(short_title("/home/meadow", Some("/home/me")), "/home/meadow");
    assert_eq!(short_title("  /  ", None), "/");
    assert_eq!(short_title("~//", None), "~");
    assert_eq!(short_title("host:/srv/x", None), "host:/srv/x");
    assert_eq!(short_title("me@host:   ", None), "");
}

#[test]
fn abbreviate_home_only_touches_the_home_and_below() {
    let home = chars("/home/me///");
    assert_eq!(abbreviate_home(&chars("/home/me/x"), Some(&home)), chars("~/x"));
    assert_eq!(abbreviate_home(&chars("/home/me"), Some(&home)), chars("~"));
    assert_eq!(abbreviate_home(&chars("/home/mex"), Some(&home)), chars("/home/mex"));
    assert_eq!(abbreviate_home(&chars("~/x"), Some(&home)), chars("~/x"));
    assert_eq!(abbreviate_home(&chars("/x"), Some(&chars("///"))), chars("/x"));
    assert_eq!(abbreviate_home(&chars("/x"), None), chars("/x"));
}

#[test]
fn tab_drag_target_after_removal_maps_source_before_and_after_target() {
    assert_eq!(target_after_removal(1, 1, 3), Some(2));
    assert_eq!(target_after_removal(2, 0, 3), Some(0));
    assert_eq!(target_after_removal(1, 0, 3), Some(0));
    assert_eq!(target_after_removal(0, 2, 3), None);
}

#[test]
fn tab_drag_order_for_target_preserves_original_target_identity() {
    assert_eq!(order_for_hover(2, 0, 3), Some(vec![2, 0, 1]));
    assert_eq!(order_for_hover(1, 2, 3), Some(vec![0, 2, 1]));
    assert_eq!(order_for_hover(1, 1, 3), None);
}

#[test]
fn tab_chip_window_compresses_before_overflowing() {
    let wide = tab_chip_window(5, 2, room(1200., 5));
    assert_eq!(wide.visible, 5);
    assert_eq!(wide.chip_min_w, ChipWidth::Natural);
    assert_eq!((wide.leading_hidden, wide.trailing_hidden), (0, 0));

    let squeezed = tab_chip_window(5, 2, room(400., 5));
    assert_eq!(squeezed.visible, 5);
    assert_eq!(squeezed.chip_min_w, ChipWidth::Floor);
    assert_eq!((squeezed.leading_hidden, squeezed.trailing_hidden), (0, 0));

    let clipped = tab_chip_window(10, 0, room(200., 10));
    assert!(clipped.visible < 10);
    assert_eq!(clipped.chip_min_w, ChipWidth::Floor);
    assert_eq!(clipped.leading_hidden, 0);
    assert_eq!(clipped.trailing_hidden, 10 - clipped.visible);
    assert!(clipped.trailing_hidden > 0);
}

#[test]
fn tab_chip_window_keeps_active_tab_visible() {
    for avail in [120., 200., 320., 515.] {
        for count in 1..24usize {
            for active in 0..count {
                let w = tab_chip_window(count, active, room(avail, count));
                assert!(w.visible >= 1, "avail={avail} count={count}");
                assert!(
                    w.start <= active && active < w.start + w.visible,
                    "avail={avail} count={count} active={active}: window {:?} hides the active tab",
                    w
                );
                assert_eq!(w.start, w.leading_hidden);
                assert_eq!(w.start + w.visible + w.trailing_hidden, count);
            }
        }
    }
    let mid = tab_chip_window(10, 5, room(200., 10));
    assert!(mid.start <= 5 && 5 < mid.start + mid.visible);
    assert!(mid.leading_hidden > 0, "expected hidden tabs before the window");
    assert!(mid.trailing_hidden > 0, "expected hidden tabs after the window");
}

#[test]
fn tab_chip_window_for_no_tabs_is_empty() {
    let w = tab_chip_window(0, 3, room(10., 0));
    assert_eq!((w.start, w.visible, w.trailing_hidden), (0, 0, 0));
    assert_eq!(w.chip_min_w, ChipWidth::Natural);
    let past = tab_chip_window(10, 99, room(200., 10));
    assert!(past.start + past.visible == 10);
}

#[test]
fn tab_chip_hierarchy_elevates_active_tab_with_indicator() {
    let active = tab_chip_hierarchy(true);
    assert!(active.elevated, "active tab must be an elevated surface");
    assert!(active.indicator, "active tab must show the accent indicator");
    let inactive = tab_chip_hierarchy(false);
    assert!(!inactive.elevated, "inactive tabs stay flat");
    assert!(!inactive.indicator, "inactive tabs never show the accent indicator");
}

#[test]
fn environment_indicator_distinguishes_local_and_remote_glyphs() {
    assert_eq!(environment_indicator_icon(false), "icons/machine-local.svg");
    assert_eq!(environment_indicator_icon(true), "icons/machine-remote.svg");
    assert_ne!(
        environment_indicator_icon(false),
        environment_indicator_icon(true)
    );
}

#[test]
fn titlebar_chrome_places_palette_on_content_bar_and_settings_direct() {
    assert_eq!(
        titlebar_chrome_anchor("environment"),
        Some(TitlebarChromeAnchor::ContentLeading)
    );
    assert_eq!(
        titlebar_chrome_anchor("command_palette"),
        Some(TitlebarChromeAnchor::ContentTrailing)
    );
    assert_eq!(
        titlebar_chrome_anchor("settings"),
        Some(TitlebarChromeAnchor::WindowChrome)
    );
    assert_eq!(titlebar_chrome_anchor("tabs"), None);
}

#[test]
fn workspace_shortcuts_cover_the_first_nine() {
    assert_eq!(select_workspace_action(0), Some(1));
    assert_eq!(select_workspace_action(8), Some(9));
    assert_eq!(select_workspace_action(9), None);
}

#[test]
fn direct_list_reorder_rejects_invalid_membership() {
    assert_eq!(reordered_rows(3, &[0, 0, 2], 0, 2), None);
    assert_eq!(reordered_rows(3, &[2, 0], 0, 1), None);
    assert_eq!(reordered_rows(3, &[0, 3], 0, 1), None);
}

#[test]
fn diff_preview_setting_gates_the_click_target() {
    let mut cfg = Config::default();
    assert!(cfg.sidebar_diff_preview, "default is today's behaviour");
    assert_eq!(
        diff_click_cwd(&cfg, Some("/w/repo".to_string())),
        Some("/w/repo".to_string()),
        "enabled: the counts are a click target"
    );
    cfg.sidebar_diff_preview = false;
    assert_eq!(
        diff_click_cwd(&cfg, Some("/w/repo".to_string())),
        None,
        "disabled: no cwd, so no cursor and no toggle_diff_overlay"
    );
}

#[test]
fn diff_click_target_needs_a_repo_either_way() {
    let mut cfg = Config::default();
    assert_eq!(diff_click_cwd::<String>(&cfg, None), None);
    cfg.sidebar_diff_preview = false;
    assert_eq!(diff_click_cwd::<String>(&cfg, None), None);
}

#[test]
fn direct_list_reorder_preserves_other_tabs() {
    assert_eq!(reordered_rows(3, &[0, 2], 0, 1), Some(vec![1, 2, 0]));
    assert_eq!(reordered_rows(3, &[0, 2], 1, 0), Some(vec![2, 0, 1]));
    for total in 0..8 {
        for mask in 0..(1usize << total) {
            let visible: Vec<usize> = (0..total).filter(|i| mask & (1 << i) != 0).collect();
            for from in 0..visible.len() {
                for to in 0..visible.len() {
                    let actual = reordered_rows(total, &visible, from, to);
                    if from == to {
                        assert_eq!(actual, None);
                        continue;
                    }
                    let order = actual.unwrap();
                    let mut sorted = order.clone();
                    sorted.sort_unstable();
                    assert_eq!(sorted, (0..total).collect::<Vec<_>>());
                    let moved = visible[from];
                    assert_eq!(
                        order
                            .iter()
                            .copied()
                            .filter(|&i| i != moved)
                            .collect::<Vec<_>>(),
                        (0..total).filter(|&i| i != moved).collect::<Vec<_>>()
                    );
                    assert_eq!(order[visible[to]], moved);
                }
            }
        }
    }
    assert_eq!(reordered_rows(0, &[], 0, 1), None);
    assert_eq!(reordered_rows(3, &[0, 2], 2, 0), None);
}

#[test]
fn sidebar_search_matches_label_title_or_branch() {
    let tab = |label: &str, title: &str, branch: Option<&str>| SidebarTabText {
        label: label.to_string(),
        leaf_title: title.to_string(),
        branch: branch.map(|b| b.to_string()),
    };
    let tabs = vec![
        tab("Build", "zsh", None),
        tab("notes", "VIM", Some("main")),
        tab("api", "cargo", Some("Feature/Login")),
    ];
    assert_eq!(sidebar_visible_tabs(&tabs, ""), vec![0, 1, 2]);
    assert_eq!(sidebar_visible_tabs(&tabs, "build"), vec![0]);
    assert_eq!(sidebar_visible_tabs(&tabs, "vim"), vec![1]);
    assert_eq!(sidebar_visible_tabs(&tabs, "login"), vec![2]);
    assert_eq!(sidebar_visible_tabs(&tabs, "nothing"), Vec::<usize>::new());
}

#[test]
fn sidebar_release_requires_the_same_tabs_and_rows() {
    let tabs = [TabId(1), TabId(2)];
    assert!(sidebar_reorder_still_valid(true, &tabs, &tabs, &[0, 1], &[0, 1]));
    assert!(!sidebar_reorder_still_valid(false, &tabs, &tabs, &[0, 1], &[0, 1]));
    assert!(!sidebar_reorder_still_valid(true, &tabs, &[TabId(2), TabId(1)], &[0, 1], &[0, 1]));
    assert!(!sidebar_reorder_still_valid(true, &tabs, &tabs, &[0, 1], &[1]));
}

#[test]
fn sidebar_card_shows_only_what_the_row_cut_short() {
    let full = |shown: &str, whole: &str| Some((shown.to_string(), whole.to_string()));
    assert!(sidebar_info(&full("a", "a"), &None, &None, None).is_none());
    let info = sidebar_info(
        &full("a…", "abc"),
        &Some(("m…".to_string(), "main".to_string(), 3, 1)),
        &full("/x", "/x"),
        None,
    )
    .expect("card");
    assert_eq!(info.title.as_deref(), Some("abc"));
    assert_eq!(info.branch, Some(("main".to_string(), 3, 1)));
    assert_eq!(info.cwd, None);
    let host_only = sidebar_info(&None, &None, &None, Some("devbox".to_string())).expect("card");
    assert_eq!(host_only.host.as_deref(), Some("devbox"));
}

#[test]
fn environment_indicator_labels_local_and_remote_authority() {
    let local = environment_indicator_state(None, None, None);
    assert_eq!(local.label, EnvironmentLabel::ThisComputer);
    assert_eq!(local.state, EnvironmentState::Local);
    assert_eq!(local.dot, 0x22C55E);
    assert_eq!(local.icon, "icons/machine-local.svg");

    let remote = environment_indicator_state(
        Some("build".to_string()),
        Some("build".to_string()),
        Some(&RemoteStatus::Attached),
    );
    assert_eq!(remote.label, EnvironmentLabel::Remote("build".to_string()));
    assert_eq!(remote.state, EnvironmentState::Ssh);
    assert_eq!(remote.dot, 0x22C55E);
    assert_eq!(remote.icon, "icons/machine-remote.svg");
}

#[test]
fn authentication_diagnostic_is_visible_in_environment_indicator() {
    let detail = "no default identity files and SSH agent has no identities";
    let ind = environment_indicator_state(
        Some("build".to_string()),
        Some("build".to_string()),
        Some(&RemoteStatus::Failed(detail.to_string())),
    );
    assert_eq!(ind.icon, "icons/machine-remote.svg");
    assert_eq!(ind.state, EnvironmentState::AuthError(detail.to_string()));
    assert_eq!(ind.dot, 0xEF4444);
}

#[test]
fn environment_indicator_names_an_unlabelled_machine_by_its_target() {
    let ind = environment_indicator_state(Some("me@box:22".to_string()), None, None);
    assert_eq!(ind.label, EnvironmentLabel::Remote("me@box:22".to_string()));
    assert_eq!(ind.state, EnvironmentState::Disconnected);
    assert_eq!(ind.dot, 0x9AA0A6);
    let busy = environment_indicator_state(
        Some("x".to_string()),
        None,
        Some(&RemoteStatus::Reconnecting { attempt: 2 }),
    );
    assert_eq!(busy.state, EnvironmentState::Connecting);
    assert_eq!(busy.dot, 0xEAB308);
}

#[test]
fn environment_menu_lists_each_environment_once() {
    let host = |env: &str, label: &str, detail: &str| EnvironmentHost {
        environment: env.to_string(),
        label: label.to_string(),
        detail: detail.to_string(),
        selector: format!("sel-{label}"),
    };
    let rows = environment_menu_rows(
        "ssh:build",
        &[
            host("ssh:build", "build", "deploy@10.0.0.8:2222"),
            host("ssh:gpu", "gpu", "   "),
            host("ssh:build", "again", ""),
        ],
    );
    assert_eq!(rows.len(), 2);
    assert_eq!(rows[0].text, "build  ·  deploy@10.0.0.8:2222");
    assert!(rows[0].current);
    assert_eq!(rows[1].text, "gpu");
    assert_eq!(rows[1].selector, "sel-gpu");
    assert!(!rows[1].current);
}

#[test]
fn environment_menu_selectors_name_profiles_by_uuid() {
    let profile = RemoteTarget::Profile {
        id: 0x13929bd1_48a9_43b8_a211_2adfd707608d,
    };
    assert_eq!(
        environment_menu_target_selector(&profile, "ignored"),
        "ENVIRONMENT_MENU_TARGET_PROFILE_13929bd1-48a9-43b8-a211-2adfd707608d"
    );
    let alias = RemoteTarget::Alias {
        alias: "build".to_string(),
    };
    assert_eq!(
        environment_menu_target_selector(&alias, "alias:build"),
        "ENVIRONMENT_MENU_TARGET_alias:build"
    );
}

#[test]
fn tab_label_prefers_a_trimmed_name() {
    let name = Some("  build  ".to_string());
    assert_eq!(tab_label(&name, "/usr/local/bin", None, 0), TabLabel::Text("build".to_string()));
}

#[test]
fn tab_label_falls_back_to_the_short_leaf_title() {
    let blank = Some("   ".to_string());
    assert_eq!(
        tab_label(&blank, "user@host:~/projects/app", None, 2),
        TabLabel::Text("~/projects/app".to_string())
    );
    assert_eq!(
        tab_label(&None, "/usr/local/share/man", None, 0),
        TabLabel::Text("…/local/share/man".to_string())
    );
}

#[test]
fn tab_label_numbers_an_untitled_shell_tab_from_one() {
    assert_eq!(tab_label(&None, "   ", None, 0), TabLabel::ShellDefault(1));
    assert_eq!(tab_label(&Some(String::new()), "", None, 4), TabLabel::ShellDefault(5));
}

fn item(action: TabMenuAction, enabled: bool) -> TabMenuEntry {
    TabMenuEntry::Item { action, enabled }
}

fn well_separated(menu: &[TabMenuEntry]) -> bool {
    !menu.is_empty()
        && menu[0] != TabMenuEntry::Separator
        && menu[menu.len() - 1] != TabMenuEntry::Separator
        && menu.windows(2).all(|w| !(w[0] == TabMenuEntry::Separator && w[1] == TabMenuEntry::Separator))
}

#[test]
fn plain_shell_tab_menu() {
    let menu = tab_context_menu(TabMenuFacts {
        index: 0,
        tab_count: 1,
        has_agent: false,
        agent_done: false,
        in_repo: false,
        session: None,
        has_cwd: false,
        below_wording: false,
    });
    assert_eq!(
        menu,
        vec![
            item(TabMenuAction::Rename, true),
            TabMenuEntry::Separator,
            item(TabMenuAction::SplitRight, true),
            item(TabMenuAction::SplitDown, true),
            item(TabMenuAction::MoveToNewWindow, true),
            TabMenuEntry::Separator,
            item(TabMenuAction::CopyCwd, false),
            TabMenuEntry::Separator,
            item(TabMenuAction::CloseTab, true),
            item(TabMenuAction::CloseOtherTabs, false),
            item(TabMenuAction::CloseTabsRight, false),
        ]
    );
    assert!(well_separated(&menu));
}

#[test]
fn agent_tab_menu_in_a_repository() {
    let menu = tab_context_menu(TabMenuFacts {
        index: 1,
        tab_count: 3,
        has_agent: true,
        agent_done: true,
        in_repo: true,
        session: Some(MenuSession { fork_offered: true, forkable: false, has_session_id: true }),
        has_cwd: true,
        below_wording: true,
    });
    assert_eq!(
        menu,
        vec![
            item(TabMenuAction::Rename, true),
            item(TabMenuAction::MarkUnread, true),
            TabMenuEntry::Separator,
            item(TabMenuAction::NewWorktreeTab, true),
            item(TabMenuAction::ForkSession, false),
            TabMenuEntry::Separator,
            item(TabMenuAction::SplitRight, true),
            item(TabMenuAction::SplitDown, true),
            item(TabMenuAction::MoveToNewWindow, true),
            TabMenuEntry::Separator,
            item(TabMenuAction::CopyCwd, true),
            item(TabMenuAction::CopySessionId, true),
            TabMenuEntry::Separator,
            item(TabMenuAction::CloseTab, true),
            item(TabMenuAction::CloseOtherTabs, true),
            item(TabMenuAction::CloseTabsBelow, true),
        ]
    );
    assert!(well_separated(&menu));
}

#[test]
fn fork_outside_a_repository_opens_its_own_group() {
    let menu = tab_context_menu(TabMenuFacts {
        index: 2,
        tab_count: 3,
        has_agent: true,
        agent_done: false,
        in_repo: false,
        session: Some(MenuSession { fork_offered: true, forkable: true, has_session_id: false }),
        has_cwd: true,
        below_wording: false,
    });
    assert_eq!(&menu[..4], &[
        item(TabMenuAction::Rename, true),
        item(TabMenuAction::MarkUnread, false),
        TabMenuEntry::Separator,
        item(TabMenuAction::ForkSession, true),
    ]);
    assert_eq!(menu[menu.len() - 1], item(TabMenuAction::CloseTabsRight, false));
    assert!(menu.contains(&item(TabMenuAction::CopySessionId, false)));
    assert!(well_separated(&menu));
}

#[test]
fn a_drag_merges_only_into_the_chip_under_the_pointer() {
    assert_eq!(merge_target(1, Some(3), 5), Some(3));
    assert_eq!(merge_target(3, Some(0), 5), Some(0));
    assert_eq!(merge_target(2, Some(2), 5), None, "never the dragged chip");
    assert_eq!(merge_target(0, Some(0), 5), None);
    assert_eq!(merge_target(1, Some(5), 5), None, "a slot past the strip names no chip");
    assert_eq!(merge_target(1, None, 5), None);
    assert_eq!(merge_target(7, Some(1), 5), None);
}

#[test]
fn a_reorder_drag_draws_the_tab_lifted_to_the_hovered_place() {
    let preview = vec![0, 1, 2, 3];
    assert_eq!(strip_display_order(0, Some(2), true, 4, preview.clone()), vec![1, 2, 0, 3]);
    assert_eq!(strip_display_order(3, Some(1), true, 4, preview.clone()), vec![0, 3, 1, 2]);
    assert_eq!(strip_display_order(0, Some(2), false, 4, preview.clone()), preview);
    assert_eq!(strip_display_order(2, Some(2), true, 4, preview.clone()), preview);
    assert_eq!(strip_display_order(2, None, true, 4, vec![2, 0, 1, 3]), vec![2, 0, 1, 3]);
}

#[test]
fn a_workspace_avatar_shows_its_uppercase_initial_and_liveness() {
    let face = workspace_avatar_face("build", Liveness::Alive);
    assert_eq!(face.initial, "B");
    assert_eq!(face.dot, Some(LIVE_DOT));
    let face = workspace_avatar_face("", Liveness::Unknown);
    assert_eq!(face.initial, "~");
    assert_eq!(face.dot, Some(UNKNOWN_DOT));
    let face = workspace_avatar_face("ßeta", Liveness::Stopped);
    assert_eq!(face.initial, "SS");
    assert_eq!(face.dot, None);
}

fn sidebar_text(label: &str) -> SidebarTabText {
    SidebarTabText { label: label.to_string(), leaf_title: String::new(), branch: None }
}

#[test]
fn folding_a_machine_takes_its_rows_off_the_sidebar() {
    let tabs = vec![sidebar_text("alpha one"), sidebar_text("alpha two"), sidebar_text("beta")];
    let mut rail = MachineRail { collapsed: vec![] };
    assert_eq!(sidebar_drawn_rows(&tabs, "", &rail, ""), vec![0, 1, 2], "every row is on screen before anything is folded");
    rail.toggle_collapsed("");
    assert_eq!(sidebar_drawn_rows(&tabs, "", &rail, ""), Vec::<usize>::new(), "folding the machine hides all its rows");
    assert_eq!(rail.collapsed, vec![String::new()]);
    rail.toggle_collapsed("");
    assert_eq!(sidebar_drawn_rows(&tabs, "", &rail, ""), vec![0, 1, 2], "unfolding brings them back");
    assert!(rail.collapsed.is_empty());
}

#[test]
fn a_search_outranks_a_machine_fold() {
    let tabs = vec![sidebar_text("alpha one"), sidebar_text("beta")];
    let mut rail = MachineRail { collapsed: vec![] };
    rail.toggle_collapsed("");
    assert!(!sidebar_drawn_rows(&tabs, "", &rail, "").contains(&1), "folded, so the row is not drawn");
    assert_eq!(sidebar_drawn_rows(&tabs, "beta", &rail, ""), vec![1], "a search draws its hits on a folded machine");
}

#[test]
fn a_machine_fold_hides_the_active_row_too() {
    let tabs = vec![sidebar_text("active"), sidebar_text("other")];
    let mut rail = MachineRail { collapsed: vec![] };
    rail.toggle_collapsed("");
    let drawn = sidebar_drawn_rows(&tabs, "", &rail, "");
    assert!(!drawn.contains(&0), "the active row folds away with the rest");
    assert!(!drawn.contains(&1));
    rail.toggle_collapsed("");
    assert_eq!(sidebar_drawn_rows(&tabs, "", &rail, ""), vec![0, 1], "unfolding brings both back");
}

#[test]
fn trimming_a_name_agrees_with_std_on_every_character_up_to_the_ideographic_space() {
    for code in 0u32..=0x3100 {
        let Some(c) = char::from_u32(code) else { continue };
        let name = format!("{c}{c}x{c}");
        let expected = name.trim();
        let label = tab_label(&Some(name.clone()), "", None, 0);
        if expected.is_empty() {
            assert!(matches!(label, TabLabel::ShellDefault(1)), "{code:#x}");
        } else {
            assert_eq!(label, TabLabel::Text(expected.to_string()), "{code:#x}");
        }
    }
}
