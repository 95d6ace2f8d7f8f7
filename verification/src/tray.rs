//! The tray icon: its menu, its tooltip, how a menu id decodes back into an
//! action, where a decoded action is delivered, and the retry rhythm of the
//! icon backend.
use vstd::prelude::*;
use vstd::string::*;

use crate::ids::WorkspaceId;
use crate::text::{
    chars_of, decimal, join, decimal_string, lemma_decimal_digits, lemma_parse_decimal, owned,
    parse_u64, parse_u64_chars, skip_chars, starts_with, starts_with_chars, str_eq,
};

verus! {

/// What an agent in a pane is doing.
#[derive(Clone, Copy, Debug, PartialEq, Eq, Hash, Structural)]
pub enum AgentStatus {
    Idle,
    Working,
    Done,
    Waiting,
}

/// The coding agent a pane runs.
#[derive(Clone, Copy, Debug, PartialEq, Eq, Hash, Structural)]
pub enum CliAgent {
    Claude,
    Codex,
}

/// The name an agent is shown under.
pub open spec fn agent_display_name(agent: CliAgent) -> Seq<char> {
    match agent {
        CliAgent::Claude => "Anthropic CLI"@,
        CliAgent::Codex => "Codex"@,
    }
}

impl CliAgent {
    pub fn display_name(&self) -> (name: &'static str)
        ensures
            name@ == agent_display_name(*self),
    {
        match self {
            CliAgent::Claude => "Anthropic CLI",
            CliAgent::Codex => "Codex",
        }
    }
}

/// When a finished command raises a notification.
#[derive(Clone, Copy, Debug, PartialEq, Eq, Hash, Structural)]
pub enum NotifyMode {
    Never,
    Unfocused,
    Always,
}

impl Default for NotifyMode {
    fn default() -> (mode: Self)
        ensures
            mode == NotifyMode::Unfocused,
    {
        NotifyMode::Unfocused
    }
}

/// The interface language.
#[derive(Clone, Copy, Debug, PartialEq, Eq, Hash, Structural)]
pub enum Locale {
    EnUs,
}

impl Default for Locale {
    fn default() -> (locale: Self)
        ensures
            locale == Locale::EnUs,
    {
        Locale::EnUs
    }
}

/// The tray's translated strings.
#[derive(Clone, Copy, Debug, PartialEq, Eq, Structural)]
pub enum TrayText {
    Show,
    Notifications,
    Settings,
    CheckUpdates,
    Quit,
    QuitStop,
    TooltipWaiting,
    TooltipWorking,
    TooltipDone,
    StatusWaiting,
    StatusWorking,
    StatusDone,
    OptNever,
    OptWhenUnfocused,
    OptAlways,
}

/// The text of `key` in `locale`.
pub open spec fn tray_text(locale: Locale, key: TrayText) -> Seq<char> {
    match key {
        TrayText::Show => "Show agentty"@,
        TrayText::Notifications => "Notifications"@,
        TrayText::Settings => "Settings…"@,
        TrayText::CheckUpdates => "Check for Updates…"@,
        TrayText::Quit => "Quit agentty"@,
        TrayText::QuitStop => "Quit and Stop Server…"@,
        TrayText::TooltipWaiting => "waiting"@,
        TrayText::TooltipWorking => "working"@,
        TrayText::TooltipDone => "done"@,
        TrayText::StatusWaiting => "Waiting"@,
        TrayText::StatusWorking => "Working"@,
        TrayText::StatusDone => "Done"@,
        TrayText::OptNever => "Never"@,
        TrayText::OptWhenUnfocused => "When Unfocused"@,
        TrayText::OptAlways => "Always"@,
    }
}

pub fn tr(locale: Locale, key: TrayText) -> (text: &'static str)
    ensures
        text@ == tray_text(locale, key),
{
    match key {
        TrayText::Show => "Show agentty",
        TrayText::Notifications => "Notifications",
        TrayText::Settings => "Settings…",
        TrayText::CheckUpdates => "Check for Updates…",
        TrayText::Quit => "Quit agentty",
        TrayText::QuitStop => "Quit and Stop Server…",
        TrayText::TooltipWaiting => "waiting",
        TrayText::TooltipWorking => "working",
        TrayText::TooltipDone => "done",
        TrayText::StatusWaiting => "Waiting",
        TrayText::StatusWorking => "Working",
        TrayText::StatusDone => "Done",
        TrayText::OptNever => "Never",
        TrayText::OptWhenUnfocused => "When Unfocused",
        TrayText::OptAlways => "Always",
    }
}

/// A pane named by the environment it runs in and its pane id there.
#[derive(Clone, Debug, PartialEq, Eq, Hash)]
pub struct PaneIdentity {
    pub environment: String,
    pub pane_id: u64,
}

/// What a click in the tray asks the application to do.
#[derive(Clone, Debug, PartialEq, Eq)]
pub enum TrayAction {
    ShowWindow,
    RevealLeaf { leaf_id: u64 },
    RevealPane { target: PaneIdentity },
    SetNotifyMode(NotifyMode),
    OpenSettings,
    CheckForUpdates,
    Quit,
    QuitStopSessions,
}

/// How urgently a status asks for attention.
pub open spec fn urgency_rank(status: AgentStatus) -> u8 {
    match status {
        AgentStatus::Waiting => 3,
        AgentStatus::Working => 2,
        AgentStatus::Done => 1,
        AgentStatus::Idle => 0,
    }
}

pub fn urgency(status: AgentStatus) -> (rank: u8)
    ensures
        rank == urgency_rank(status),
{
    match status {
        AgentStatus::Waiting => 3,
        AgentStatus::Working => 2,
        AgentStatus::Done => 1,
        AgentStatus::Idle => 0,
    }
}

/// One agent pane as the tray lists it.
#[derive(Debug, PartialEq, Eq)]
pub struct AgentRow {
    pub leaf_id: u64,
    pub agent: CliAgent,
    pub status: AgentStatus,
    pub detail: String,
}

impl Clone for AgentRow {
    fn clone(&self) -> (copy: Self)
        ensures
            copy == *self,
    {
        AgentRow {
            leaf_id: self.leaf_id,
            agent: self.agent,
            status: self.status,
            detail: self.detail.clone(),
        }
    }
}

/// Everything the tray shows at one moment.
#[derive(Clone, Debug, PartialEq, Eq)]
pub struct TraySnapshot {
    pub agents: Vec<AgentRow>,
    pub notify_mode: NotifyMode,
    pub locale: Locale,
}

impl Default for TraySnapshot {
    fn default() -> (snap: Self)
        ensures
            snap.agents@.len() == 0,
            snap.notify_mode == NotifyMode::Unfocused,
            snap.locale == Locale::EnUs,
    {
        TraySnapshot { agents: Vec::new(), notify_mode: NotifyMode::Unfocused, locale: Locale::EnUs }
    }
}

/// How many of `agents` have `status`.
pub open spec fn count_status(agents: Seq<AgentRow>, status: AgentStatus) -> nat
    decreases agents.len(),
{
    if agents.len() == 0 {
        0
    } else {
        count_status(agents.drop_last(), status) + if agents.last().status == status {
            1nat
        } else {
            0nat
        }
    }
}

/// One "`n` `word`" part of the tooltip, present only when `n` is positive.
pub open spec fn tooltip_part(n: nat, word: Seq<char>) -> Seq<Seq<char>> {
    if n > 0 {
        seq![decimal(n) + " "@ + word]
    } else {
        Seq::empty()
    }
}

/// The non-empty counts of the tooltip, waiting first, then working, then done.
pub open spec fn tooltip_parts(snap: TraySnapshot) -> Seq<Seq<char>> {
    tooltip_part(count_status(snap.agents@, AgentStatus::Waiting), tray_text(snap.locale, TrayText::TooltipWaiting))
        + tooltip_part(count_status(snap.agents@, AgentStatus::Working), tray_text(snap.locale, TrayText::TooltipWorking))
        + tooltip_part(count_status(snap.agents@, AgentStatus::Done), tray_text(snap.locale, TrayText::TooltipDone))
}

/// The tray icon's tooltip.
pub open spec fn tooltip_text(snap: TraySnapshot) -> Seq<char> {
    let parts = tooltip_parts(snap);
    if parts.len() == 0 {
        "agentty"@
    } else {
        "agentty — "@ + join(parts, ", "@)
    }
}

fn count_exec(agents: &Vec<AgentRow>, status: AgentStatus) -> (n: usize)
    ensures
        n == count_status(agents@, status),
{
    let mut n: usize = 0;
    let mut i: usize = 0;
    while i < agents.len()
        invariant
            i <= agents@.len(),
            n == count_status(agents@.take(i as int), status),
            n <= i,
        decreases agents@.len() - i,
    {
        assert(agents@.take(i + 1).drop_last() =~= agents@.take(i as int));
        if agents[i].status == status {
            n = n + 1;
        }
        i = i + 1;
    }
    assert(agents@.take(agents@.len() as int) =~= agents@);
    n
}

/// Appends the part for `n` to `out`, separated from earlier parts.
fn push_part(out: &mut String, count: &mut usize, n: usize, word: &str)
    requires
        *old(count) < 3,
    ensures
        n > 0 ==> *final(count) == *old(count) + 1,
        n == 0 ==> *final(count) == *old(count),
        n > 0 && *old(count) > 0 ==> final(out)@ == old(out)@ + ", "@ + decimal(n as nat) + " "@ + word@,
        n > 0 && *old(count) == 0 ==> final(out)@ == old(out)@ + decimal(n as nat) + " "@ + word@,
        n == 0 ==> final(out)@ == old(out)@,
{
    if n > 0 {
        if *count > 0 {
            out.append(", ");
        }
        let digits = decimal_string(n as u64);
        out.append(digits.as_str());
        out.append(" ");
        out.append(word);
        *count = *count + 1;
    }
}

impl TraySnapshot {
    /// Whether some agent is waiting for the user.
    pub fn attention(&self) -> (waiting: bool)
        ensures
            waiting == exists|i: int|
                0 <= i < self.agents@.len() && #[trigger] self.agents@[i].status
                    == AgentStatus::Waiting,
    {
        let mut i: usize = 0;
        while i < self.agents.len()
            invariant
                i <= self.agents@.len(),
                forall|k: int| 0 <= k < i ==> self.agents@[k].status != AgentStatus::Waiting,
            decreases self.agents@.len() - i,
        {
            if self.agents[i].status == AgentStatus::Waiting {
                return true;
            }
            i = i + 1;
        }
        false
    }

    /// "agentty" followed by the non-zero waiting, working and done counts.
    pub fn tooltip(&self) -> (text: String)
        ensures
            text@ == tooltip_text(*self),
    {
        let waiting = count_exec(&self.agents, AgentStatus::Waiting);
        let working = count_exec(&self.agents, AgentStatus::Working);
        let done = count_exec(&self.agents, AgentStatus::Done);
        let locale = self.locale;
        let mut parts = String::new();
        let mut count: usize = 0;
        push_part(&mut parts, &mut count, waiting, tr(locale, TrayText::TooltipWaiting));
        push_part(&mut parts, &mut count, working, tr(locale, TrayText::TooltipWorking));
        push_part(&mut parts, &mut count, done, tr(locale, TrayText::TooltipDone));
        proof {
            let w = tooltip_part(waiting as nat, tray_text(locale, TrayText::TooltipWaiting));
            let k = tooltip_part(working as nat, tray_text(locale, TrayText::TooltipWorking));
            let d = tooltip_part(done as nat, tray_text(locale, TrayText::TooltipDone));
            lemma_join_three(w, k, d, ", "@);
        }
        if count == 0 {
            owned("agentty")
        } else {
            let mut text = owned("agentty — ");
            text.append(parts.as_str());
            text
        }
    }
}

/// Joining up to three optional parts, stated case by case.
proof fn lemma_join_three(w: Seq<Seq<char>>, k: Seq<Seq<char>>, d: Seq<Seq<char>>, sep: Seq<char>)
    requires
        w.len() <= 1,
        k.len() <= 1,
        d.len() <= 1,
    ensures
        ({
            let parts = w + k + d;
            let wk = if w.len() == 1 && k.len() == 1 {
                w[0] + sep + k[0]
            } else if w.len() == 1 {
                w[0]
            } else if k.len() == 1 {
                k[0]
            } else {
                Seq::empty()
            };
            join(parts, sep) == if d.len() == 1 && (w.len() == 1 || k.len() == 1) {
                wk + sep + d[0]
            } else if d.len() == 1 {
                d[0]
            } else {
                wk
            }
        }),
{
    let parts = w + k + d;
    let wk = w + k;
    assert(join(wk, sep) == if w.len() == 1 && k.len() == 1 {
        w[0] + sep + k[0]
    } else if w.len() == 1 {
        w[0]
    } else if k.len() == 1 {
        k[0]
    } else {
        Seq::empty()
    }) by {
        if w.len() == 1 && k.len() == 1 {
            assert(wk.drop_last() =~= w);
            assert(join(w, sep) == w[0]);
        } else if w.len() == 1 {
            assert(wk =~= w);
        } else if k.len() == 1 {
            assert(wk =~= k);
        } else {
            assert(wk.len() == 0);
        }
    }
    if d.len() == 1 {
        assert(parts.drop_last() =~= wk);
        assert(parts.last() == d[0]);
        if wk.len() == 0 {
            assert(parts =~= d);
        }
    } else {
        assert(parts =~= wk);
    }
}

// ------------------------------------------------------------------ the menu

/// One entry of the tray menu.
#[derive(Debug)]
pub enum SpecItem {
    Item { id: String, label: String, checked: Option<bool>, avatar: Option<(CliAgent, AgentStatus)> },
    Separator,
    Submenu { label: String, items: Vec<SpecItem> },
}

/// `x` is a plain item with this id, label and check state, and no avatar.
pub open spec fn is_item(x: SpecItem, id: Seq<char>, label: Seq<char>, checked: Option<bool>) -> bool {
    x matches SpecItem::Item { id: i, label: l, checked: c, avatar: a } && i@ == id && l@ == label
        && c == checked && a is None
}

/// What follows an agent row's label for its status.
pub open spec fn status_suffix(locale: Locale, status: AgentStatus) -> Seq<char> {
    match status {
        AgentStatus::Waiting => " — "@ + tray_text(locale, TrayText::StatusWaiting),
        AgentStatus::Working => " — "@ + tray_text(locale, TrayText::StatusWorking),
        AgentStatus::Done => " — "@ + tray_text(locale, TrayText::StatusDone),
        AgentStatus::Idle => Seq::empty(),
    }
}

/// The menu id of the row for the pane `leaf_id`.
pub open spec fn agent_item_id(leaf_id: u64) -> Seq<char> {
    "agent:"@ + decimal(leaf_id as nat)
}

/// `x` is the menu row of `row`: its id names the pane, its label names the
/// agent, the row's detail and the status, and its avatar is the agent.
pub open spec fn is_agent_item(x: SpecItem, row: AgentRow, locale: Locale) -> bool {
    x matches SpecItem::Item { id, label, checked, avatar } && id@ == agent_item_id(row.leaf_id)
        && label@ == agent_display_name(row.agent) + " · "@ + row.detail@ + status_suffix(
        locale,
        row.status,
    ) && checked is None && avatar == Some((row.agent, row.status))
}

/// `x` is the Notifications submenu, its three modes checked by `mode`.
pub open spec fn is_notify_submenu(x: SpecItem, locale: Locale, mode: NotifyMode) -> bool {
    x matches SpecItem::Submenu { label, items } && label@ == tray_text(locale, TrayText::Notifications)
        && items@.len() == 3 && is_item(
        items@[0],
        "notify:never"@,
        tray_text(locale, TrayText::OptNever),
        Some(mode == NotifyMode::Never),
    ) && is_item(
        items@[1],
        "notify:unfocused"@,
        tray_text(locale, TrayText::OptWhenUnfocused),
        Some(mode == NotifyMode::Unfocused),
    ) && is_item(
        items@[2],
        "notify:always"@,
        tray_text(locale, TrayText::OptAlways),
        Some(mode == NotifyMode::Always),
    )
}

/// Where the fixed tail of the menu starts: after Show, its separator, the
/// agent rows, and a separator that is there only when there are agents.
pub open spec fn menu_tail(snap: TraySnapshot) -> int {
    2 + snap.agents@.len() + if snap.agents@.len() > 0 {
        1int
    } else {
        0int
    }
}

/// The tray menu of `snap`: Show, a separator, one row per agent, a separator
/// when there are agents, the Notifications submenu, Settings, Check for
/// Updates, a separator, Quit, and Quit and Stop Server.
pub open spec fn is_menu_of(snap: TraySnapshot, items: Seq<SpecItem>) -> bool {
    let n = snap.agents@.len() as int;
    let t = menu_tail(snap);
    let l = snap.locale;
    &&& items.len() == t + 6
    &&& is_item(items[0], "show"@, tray_text(l, TrayText::Show), None)
    &&& items[1] is Separator
    &&& forall|i: int| 0 <= i < n ==> is_agent_item(#[trigger] items[2 + i], snap.agents@[i], l)
    &&& n > 0 ==> items[2 + n] is Separator
    &&& is_notify_submenu(items[t], l, snap.notify_mode)
    &&& is_item(items[t + 1], "settings"@, tray_text(l, TrayText::Settings), None)
    &&& is_item(items[t + 2], "updates"@, tray_text(l, TrayText::CheckUpdates), None)
    &&& items[t + 3] is Separator
    &&& is_item(items[t + 4], "quit"@, tray_text(l, TrayText::Quit), None)
    &&& is_item(items[t + 5], "quit-stop"@, tray_text(l, TrayText::QuitStop), None)
}

fn plain_item(id: &str, label: &str) -> (item: SpecItem)
    ensures
        is_item(item, id@, label@, None),
{
    SpecItem::Item { id: owned(id), label: owned(label), checked: None, avatar: None }
}

fn notify_item(id: &str, label: &str, checked: bool) -> (item: SpecItem)
    ensures
        is_item(item, id@, label@, Some(checked)),
{
    SpecItem::Item { id: owned(id), label: owned(label), checked: Some(checked), avatar: None }
}

fn agent_item(row: &AgentRow, locale: Locale) -> (item: SpecItem)
    ensures
        is_agent_item(item, *row, locale),
{
    let mut id = owned("agent:");
    let digits = decimal_string(row.leaf_id);
    id.append(digits.as_str());
    let mut label = owned(row.agent.display_name());
    label.append(" · ");
    label.append(row.detail.as_str());
    match row.status {
        AgentStatus::Waiting => {
            label.append(" — ");
            label.append(tr(locale, TrayText::StatusWaiting));
        },
        AgentStatus::Working => {
            label.append(" — ");
            label.append(tr(locale, TrayText::StatusWorking));
        },
        AgentStatus::Done => {
            label.append(" — ");
            label.append(tr(locale, TrayText::StatusDone));
        },
        AgentStatus::Idle => {
            assert(status_suffix(locale, row.status) =~= Seq::<char>::empty());
            assert(label@ =~= label@ + Seq::<char>::empty());
        },
    }
    assert(label@ =~= agent_display_name(row.agent) + " · "@ + row.detail@ + status_suffix(
        locale,
        row.status,
    ));
    SpecItem::Item { id, label, checked: None, avatar: Some((row.agent, row.status)) }
}

/// The tray menu for `snap`.
pub fn menu_spec(snap: &TraySnapshot) -> (items: Vec<SpecItem>)
    ensures
        is_menu_of(*snap, items@),
{
    let locale = snap.locale;
    let mut items: Vec<SpecItem> = Vec::new();
    items.push(plain_item("show", tr(locale, TrayText::Show)));
    items.push(SpecItem::Separator);
    let mut i: usize = 0;
    while i < snap.agents.len()
        invariant
            i <= snap.agents@.len(),
            locale == snap.locale,
            items@.len() == 2 + i,
            is_item(items@[0], "show"@, tray_text(locale, TrayText::Show), None),
            items@[1] is Separator,
            forall|k: int| 0 <= k < i ==> is_agent_item(#[trigger] items@[2 + k], snap.agents@[k], locale),
        decreases snap.agents@.len() - i,
    {
        let item = agent_item(&snap.agents[i], locale);
        items.push(item);
        i = i + 1;
    }
    if snap.agents.len() > 0 {
        items.push(SpecItem::Separator);
    }
    let mode = snap.notify_mode;
    let mut sub: Vec<SpecItem> = Vec::new();
    sub.push(notify_item("notify:never", tr(locale, TrayText::OptNever), mode == NotifyMode::Never));
    sub.push(
        notify_item("notify:unfocused", tr(locale, TrayText::OptWhenUnfocused), mode == NotifyMode::Unfocused),
    );
    sub.push(notify_item("notify:always", tr(locale, TrayText::OptAlways), mode == NotifyMode::Always));
    items.push(SpecItem::Submenu { label: owned(tr(locale, TrayText::Notifications)), items: sub });
    items.push(plain_item("settings", tr(locale, TrayText::Settings)));
    items.push(plain_item("updates", tr(locale, TrayText::CheckUpdates)));
    items.push(SpecItem::Separator);
    items.push(plain_item("quit", tr(locale, TrayText::Quit)));
    items.push(plain_item("quit-stop", tr(locale, TrayText::QuitStop)));
    items
}

// ------------------------------------------------------------ decoding ids

/// The action a menu id stands for: one of the fixed ids, or `agent:` and a
/// pane's leaf id.
pub open spec fn action_of_id(id: Seq<char>) -> Option<TrayAction> {
    if id == "show"@ {
        Some(TrayAction::ShowWindow)
    } else if id == "settings"@ {
        Some(TrayAction::OpenSettings)
    } else if id == "updates"@ {
        Some(TrayAction::CheckForUpdates)
    } else if id == "quit"@ {
        Some(TrayAction::Quit)
    } else if id == "quit-stop"@ {
        Some(TrayAction::QuitStopSessions)
    } else if id == "notify:always"@ {
        Some(TrayAction::SetNotifyMode(NotifyMode::Always))
    } else if id == "notify:unfocused"@ {
        Some(TrayAction::SetNotifyMode(NotifyMode::Unfocused))
    } else if id == "notify:never"@ {
        Some(TrayAction::SetNotifyMode(NotifyMode::Never))
    } else if starts_with(id, "agent:"@) {
        match parse_u64(id.skip("agent:"@.len() as int)) {
            Some(leaf_id) => Some(TrayAction::RevealLeaf { leaf_id }),
            None => None,
        }
    } else {
        None
    }
}

/// Decodes a menu id back into the action it stands for.
pub fn action_from_id(id: &str) -> (action: Option<TrayAction>)
    ensures
        action == action_of_id(id@),
{
    if str_eq(id, "show") {
        Some(TrayAction::ShowWindow)
    } else if str_eq(id, "settings") {
        Some(TrayAction::OpenSettings)
    } else if str_eq(id, "updates") {
        Some(TrayAction::CheckForUpdates)
    } else if str_eq(id, "quit") {
        Some(TrayAction::Quit)
    } else if str_eq(id, "quit-stop") {
        Some(TrayAction::QuitStopSessions)
    } else if str_eq(id, "notify:always") {
        Some(TrayAction::SetNotifyMode(NotifyMode::Always))
    } else if str_eq(id, "notify:unfocused") {
        Some(TrayAction::SetNotifyMode(NotifyMode::Unfocused))
    } else if str_eq(id, "notify:never") {
        Some(TrayAction::SetNotifyMode(NotifyMode::Never))
    } else {
        let cs = chars_of(id);
        let prefix = chars_of("agent:");
        if !starts_with_chars(cs.as_slice(), prefix.as_slice()) {
            return None;
        }
        let rest = skip_chars(cs.as_slice(), prefix.len());
        match parse_u64_chars(rest.as_slice()) {
            Some(leaf_id) => Some(TrayAction::RevealLeaf { leaf_id }),
            None => None,
        }
    }
}

/// The id of an agent row decodes to revealing exactly that pane.
pub proof fn lemma_agent_id_decodes(leaf_id: u64)
    ensures
        action_of_id(agent_item_id(leaf_id)) == Some(TrayAction::RevealLeaf { leaf_id }),
{
    reveal_strlit("agent:");
    reveal_strlit("show");
    reveal_strlit("settings");
    reveal_strlit("updates");
    reveal_strlit("quit");
    reveal_strlit("quit-stop");
    reveal_strlit("notify:always");
    reveal_strlit("notify:unfocused");
    reveal_strlit("notify:never");
    let id = agent_item_id(leaf_id);
    lemma_decimal_digits(leaf_id as nat);
    lemma_parse_decimal(leaf_id);
    assert(id[0] == 'a');
    assert(id.take(6) =~= "agent:"@);
    assert(id.skip(6) =~= decimal(leaf_id as nat));
    assert(id != "show"@ && id != "settings"@ && id != "updates"@ && id != "quit"@);
    assert(id != "quit-stop"@) by {
        if id.len() == "quit-stop"@.len() {
            assert(id[0] != "quit-stop"@[0]);
        }
    }
    assert(id != "notify:always"@) by {
        assert(id[0] != "notify:always"@[0]);
    }
    assert(id != "notify:unfocused"@) by {
        assert(id[0] != "notify:unfocused"@[0]);
    }
    assert(id != "notify:never"@) by {
        assert(id[0] != "notify:never"@[0]);
    }
}

/// The menu never offers an id that does not decode: every item of the top
/// level and of the Notifications submenu stands for an action.
pub proof fn lemma_menu_ids_decode(snap: TraySnapshot, items: Seq<SpecItem>)
    requires
        is_menu_of(snap, items),
    ensures
        forall|i: int|
            0 <= i < items.len() ==> match #[trigger] items[i] {
                SpecItem::Item { id, .. } => action_of_id(id@) is Some,
                SpecItem::Separator => true,
                SpecItem::Submenu { items: sub, .. } => forall|j: int|
                    0 <= j < sub@.len() ==> (#[trigger] sub@[j] matches SpecItem::Item { id, .. }
                        && action_of_id(id@) is Some),
            },
{
    let n = snap.agents@.len() as int;
    let t = menu_tail(snap);
    assert forall|i: int| 0 <= i < items.len() implies match #[trigger] items[i] {
        SpecItem::Item { id, .. } => action_of_id(id@) is Some,
        SpecItem::Separator => true,
        SpecItem::Submenu { items: sub, .. } => forall|j: int|
            0 <= j < sub@.len() ==> (#[trigger] sub@[j] matches SpecItem::Item { id, .. }
                && action_of_id(id@) is Some),
    } by {
        if 2 <= i < 2 + n {
            assert(is_agent_item(items[2 + (i - 2)], snap.agents@[i - 2], snap.locale));
            lemma_agent_id_decodes(snap.agents@[i - 2].leaf_id);
        }
    }
}

/// The menu never shows two separators in a row.
pub proof fn lemma_menu_no_double_separator(snap: TraySnapshot, items: Seq<SpecItem>)
    requires
        is_menu_of(snap, items),
    ensures
        forall|i: int| 0 <= i < items.len() - 1 ==> !(#[trigger] items[i] is Separator && items[i + 1] is Separator),
{
    let n = snap.agents@.len() as int;
    assert forall|i: int| 0 <= i < items.len() - 1 implies !(#[trigger] items[i] is Separator && items[i + 1] is Separator) by {
        if 2 <= i < 2 + n {
            assert(is_agent_item(items[2 + (i - 2)], snap.agents@[i - 2], snap.locale));
        }
        if 1 <= i < 1 + n {
            assert(is_agent_item(items[2 + (i - 1)], snap.agents@[i - 1], snap.locale));
        }
    }
}

/// The action a click on a system notification sends: reveal that pane.
pub fn notification_reveal_action(target: PaneIdentity) -> (action: TrayAction)
    ensures
        action == (TrayAction::RevealPane { target }),
{
    TrayAction::RevealPane { target }
}

/// A reveal whose pane no window owns any more is dropped; it never falls
/// back to another window.
pub fn dispatch_target_for_reveal(found: bool, has_recent: bool) -> (target: Option<()>)
    ensures
        target is Some <==> found,
{
    if found {
        Some(())
    } else {
        None
    }
}

/// Where a tray action goes.
#[derive(Clone, Copy, Debug, PartialEq, Eq, Structural)]
pub enum DispatchPlan {
    /// Hand the action to the window of this workspace.
    Deliver(WorkspaceId),
    /// No window to hand it to, and the action is Quit: quit the application.
    QuitApp,
    /// No window to hand it to: drop it.
    Drop,
}

/// Which window receives `action`. A reveal goes to the window that owns the
/// leaf or pane (`owner`, which the caller looked up); a pane reveal goes
/// nowhere else, while every other action falls back to the most recently
/// used window. With no window at all, Quit still quits.
pub open spec fn dispatch_plan_of(
    action: TrayAction,
    owner: Option<WorkspaceId>,
    most_recent: Option<WorkspaceId>,
) -> DispatchPlan {
    let found = match action {
        TrayAction::RevealLeaf { .. } | TrayAction::RevealPane { .. } => owner,
        _ => None,
    };
    let target = match found {
        Some(w) => Some(w),
        None => if action is RevealPane {
            None
        } else {
            most_recent
        },
    };
    match target {
        Some(w) => DispatchPlan::Deliver(w),
        None => if action is Quit {
            DispatchPlan::QuitApp
        } else {
            DispatchPlan::Drop
        },
    }
}

/// The plan a most-recent-window fallback gives: that window, else (for
/// Quit) quitting, else nothing.
pub open spec fn fallback_plan(action: TrayAction, most_recent: Option<WorkspaceId>) -> DispatchPlan {
    match most_recent {
        Some(w) => DispatchPlan::Deliver(w),
        None => if action is Quit {
            DispatchPlan::QuitApp
        } else {
            DispatchPlan::Drop
        },
    }
}

/// A reveal of a leaf or of a pane that some window owns goes to that window,
/// whichever window was used last. A pane reveal that no window owns is
/// dropped; a leaf reveal that none owns, and every other action, goes to the
/// most recently used window, and with none, Quit still quits. What owns a
/// leaf or pane matters to reveals alone: any two owners give other actions
/// the same plan.
pub proof fn lemma_reveal_goes_to_the_owning_window(
    action: TrayAction,
    owner: Option<WorkspaceId>,
    other_owner: Option<WorkspaceId>,
    most_recent: Option<WorkspaceId>,
)
    ensures
        (action is RevealLeaf || action is RevealPane) && owner is Some ==> dispatch_plan_of(
            action,
            owner,
            most_recent,
        ) == DispatchPlan::Deliver(owner->0),
        action is RevealPane && owner is None ==> dispatch_plan_of(action, owner, most_recent)
            == DispatchPlan::Drop,
        action is RevealLeaf && owner is None ==> dispatch_plan_of(action, owner, most_recent)
            == fallback_plan(action, most_recent),
        !(action is RevealLeaf || action is RevealPane) ==> dispatch_plan_of(action, owner, most_recent)
            == fallback_plan(action, most_recent),
        !(action is RevealLeaf || action is RevealPane) ==> dispatch_plan_of(action, owner, most_recent)
            == dispatch_plan_of(action, other_owner, most_recent),
{
}

pub fn dispatch_plan(
    action: &TrayAction,
    owner: Option<WorkspaceId>,
    most_recent: Option<WorkspaceId>,
) -> (plan: DispatchPlan)
    ensures
        plan == dispatch_plan_of(*action, owner, most_recent),
        (*action is RevealLeaf || *action is RevealPane) && owner is Some ==> plan == DispatchPlan::Deliver(
            owner->0,
        ),
        *action is RevealPane && owner is None ==> plan == DispatchPlan::Drop,
        *action is RevealLeaf && owner is None ==> plan == fallback_plan(*action, most_recent),
        !(*action is RevealLeaf || *action is RevealPane) ==> plan == fallback_plan(*action, most_recent),
{
    proof {
        lemma_reveal_goes_to_the_owning_window(*action, owner, owner, most_recent);
    }
    let reveal_pane = match action {
        TrayAction::RevealPane { .. } => true,
        _ => false,
    };
    let found = match action {
        TrayAction::RevealLeaf { .. } | TrayAction::RevealPane { .. } => owner,
        _ => None,
    };
    let target = match found {
        Some(w) => Some(w),
        None => if reveal_pane {
            None
        } else {
            most_recent
        },
    };
    match target {
        Some(w) => DispatchPlan::Deliver(w),
        None => match action {
            TrayAction::Quit => DispatchPlan::QuitApp,
            _ => DispatchPlan::Drop,
        },
    }
}

// ------------------------------------------------------ listing order

/// `rows` with the given status, in their order.
pub open spec fn with_status(rows: Seq<AgentRow>, status: AgentStatus) -> Seq<AgentRow> {
    rows.filter(|r: AgentRow| r.status == status)
}

/// The tray's listing order: waiting rows first, then working, done and idle,
/// each group in the order it came in (a stable sort by descending urgency).
pub open spec fn by_urgency(rows: Seq<AgentRow>) -> Seq<AgentRow> {
    with_status(rows, AgentStatus::Waiting) + with_status(rows, AgentStatus::Working)
        + with_status(rows, AgentStatus::Done) + with_status(rows, AgentStatus::Idle)
}

fn collect_status(rows: &Vec<AgentRow>, status: AgentStatus, out: &mut Vec<AgentRow>)
    ensures
        final(out)@ == old(out)@ + with_status(rows@, status),
{
    let ghost start = old(out)@;
    let mut i: usize = 0;
    while i < rows.len()
        invariant
            i <= rows@.len(),
            out@ == start + rows@.take(i as int).filter(|r: AgentRow| r.status == status),
        decreases rows@.len() - i,
    {
        proof {
            reveal(Seq::filter);
            assert(rows@.take(i + 1).drop_last() =~= rows@.take(i as int));
        }
        if rows[i].status == status {
            out.push(rows[i].clone());
        }
        i = i + 1;
        proof {
            assert(out@ =~= start + rows@.take(i as int).filter(|r: AgentRow| r.status == status));
        }
    }
    assert(rows@.take(rows@.len() as int) =~= rows@);
}

proof fn lemma_with_status_push(rows: Seq<AgentRow>, x: AgentRow, status: AgentStatus)
    ensures
        with_status(rows.push(x), status) == if x.status == status {
            with_status(rows, status).push(x)
        } else {
            with_status(rows, status)
        },
{
    rows.lemma_filter_push(x, |r: AgentRow| r.status == status);
}

proof fn lemma_with_status_twice(rows: Seq<AgentRow>, t: AgentStatus, s: AgentStatus)
    ensures
        with_status(with_status(rows, t), s) == if t == s {
            with_status(rows, t)
        } else {
            Seq::<AgentRow>::empty()
        },
    decreases rows.len(),
{
    if rows.len() == 0 {
        reveal(Seq::filter);
        assert(with_status(rows, t) =~= rows);
        assert(with_status(with_status(rows, t), s) =~= rows);
    } else {
        let r = rows.drop_last();
        let x = rows.last();
        assert(rows =~= r.push(x));
        lemma_with_status_twice(r, t, s);
        lemma_with_status_push(r, x, t);
        if x.status == t {
            lemma_with_status_push(with_status(r, t), x, s);
        }
    }
}

proof fn lemma_with_status_counts(rows: Seq<AgentRow>)
    ensures
        with_status(rows, AgentStatus::Waiting).len() + with_status(rows, AgentStatus::Working).len()
            + with_status(rows, AgentStatus::Done).len() + with_status(rows, AgentStatus::Idle).len()
            == rows.len(),
    decreases rows.len(),
{
    if rows.len() == 0 {
        reveal(Seq::filter);
    } else {
        let r = rows.drop_last();
        let x = rows.last();
        assert(rows =~= r.push(x));
        lemma_with_status_counts(r);
        lemma_with_status_push(r, x, AgentStatus::Waiting);
        lemma_with_status_push(r, x, AgentStatus::Working);
        lemma_with_status_push(r, x, AgentStatus::Done);
        lemma_with_status_push(r, x, AgentStatus::Idle);
    }
}

proof fn lemma_with_status_holds(rows: Seq<AgentRow>, status: AgentStatus)
    ensures
        forall|i: int|
            0 <= i < with_status(rows, status).len() ==> (#[trigger] with_status(rows, status)[i]).status
                == status,
{
    assert forall|i: int| 0 <= i < with_status(rows, status).len() implies (#[trigger] with_status(
        rows,
        status,
    )[i]).status == status by {
        rows.lemma_filter_pred(|r: AgentRow| r.status == status, i);
    }
}

/// The tray's order is a stable sort by urgency: it holds as many rows as
/// came in, no row comes before a more urgent one, and the rows of each
/// status are exactly those that came in with it, in the order they came.
pub proof fn lemma_urgency_order_is_a_stable_sort(rows: Seq<AgentRow>)
    ensures
        by_urgency(rows).len() == rows.len(),
        forall|i: int, j: int|
            0 <= i < j < rows.len() ==> urgency_rank((#[trigger] by_urgency(rows)[j]).status) <= urgency_rank(
                (#[trigger] by_urgency(rows)[i]).status,
            ),
        forall|s: AgentStatus| #[trigger] with_status(by_urgency(rows), s) == with_status(rows, s),
{
    let a = with_status(rows, AgentStatus::Waiting);
    let b = with_status(rows, AgentStatus::Working);
    let c = with_status(rows, AgentStatus::Done);
    let d = with_status(rows, AgentStatus::Idle);
    let out = by_urgency(rows);
    lemma_with_status_counts(rows);
    lemma_with_status_holds(rows, AgentStatus::Waiting);
    lemma_with_status_holds(rows, AgentStatus::Working);
    lemma_with_status_holds(rows, AgentStatus::Done);
    lemma_with_status_holds(rows, AgentStatus::Idle);
    assert forall|i: int| 0 <= i < out.len() implies urgency_rank((#[trigger] out[i]).status) == (if i
        < a.len() {
        3int
    } else if i < a.len() + b.len() {
        2int
    } else if i < a.len() + b.len() + c.len() {
        1int
    } else {
        0int
    }) by {
        if i < a.len() {
            assert(out[i] == a[i]);
        } else if i < a.len() + b.len() {
            assert(out[i] == b[i - a.len()]);
        } else if i < a.len() + b.len() + c.len() {
            assert(out[i] == c[i - a.len() - b.len()]);
        } else {
            assert(out[i] == d[i - a.len() - b.len() - c.len()]);
        }
    }
    assert forall|s: AgentStatus| #[trigger] with_status(out, s) == with_status(rows, s) by {
        let p = |r: AgentRow| r.status == s;
        Seq::filter_distributes_over_add(a + b + c, d, p);
        Seq::filter_distributes_over_add(a + b, c, p);
        Seq::filter_distributes_over_add(a, b, p);
        lemma_with_status_twice(rows, AgentStatus::Waiting, s);
        lemma_with_status_twice(rows, AgentStatus::Working, s);
        lemma_with_status_twice(rows, AgentStatus::Done, s);
        lemma_with_status_twice(rows, AgentStatus::Idle, s);
        assert(with_status(out, s) =~= with_status(rows, s));
    }
}

/// Orders the agent rows for the tray, most urgent first.
pub fn order_by_urgency(rows: &Vec<AgentRow>) -> (ordered: Vec<AgentRow>)
    ensures
        ordered@ == by_urgency(rows@),
        ordered@.len() == rows@.len(),
        forall|i: int, j: int|
            0 <= i < j < ordered@.len() ==> urgency_rank((#[trigger] ordered@[j]).status) <= urgency_rank(
                (#[trigger] ordered@[i]).status,
            ),
        forall|s: AgentStatus| #[trigger] with_status(ordered@, s) == with_status(rows@, s),
{
    proof {
        lemma_urgency_order_is_a_stable_sort(rows@);
    }
    let mut out: Vec<AgentRow> = Vec::new();
    collect_status(rows, AgentStatus::Waiting, &mut out);
    collect_status(rows, AgentStatus::Working, &mut out);
    collect_status(rows, AgentStatus::Done, &mut out);
    collect_status(rows, AgentStatus::Idle, &mut out);
    assert(out@ =~= by_urgency(rows@));
    out
}

// ------------------------------------------------------ the icon backend

/// Attempts to create the icon backend before the tray gives up.
pub const TRAY_MAX_ATTEMPTS: u32 = 10;

/// Polls to wait after a failed attempt before the next one.
pub const TRAY_RETRY_EVERY: u32 = 30;

/// What one poll of the tray loop does.
#[derive(Clone, Copy, Debug, PartialEq, Eq, Structural)]
pub enum TrayTick {
    /// The icon is switched off: drop the backend and what it showed.
    Disabled,
    /// Still cooling down after a failed attempt: skip this poll.
    Cooling,
    /// Try to create the backend now, then update it if that worked.
    Create,
    /// Update the backend, if there is one, when the snapshot changed.
    Update,
}

/// The tray loop's retry state.
#[derive(Clone, Copy, Debug, PartialEq, Eq, Default, Structural)]
pub struct TrayRetry {
    pub attempts: u32,
    pub cooldown: u32,
}

impl TrayRetry {
    /// One poll. `has_backend` says whether a backend is up.
    pub fn tick(&mut self, enabled: bool, has_backend: bool) -> (tick: TrayTick)
        requires
            old(self).attempts <= TRAY_MAX_ATTEMPTS,
        ensures
            final(self).attempts <= TRAY_MAX_ATTEMPTS,
            !enabled ==> tick == TrayTick::Disabled && *final(self) == (TrayRetry {
                attempts: 0,
                cooldown: 0,
            }),
            enabled && (has_backend || old(self).attempts >= TRAY_MAX_ATTEMPTS) ==> tick
                == TrayTick::Update && *final(self) == *old(self),
            enabled && !has_backend && old(self).attempts < TRAY_MAX_ATTEMPTS && old(self).cooldown
                > 0 ==> tick == TrayTick::Cooling && final(self).attempts == old(self).attempts
                && final(self).cooldown == old(self).cooldown - 1,
            enabled && !has_backend && old(self).attempts < TRAY_MAX_ATTEMPTS && old(self).cooldown
                == 0 ==> tick == TrayTick::Create && final(self).attempts == old(self).attempts + 1
                && final(self).cooldown == 0,
    {
        if !enabled {
            self.attempts = 0;
            self.cooldown = 0;
            return TrayTick::Disabled;
        }
        if has_backend || self.attempts >= TRAY_MAX_ATTEMPTS {
            return TrayTick::Update;
        }
        if self.cooldown > 0 {
            self.cooldown = self.cooldown - 1;
            return TrayTick::Cooling;
        }
        self.attempts = self.attempts + 1;
        TrayTick::Create
    }

    /// Records how an attempt went. Returns whether the tray has now given
    /// up for good (the last attempt failed).
    pub fn created(&mut self, ok: bool) -> (gave_up: bool)
        ensures
            ok ==> *final(self) == *old(self) && !gave_up,
            !ok ==> final(self).attempts == old(self).attempts && final(self).cooldown
                == TRAY_RETRY_EVERY && gave_up == (old(self).attempts == TRAY_MAX_ATTEMPTS),
    {
        if ok {
            return false;
        }
        self.cooldown = TRAY_RETRY_EVERY;
        self.attempts == TRAY_MAX_ATTEMPTS
    }
}

} // verus!
