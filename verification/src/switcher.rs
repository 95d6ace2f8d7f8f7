//! The workspace switcher: how each machine's link reads, which workspaces
//! and tabs a search leaves on screen and in what order, which keystrokes
//! drive the panel, and the panes nobody holds.
use vstd::prelude::*;

use std::collections::HashSet;

use crate::ids::{TabId, WorkspaceId};
use crate::rows::{clone_opt, opt_view, strings_view};
use crate::strip::{identity_order, identity_vec, trim, trim_chars};
use vstd::string::*;

use crate::seqs::{
    first_index, first_where, lemma_first_index_absent, lemma_first_index_found, lemma_first_where_absent,
    lemma_first_where_found, lemma_first_where_meaning,
};
use crate::text::{ascii_lower, owned, chars_of, contains_chars, contains_seq, extend_chars, str_eq, string_of, take_chars};

verus! {

// ------------------------------------------------------------------ machines

/// Where a machine is reached: a saved profile, an ssh config alias, an
/// address dialled directly, a WSL distribution, or a server program run
/// locally over stdio.
#[derive(Debug, PartialEq, Eq)]
pub enum RemoteTarget {
    Profile { id: u128 },
    Alias { alias: String },
    Direct { user: String, host: String, port: u16 },
    Wsl { distro: String },
    LocalStdio { program: String, args: Vec<String> },
}

/// A target as plain values.
pub enum TargetView {
    Profile(u128),
    Alias(Seq<char>),
    Direct(Seq<char>, Seq<char>, u16),
    Wsl(Seq<char>),
    LocalStdio(Seq<char>, Seq<Seq<char>>),
}

impl View for RemoteTarget {
    type V = TargetView;

    open spec fn view(&self) -> TargetView {
        match self {
            RemoteTarget::Profile { id } => TargetView::Profile(*id),
            RemoteTarget::Alias { alias } => TargetView::Alias(alias@),
            RemoteTarget::Direct { user, host, port } => TargetView::Direct(user@, host@, *port),
            RemoteTarget::Wsl { distro } => TargetView::Wsl(distro@),
            RemoteTarget::LocalStdio { program, args } => TargetView::LocalStdio(
                program@,
                strings_view(args@),
            ),
        }
    }
}

/// Whether two lists of strings hold the same strings in the same order.
pub fn same_strings(a: &Vec<String>, b: &Vec<String>) -> (same: bool)
    ensures
        same == (strings_view(a@) == strings_view(b@)),
{
    let ghost va = strings_view(a@);
    let ghost vb = strings_view(b@);
    if a.len() != b.len() {
        assert(va.len() != vb.len());
        return false;
    }
    let mut i: usize = 0;
    while i < a.len()
        invariant
            a@.len() == b@.len(),
            va == strings_view(a@),
            vb == strings_view(b@),
            i <= a@.len(),
            forall|j: int| 0 <= j < i ==> va[j] == vb[j],
        decreases a@.len() - i,
    {
        if !str_eq(a[i].as_str(), b[i].as_str()) {
            assert(va[i as int] != vb[i as int]);
            return false;
        }
        i = i + 1;
    }
    assert(va =~= vb);
    true
}

/// Whether two targets reach the same machine the same way.
pub fn same_target(a: &RemoteTarget, b: &RemoteTarget) -> (same: bool)
    ensures
        same == (a@ == b@),
{
    match (a, b) {
        (RemoteTarget::Profile { id: x }, RemoteTarget::Profile { id: y }) => *x == *y,
        (RemoteTarget::Alias { alias: x }, RemoteTarget::Alias { alias: y }) => str_eq(
            x.as_str(),
            y.as_str(),
        ),
        (
            RemoteTarget::Direct { user: u1, host: h1, port: p1 },
            RemoteTarget::Direct { user: u2, host: h2, port: p2 },
        ) => str_eq(u1.as_str(), u2.as_str()) && str_eq(h1.as_str(), h2.as_str()) && *p1 == *p2,
        (RemoteTarget::Wsl { distro: x }, RemoteTarget::Wsl { distro: y }) => str_eq(
            x.as_str(),
            y.as_str(),
        ),
        (
            RemoteTarget::LocalStdio { program: p1, args: a1 },
            RemoteTarget::LocalStdio { program: p2, args: a2 },
        ) => str_eq(p1.as_str(), p2.as_str()) && same_strings(a1, a2),
        _ => false,
    }
}

/// A machine offered for connecting: its target, how it is named, and what
/// is shown beside the name.
pub struct HostChoice {
    pub target: RemoteTarget,
    pub label: String,
    pub detail: String,
}

/// This window's own connect: under way, or failed with a reason.
pub enum ConnectFlow {
    Connecting { choice: HostChoice },
    Failed { choice: HostChoice, error: String },
}

/// What the link supervisor reports of a machine.
pub enum MachineStatus {
    Connecting,
    Attached,
    Reconnecting { attempt: u32, last_error: Option<String> },
    Failed(String),
}

/// How one machine's link reads in the switcher.
#[derive(Clone, Copy, Debug, PartialEq, Eq, Structural)]
pub enum Link {
    Local,
    Connected,
    Connecting,
    /// The supervisor is retrying the machine on its backoff.
    Reconnecting { attempt: u32 },
    Failed,
    Offline,
}

/// Whether Disconnect has anything to stop: a live link, a connect under
/// way, or a retry the supervisor is running.
pub open spec fn engaged(link: Link) -> bool {
    match link {
        Link::Connected | Link::Connecting | Link::Reconnecting { .. } => true,
        _ => false,
    }
}

/// Whether Disconnect has anything to stop.
pub fn link_is_engaged(link: Link) -> (e: bool)
    ensures
        e == engaged(link),
{
    match link {
        Link::Connected | Link::Connecting | Link::Reconnecting { .. } => true,
        _ => false,
    }
}

/// The caption of a machine's link state.
#[derive(Clone, Copy, Debug, PartialEq, Eq, Structural)]
pub enum LinkCaption {
    ThisComputer,
    Connected,
    Connecting,
    Reconnecting,
    ConnectFailed,
    NotConnected,
}

/// The caption of a machine's link state.
pub open spec fn caption_of(link: Link) -> LinkCaption {
    match link {
        Link::Local => LinkCaption::ThisComputer,
        Link::Connected => LinkCaption::Connected,
        Link::Connecting => LinkCaption::Connecting,
        Link::Reconnecting { .. } => LinkCaption::Reconnecting,
        Link::Failed => LinkCaption::ConnectFailed,
        Link::Offline => LinkCaption::NotConnected,
    }
}

/// The caption of a machine's link state.
pub fn machine_link_label(link: Link) -> (caption: LinkCaption)
    ensures
        caption == caption_of(link),
{
    match link {
        Link::Local => LinkCaption::ThisComputer,
        Link::Connected => LinkCaption::Connected,
        Link::Connecting => LinkCaption::Connecting,
        Link::Reconnecting { .. } => LinkCaption::Reconnecting,
        Link::Failed => LinkCaption::ConnectFailed,
        Link::Offline => LinkCaption::NotConnected,
    }
}

/// How a machine's link reads: this window's own connect to that machine
/// first (under way, or failed), then what the supervisor reports, then
/// whether a link exists at all.
pub open spec fn link_of(
    connect: Option<&ConnectFlow>,
    target: TargetView,
    supervised: Option<&MachineStatus>,
    has_link: bool,
) -> Link {
    match connect {
        Some(ConnectFlow::Connecting { choice }) if choice.target@ == target => Link::Connecting,
        Some(ConnectFlow::Failed { choice, .. }) if choice.target@ == target => Link::Failed,
        _ => match supervised {
            Some(MachineStatus::Connecting) => Link::Connecting,
            Some(MachineStatus::Attached) => Link::Connected,
            Some(MachineStatus::Reconnecting { attempt, .. }) => Link::Reconnecting {
                attempt: *attempt,
            },
            Some(MachineStatus::Failed(_)) => Link::Failed,
            None => if has_link {
                Link::Connected
            } else {
                Link::Offline
            },
        },
    }
}

/// How a machine's link reads.
pub fn link_from(
    connect: Option<&ConnectFlow>,
    target: &RemoteTarget,
    supervised: Option<&MachineStatus>,
    has_link: bool,
) -> (link: Link)
    ensures
        link == link_of(connect, target@, supervised, has_link),
{
    match connect {
        Some(ConnectFlow::Connecting { choice }) => {
            if same_target(&choice.target, target) {
                return Link::Connecting;
            }
        },
        Some(ConnectFlow::Failed { choice, .. }) => {
            if same_target(&choice.target, target) {
                return Link::Failed;
            }
        },
        None => {},
    }
    match supervised {
        Some(MachineStatus::Connecting) => Link::Connecting,
        Some(MachineStatus::Attached) => Link::Connected,
        Some(MachineStatus::Reconnecting { attempt, .. }) => Link::Reconnecting { attempt: *attempt },
        Some(MachineStatus::Failed(_)) => Link::Failed,
        None => if has_link {
            Link::Connected
        } else {
            Link::Offline
        },
    }
}

/// The caption of the host-form row for a target: a saved profile can be
/// edited, an alias or a dialled address can be saved as a host, and a WSL
/// distribution or a local server has no host to edit.
pub open spec fn host_form_label_of(target: TargetView) -> Option<Seq<char>> {
    match target {
        TargetView::Profile(_) => Some("Edit Host…"@),
        TargetView::Alias(_) | TargetView::Direct(..) => Some("Save as SSH Host…"@),
        TargetView::Wsl(_) | TargetView::LocalStdio(..) => None,
    }
}

/// The caption of the host-form row for a target.
pub fn host_form_label(target: &RemoteTarget) -> (label: Option<&'static str>)
    ensures
        match label {
            Some(l) => host_form_label_of(target@) == Some(l@),
            None => host_form_label_of(target@) is None,
        },
{
    match target {
        RemoteTarget::Profile { .. } => Some("Edit Host…"),
        RemoteTarget::Alias { .. } | RemoteTarget::Direct { .. } => Some("Save as SSH Host…"),
        RemoteTarget::Wsl { .. } | RemoteTarget::LocalStdio { .. } => None,
    }
}

// -------------------------------------------------------------- host menu

/// An entry of a machine's menu in the switcher.
#[derive(Clone, Copy, Debug, PartialEq, Eq, Structural)]
pub enum HostMenuItem {
    Separator,
    /// The machine's own label, as a caption.
    Label,
    /// Pin the machine to the rail, or unpin it when it is pinned.
    TogglePin { pinned: bool },
    /// Open the host form: edit a saved profile, or save an alias or a
    /// dialled address as a host.
    HostForm { edit: bool },
    Disconnect,
    /// Connect; disabled while a connect is under way.
    Connect { enabled: bool },
    /// Restart the server the machine runs for us.
    RestartServer,
}

/// Whether a list of targets holds a target.
pub open spec fn holds_target(list: Seq<TargetView>, t: TargetView) -> bool {
    exists|i: int| 0 <= i < list.len() && list[i] == t
}

/// The targets of a list, by their views.
pub open spec fn targets_view(list: Seq<RemoteTarget>) -> Seq<TargetView> {
    list.map_values(|t: RemoteTarget| t@)
}

/// Whether a list of targets holds a target.
pub fn contains_target(list: &[RemoteTarget], t: &RemoteTarget) -> (held: bool)
    ensures
        held == holds_target(targets_view(list@), t@),
{
    let mut i: usize = 0;
    while i < list.len()
        invariant
            i <= list.len(),
            forall|j: int| 0 <= j < i ==> targets_view(list@)[j] != t@,
        decreases list.len() - i,
    {
        if same_target(&list[i], t) {
            assert(targets_view(list@)[i as int] == t@);
            return true;
        }
        i = i + 1;
    }
    false
}

/// The menu of a machine in the switcher: nothing for a machine without a
/// target (this computer); else a separator, the machine's label, pinning
/// or unpinning it, its host form where it has one, Disconnect while its
/// link is engaged or else Connect (disabled while connecting), and a
/// restart of our server where the machine hosts it.
pub open spec fn host_menu_of(target: Option<TargetView>, link: Link, pinned: bool, hosts_our_server: bool) -> Seq<HostMenuItem> {
    match target {
        None => Seq::empty(),
        Some(t) => seq![
            HostMenuItem::Separator,
            HostMenuItem::Label,
            HostMenuItem::TogglePin { pinned },
        ] + match t {
            TargetView::Profile(_) => seq![HostMenuItem::HostForm { edit: true }],
            TargetView::Alias(_) | TargetView::Direct(..) => seq![HostMenuItem::HostForm { edit: false }],
            _ => Seq::empty(),
        } + if engaged(link) {
            seq![HostMenuItem::Disconnect]
        } else {
            seq![HostMenuItem::Connect { enabled: link != Link::Connecting }]
        } + if hosts_our_server {
            seq![HostMenuItem::RestartServer]
        } else {
            Seq::empty()
        },
    }
}

/// The menu of a machine in the switcher (see `host_menu_of`); `pinned` is
/// the rail's pinned targets and `hosts_our_server` whether the target
/// runs our server.
pub fn host_menu(target: Option<&RemoteTarget>, link: Link, pinned: &[RemoteTarget], hosts_our_server: bool) -> (menu: Vec<HostMenuItem>)
    ensures
        menu@ == host_menu_of(
            match target {
                Some(t) => Some(t@),
                None => None,
            },
            link,
            match target {
                Some(t) => holds_target(targets_view(pinned@), t@),
                None => false,
            },
            hosts_our_server,
        ),
{
    let mut m: Vec<HostMenuItem> = Vec::new();
    match target {
        None => {
            assert(m@ =~= Seq::<HostMenuItem>::empty());
        },
        Some(t) => {
            let is_pinned = contains_target(pinned, t);
            m.push(HostMenuItem::Separator);
            m.push(HostMenuItem::Label);
            m.push(HostMenuItem::TogglePin { pinned: is_pinned });
            let ghost m0 = m@;
            match host_form_label(t) {
                Some(_) => {
                    let edit = match t {
                        RemoteTarget::Profile { .. } => true,
                        _ => false,
                    };
                    m.push(HostMenuItem::HostForm { edit });
                },
                None => {},
            }
            let ghost m1 = m@;
            if link_is_engaged(link) {
                m.push(HostMenuItem::Disconnect);
            } else {
                let enabled = match link {
                    Link::Connecting => false,
                    _ => true,
                };
                m.push(HostMenuItem::Connect { enabled });
            }
            let ghost m2 = m@;
            if hosts_our_server {
                m.push(HostMenuItem::RestartServer);
            }
            assert(m1 =~= m0 + match t@ {
                TargetView::Profile(_) => seq![HostMenuItem::HostForm { edit: true }],
                TargetView::Alias(_) | TargetView::Direct(..) => seq![HostMenuItem::HostForm { edit: false }],
                _ => Seq::<HostMenuItem>::empty(),
            });
            assert(m@ =~= host_menu_of(Some(t@), link, is_pinned, hosts_our_server));
        },
    }
    m
}

/// The menu of a workspace row: opening it in a new window (for a
/// workspace this client has, not a listing to adopt), then its machine's
/// menu.
pub struct RowMenu {
    pub open_in_new_window: bool,
    pub host: Vec<HostMenuItem>,
}

/// The menu of a workspace row (see `host_menu_of` for the machine's part).
pub fn row_menu(adopt_listing: bool, target: Option<&RemoteTarget>, link: Link, pinned: &[RemoteTarget], hosts_our_server: bool) -> (menu: RowMenu)
    ensures
        menu.open_in_new_window == !adopt_listing,
        menu.host@ == host_menu_of(
            match target {
                Some(t) => Some(t@),
                None => None,
            },
            link,
            match target {
                Some(t) => holds_target(targets_view(pinned@), t@),
                None => false,
            },
            hosts_our_server,
        ),
{
    RowMenu { open_in_new_window: !adopt_listing, host: host_menu(target, link, pinned, hosts_our_server) }
}

// ------------------------------------------------------------ orphan panes

/// A pane the local daemon lists: its id, its title, its working directory,
/// whether it still runs, and the workspace or client that claims it.
pub struct PaneInfo {
    pub pane_id: u64,
    pub cwd: Option<String>,
    pub title: String,
    pub osc_title: Option<String>,
    pub alive: bool,
    pub owner: Option<String>,
}

/// A pane the daemon runs that no workspace holds.
#[derive(Debug, PartialEq, Eq)]
pub struct OrphanPane {
    pub pane_id: u64,
    pub title: String,
    pub cwd: Option<String>,
    pub owner: Option<String>,
}

/// An orphan as plain values.
pub struct OrphanView {
    pub pane_id: u64,
    pub title: Seq<char>,
    pub cwd: Option<Seq<char>>,
    pub owner: Option<Seq<char>>,
}

impl View for OrphanPane {
    type V = OrphanView;

    open spec fn view(&self) -> OrphanView {
        OrphanView {
            pane_id: self.pane_id,
            title: self.title@,
            cwd: opt_view(self.cwd),
            owner: opt_view(self.owner),
        }
    }
}

/// The listed panes that still run and that no held id names, in listing
/// order, as orphans.
pub open spec fn orphans_of(listed: Seq<PaneInfo>, held: Set<u64>) -> Seq<OrphanView>
    decreases listed.len(),
{
    if listed.len() == 0 {
        Seq::empty()
    } else {
        let info = listed.last();
        let before = orphans_of(listed.drop_last(), held);
        if info.alive && !held.contains(info.pane_id) {
            before.push(
                OrphanView {
                    pane_id: info.pane_id,
                    title: info.title@,
                    cwd: opt_view(info.cwd),
                    owner: opt_view(info.owner),
                },
            )
        } else {
            before
        }
    }
}

/// The listed pane `info` is alive and no workspace holds it.
pub open spec fn unheld_live(info: PaneInfo, held: Set<u64>) -> bool {
    info.alive && !held.contains(info.pane_id)
}

/// `o` shows the listed pane `info`: its id, title, directory and owner.
pub open spec fn shown_pane(o: OrphanView, info: PaneInfo) -> bool {
    o == (OrphanView {
        pane_id: info.pane_id,
        title: info.title@,
        cwd: opt_view(info.cwd),
        owner: opt_view(info.owner),
    })
}

/// `o` shows a listed pane that is alive and that no workspace holds.
pub open spec fn shows_unheld_live(o: OrphanView, listed: Seq<PaneInfo>, held: Set<u64>) -> bool {
    exists|i: int| 0 <= i < listed.len() && #[trigger] unheld_live(listed[i], held) && shown_pane(o, listed[i])
}

/// The orphans are the registry's live panes that no workspace holds: each
/// orphan is such a listed pane, with its title, directory and owner, and
/// every such pane is an orphan.
pub proof fn lemma_orphans_are_the_unheld_live_panes(listed: Seq<PaneInfo>, held: Set<u64>)
    ensures
        forall|k: int|
            0 <= k < orphans_of(listed, held).len() ==> exists|i: int|
                0 <= i < listed.len() && #[trigger] unheld_live(listed[i], held) && (#[trigger] orphans_of(
                    listed,
                    held,
                )[k]) == (OrphanView {
                    pane_id: listed[i].pane_id,
                    title: listed[i].title@,
                    cwd: opt_view(listed[i].cwd),
                    owner: opt_view(listed[i].owner),
                }),
        forall|i: int|
            0 <= i < listed.len() && #[trigger] unheld_live(listed[i], held) ==> exists|k: int|
                0 <= k < orphans_of(listed, held).len() && (#[trigger] orphans_of(listed, held)[k]).pane_id
                    == listed[i].pane_id,
    decreases listed.len(),
{
    if listed.len() > 0 {
        let r = listed.drop_last();
        let info = listed.last();
        let before = orphans_of(r, held);
        let out = orphans_of(listed, held);
        lemma_orphans_are_the_unheld_live_panes(r, held);
        assert forall|k: int| 0 <= k < out.len() implies exists|i: int|
            0 <= i < listed.len() && #[trigger] unheld_live(listed[i], held) && (#[trigger] out[k]) == (OrphanView {
                pane_id: listed[i].pane_id,
                title: listed[i].title@,
                cwd: opt_view(listed[i].cwd),
                owner: opt_view(listed[i].owner),
            }) by {
            if k < before.len() {
                assert(out[k] == before[k]);
                let i = choose|i: int|
                    0 <= i < r.len() && #[trigger] unheld_live(r[i], held) && (#[trigger] before[k]) == (OrphanView {
                        pane_id: r[i].pane_id,
                        title: r[i].title@,
                        cwd: opt_view(r[i].cwd),
                        owner: opt_view(r[i].owner),
                    });
                assert(listed[i] == r[i]);
            } else {
                assert(unheld_live(listed[listed.len() - 1], held));
            }
        }
        assert forall|i: int| 0 <= i < listed.len() && #[trigger] unheld_live(listed[i], held) implies exists|k: int|
            0 <= k < out.len() && (#[trigger] out[k]).pane_id == listed[i].pane_id by {
            if i < r.len() {
                assert(listed[i] == r[i]);
                let k = choose|k: int| 0 <= k < before.len() && (#[trigger] before[k]).pane_id == r[i].pane_id;
                assert(out[k] == before[k]);
            } else {
                assert(out[out.len() - 1].pane_id == info.pane_id);
            }
        }
    }
}

proof fn lemma_orphan_panes_carry_the_views(out: Seq<OrphanPane>, listed: Seq<PaneInfo>, held: Set<u64>)
    requires
        out.map_values(|o: OrphanPane| o@) == orphans_of(listed, held),
    ensures
        forall|k: int| 0 <= k < out.len() ==> shows_unheld_live(#[trigger] out[k]@, listed, held),
        forall|i: int|
            0 <= i < listed.len() && #[trigger] unheld_live(listed[i], held) ==> exists|k: int|
                0 <= k < out.len() && (#[trigger] out[k]).pane_id == listed[i].pane_id,
{
    let v = out.map_values(|o: OrphanPane| o@);
    let want = orphans_of(listed, held);
    lemma_orphans_are_the_unheld_live_panes(listed, held);
    assert forall|k: int| 0 <= k < out.len() implies shows_unheld_live(#[trigger] out[k]@, listed, held) by {
        assert(v[k] == out[k]@);
        assert(want[k] == v[k]);
        let i = choose|i: int|
            0 <= i < listed.len() && #[trigger] unheld_live(listed[i], held) && want[k] == (OrphanView {
                pane_id: listed[i].pane_id,
                title: listed[i].title@,
                cwd: opt_view(listed[i].cwd),
                owner: opt_view(listed[i].owner),
            });
        assert(shown_pane(out[k]@, listed[i]));
    }
    assert forall|i: int| 0 <= i < listed.len() && #[trigger] unheld_live(listed[i], held) implies exists|k: int|
        0 <= k < out.len() && (#[trigger] out[k]).pane_id == listed[i].pane_id by {
        let k = choose|k: int| 0 <= k < want.len() && (#[trigger] want[k]).pane_id == listed[i].pane_id;
        assert(v[k] == out[k]@);
    }
}

/// The registry's live panes minus the ones a workspace holds.
pub fn orphan_panes_of(listed: Vec<PaneInfo>, held: &HashSet<u64>) -> (orphans: Vec<OrphanPane>)
    ensures
        orphans@.map_values(|o: OrphanPane| o@) == orphans_of(listed@, held@),
        forall|k: int| 0 <= k < orphans@.len() ==> shows_unheld_live(#[trigger] orphans@[k]@, listed@, held@),
        forall|i: int|
            0 <= i < listed@.len() && #[trigger] unheld_live(listed@[i], held@) ==> exists|k: int|
                0 <= k < orphans@.len() && (#[trigger] orphans@[k]).pane_id == listed@[i].pane_id,
{
    broadcast use vstd::std_specs::hash::group_hash_axioms;

    let mut out: Vec<OrphanPane> = Vec::new();
    let mut i: usize = 0;
    while i < listed.len()
        invariant
            i <= listed@.len(),
            out@.map_values(|o: OrphanPane| o@) == orphans_of(listed@.take(i as int), held@),
        decreases listed@.len() - i,
    {
        assert(listed@.take(i + 1).drop_last() =~= listed@.take(i as int));
        let info = &listed[i];
        if info.alive && !held.contains(&info.pane_id) {
            let o = OrphanPane {
                pane_id: info.pane_id,
                title: info.title.clone(),
                cwd: clone_opt(&info.cwd),
                owner: clone_opt(&info.owner),
            };
            let ghost before = out@;
            out.push(o);
            assert(out@.map_values(|o: OrphanPane| o@) =~= before.map_values(|o: OrphanPane| o@).push(
                o@,
            ));
        }
        i = i + 1;
    }
    assert(listed@.take(listed@.len() as int) =~= listed@);
    proof {
        lemma_orphan_panes_carry_the_views(out@, listed@, held@);
    }
    out
}

/// An ASCII hexadecimal digit, of either case.
pub open spec fn hex_digit(c: char) -> bool {
    ('0' <= c && c <= '9') || ('a' <= c && c <= 'f') || ('A' <= c && c <= 'F')
}

/// The hyphenated form: 36 characters, hyphens at positions 8, 13, 18 and
/// 23, and hexadecimal digits everywhere else.
pub open spec fn hyphenated_uuid(s: Seq<char>) -> bool {
    &&& s.len() == 36
    &&& s[8] == '-' && s[13] == '-' && s[18] == '-' && s[23] == '-'
    &&& forall|i: int| 0 <= i < 36 && i != 8 && i != 13 && i != 18 && i != 23 ==> hex_digit(#[trigger] s[i])
}

/// Whether the `uuid` crate parses `s` as a UUID (`Uuid::parse_str`): 32
/// hexadecimal digits; the hyphenated form; the hyphenated form in braces;
/// or `urn:uuid:`, in any ASCII case, before the hyphenated form.
pub open spec fn uuid_text(s: Seq<char>) -> bool {
    ||| s.len() == 32 && forall|i: int| 0 <= i < 32 ==> hex_digit(#[trigger] s[i])
    ||| hyphenated_uuid(s)
    ||| s.len() == 38 && s[0] == '{' && s[37] == '}' && hyphenated_uuid(s.subrange(1, 37))
    ||| s.len() == 45 && s.take(9).map_values(|c: char| ascii_lower(c)) == "urn:uuid:"@ && hyphenated_uuid(
        s.subrange(9, 45),
    )
}

/// Whether `uuid::Uuid::parse_str` accepts `s` (see `uuid_text`; the parser
/// reads bytes, and every text it accepts is ASCII, so its lengths are the
/// character counts).
#[verifier::external_body]
fn parses_as_uuid(s: &str) -> (ok: bool)
    ensures
        ok == uuid_text(s@),
{
    uuid::Uuid::parse_str(s).is_ok()
}

/// What an orphan's owner reads as: the workspace's name while one is
/// known; else, for an owner that is a workspace id, its first eight
/// characters; else the owner as it is.
pub open spec fn owner_label_of(owner: Seq<char>, workspace_name: Option<Seq<char>>, is_id: bool) -> Seq<char> {
    match workspace_name {
        Some(n) => n,
        None => if is_id && owner.len() > 8 {
            owner.take(8)
        } else {
            owner
        },
    }
}

/// What an orphan's owner reads as, given whether the owner parses as a
/// workspace id.
pub fn owner_label_given(owner: &str, workspace_name: Option<String>, is_id: bool) -> (label: String)
    ensures
        label@ == owner_label_of(owner@, opt_view(workspace_name), is_id),
{
    match workspace_name {
        Some(n) => n,
        None => {
            let cs = chars_of(owner);
            if is_id && cs.len() > 8 {
                let head = take_chars(cs.as_slice(), 8);
                string_of(head.as_slice())
            } else {
                string_of(cs.as_slice())
            }
        },
    }
}

/// What an orphan's owner reads as on screen.
pub fn owner_label(owner: &str, workspace_name: Option<String>) -> (label: String)
    ensures
        workspace_name is Some ==> label@ == owner_label_of(owner@, opt_view(workspace_name), false),
        workspace_name is None ==> label@ == owner_label_of(owner@, None, uuid_text(owner@)),
{
    match workspace_name {
        Some(n) => owner_label_given(owner, Some(n), false),
        None => {
            let is_id = parses_as_uuid(owner);
            owner_label_given(owner, None, is_id)
        },
    }
}

// ------------------------------------------------------------------ search

/// The lowercase of `s` as std's `str::to_lowercase` gives it.
pub uninterp spec fn lowercase(s: Seq<char>) -> Seq<char>;

/// std's `str::to_lowercase`. Its Unicode case mapping is not restated
/// here.
#[verifier::external_body]
fn to_lowercase(s: &str) -> (out: String)
    ensures
        out@ == lowercase(s@),
{
    s.to_lowercase()
}

/// The search text of a query as typed: trimmed and lowercased.
pub fn search_text(typed: &str) -> (q: String)
    ensures
        q@ == lowercase(trim(typed@)),
{
    let cs = chars_of(typed);
    let t = trim_chars(cs.as_slice());
    let s = string_of(t.as_slice());
    to_lowercase(s.as_str())
}

/// Whether the lowercase of `text` contains `query`.
pub(crate) fn lower_contains(text: &str, query: &str) -> (r: bool)
    ensures
        r == contains_seq(lowercase(text@), query@),
{
    let lower = to_lowercase(text);
    let l = chars_of(lower.as_str());
    let q = chars_of(query);
    contains_chars(l.as_slice(), q.as_slice())
}

/// Whether a workspace is up and running.
#[derive(Clone, Copy, Debug, PartialEq, Eq, Structural)]
pub enum Liveness {
    Alive,
    Unknown,
    Stopped,
}

/// One tab in the switcher's right-hand column.
pub struct TabRow {
    pub id: TabId,
    /// Position in the owning workspace's tab order.
    pub index: usize,
    pub label: String,
    pub path: String,
    /// Whether `label` is a name someone gave the tab.
    pub named: bool,
    pub unread: usize,
    pub active: bool,
}

/// A workspace listed by a machine this client has never adopted it from.
pub struct RemoteWorkspaceRow {
    pub id: WorkspaceId,
    pub name: String,
    pub last_active: u64,
}

/// One workspace in the switcher's left-hand column.
pub struct Row {
    pub id: WorkspaceId,
    pub name: String,
    pub path: String,
    /// When the workspace was last used; the flat list sorts by it.
    pub last_active: u64,
    pub live: Liveness,
    pub open: bool,
    /// The workspace of this window.
    pub current: bool,
    pub preempted: bool,
    pub adopt: Option<RemoteWorkspaceRow>,
    pub remote_id: Option<WorkspaceId>,
    pub tabs: Vec<TabRow>,
}

/// A tab matches a query when its label or its path, lowercased, holds it.
pub open spec fn tab_matches(t: TabRow, query: Seq<char>) -> bool {
    contains_seq(lowercase(t.label@), query) || contains_seq(lowercase(t.path@), query)
}

/// A workspace's own name or path, lowercased, holds the query.
pub open spec fn row_self_matches(r: Row, query: Seq<char>) -> bool {
    contains_seq(lowercase(r.name@), query) || contains_seq(lowercase(r.path@), query)
}

/// A workspace matches a query when its own name or path does, or any of
/// its tabs does.
pub open spec fn row_matches(r: Row, query: Seq<char>) -> bool {
    row_self_matches(r, query) || exists|i: int| 0 <= i < r.tabs@.len() && #[trigger] tab_matches(r.tabs@[i], query)
}

impl TabRow {
    /// Whether the tab's label or path holds the (lowercase) query.
    pub fn matches(&self, query: &str) -> (m: bool)
        ensures
            m == tab_matches(*self, query@),
    {
        lower_contains(self.label.as_str(), query) || lower_contains(self.path.as_str(), query)
    }
}

impl Row {
    /// Whether the workspace stays in the list for the (lowercase) query:
    /// its own name or path holds it, or one of its tabs does.
    pub fn matches(&self, query: &str) -> (m: bool)
        ensures
            m == row_matches(*self, query@),
    {
        if lower_contains(self.name.as_str(), query) || lower_contains(self.path.as_str(), query) {
            return true;
        }
        let mut i: usize = 0;
        while i < self.tabs.len()
            invariant
                i <= self.tabs@.len(),
                forall|j: int| 0 <= j < i ==> !tab_matches(#[trigger] self.tabs@[j], query@),
            decreases self.tabs@.len() - i,
        {
            if self.tabs[i].matches(query) {
                return true;
            }
            i = i + 1;
        }
        false
    }
}

/// The positions of the tabs that match the query, in order.
pub open spec fn matching_tabs(tabs: Seq<TabRow>, query: Seq<char>) -> Seq<usize>
    decreases tabs.len(),
{
    if tabs.len() == 0 {
        Seq::empty()
    } else {
        let before = matching_tabs(tabs.drop_last(), query);
        if tab_matches(tabs.last(), query) {
            before.push((tabs.len() - 1) as usize)
        } else {
            before
        }
    }
}

/// The tabs of a listed workspace the column shows for a query: all of
/// them for an empty query or when the workspace's own name or path
/// matches; else the tabs that match, or all of them when none does (the
/// workspace is listed because its machine's name matched).
pub open spec fn visible_tabs_of(row: Row, query: Seq<char>) -> Seq<usize> {
    if query.len() == 0 || row_self_matches(row, query) {
        identity_order(row.tabs@.len())
    } else {
        let hits = matching_tabs(row.tabs@, query);
        if hits.len() == 0 {
            identity_order(row.tabs@.len())
        } else {
            hits
        }
    }
}

/// A listed workspace with tabs never shows an empty tab column: a query
/// that none of its tabs match (the row being listed for its machine)
/// shows them all.
pub proof fn lemma_tab_column_never_empty(row: Row, query: Seq<char>)
    requires
        row.tabs@.len() > 0,
    ensures
        visible_tabs_of(row, query).len() > 0,
{
}

proof fn lemma_matching_tabs_meaning(tabs: Seq<TabRow>, query: Seq<char>)
    requires
        tabs.len() <= usize::MAX,
    ensures
        ({
            let hits = matching_tabs(tabs, query);
            &&& forall|k: int| 0 <= k < hits.len() ==> (#[trigger] hits[k] as int) < tabs.len()
            &&& forall|k: int| 0 <= k < hits.len() ==> tab_matches(tabs[#[trigger] hits[k] as int], query)
            &&& forall|a: int, b: int| 0 <= a < b < hits.len() ==> #[trigger] hits[a] < #[trigger] hits[b]
            &&& forall|i: int|
                0 <= i < tabs.len() && #[trigger] tab_matches(tabs[i], query) ==> hits.contains(i as usize)
        }),
    decreases tabs.len(),
{
    if tabs.len() > 0 {
        let r = tabs.drop_last();
        lemma_matching_tabs_meaning(r, query);
        let before = matching_tabs(r, query);
        let hits = matching_tabs(tabs, query);
        assert forall|k: int| 0 <= k < before.len() implies tab_matches(tabs[#[trigger] before[k] as int], query) by {
            assert(tabs[before[k] as int] == r[before[k] as int]);
        }
        assert forall|i: int| 0 <= i < tabs.len() && #[trigger] tab_matches(tabs[i], query) implies hits.contains(
            i as usize,
        ) by {
            if i == tabs.len() - 1 {
                assert(hits[hits.len() - 1] == i as usize);
            } else {
                assert(r[i] == tabs[i]);
                assert(before.contains(i as usize));
                let k = choose|k: int| 0 <= k < before.len() && before[k] == i as usize;
                assert(hits[k] == i as usize);
            }
        }
    }
}

/// The tab column lists tabs of the workspace, each once and in tab
/// order. When the query filters the column (it is not empty, the
/// workspace's own name and path do not hold it, and some tab does), the
/// column lists exactly the tabs that hold it; otherwise it lists every tab.
pub proof fn lemma_tab_column_lists_the_matching_tabs(row: Row, query: Seq<char>)
    requires
        row.tabs@.len() <= usize::MAX,
    ensures
        ({
            let shown = visible_tabs_of(row, query);
            let tabs = row.tabs@;
            let filtering = query.len() > 0 && !row_self_matches(row, query) && exists|i: int|
                0 <= i < tabs.len() && #[trigger] tab_matches(tabs[i], query);
            &&& forall|k: int| 0 <= k < shown.len() ==> (#[trigger] shown[k] as int) < tabs.len()
            &&& forall|a: int, b: int| 0 <= a < b < shown.len() ==> #[trigger] shown[a] < #[trigger] shown[b]
            &&& filtering ==> forall|k: int| 0 <= k < shown.len() ==> tab_matches(tabs[#[trigger] shown[k] as int], query)
            &&& filtering ==> forall|i: int|
                0 <= i < tabs.len() && #[trigger] tab_matches(tabs[i], query) ==> shown.contains(i as usize)
            &&& !filtering ==> shown.len() == tabs.len() && forall|k: int| 0 <= k < shown.len() ==> #[trigger] shown[k] == k
        }),
{
    let tabs = row.tabs@;
    lemma_matching_tabs_meaning(tabs, query);
    let hits = matching_tabs(tabs, query);
    if query.len() > 0 && !row_self_matches(row, query) && hits.len() == 0 {
        if exists|i: int| 0 <= i < tabs.len() && #[trigger] tab_matches(tabs[i], query) {
            let i = choose|i: int| 0 <= i < tabs.len() && #[trigger] tab_matches(tabs[i], query);
            assert(hits.contains(i as usize));
        }
    }
    if query.len() > 0 && !row_self_matches(row, query) && hits.len() > 0 {
        assert(tab_matches(tabs[hits[0] as int], query));
    }
}

/// The tabs of a listed workspace the column shows for a query.
pub fn visible_tabs(row: &Row, query: &str) -> (shown: Vec<usize>)
    ensures
        shown@ == visible_tabs_of(*row, query@),
        ({
            let tabs = row.tabs@;
            let filtering = query@.len() > 0 && !row_self_matches(*row, query@) && exists|i: int|
                0 <= i < tabs.len() && #[trigger] tab_matches(tabs[i], query@);
            &&& forall|k: int| 0 <= k < shown@.len() ==> (#[trigger] shown@[k] as int) < tabs.len()
            &&& forall|a: int, b: int| 0 <= a < b < shown@.len() ==> #[trigger] shown@[a] < #[trigger] shown@[b]
            &&& filtering ==> forall|k: int| 0 <= k < shown@.len() ==> tab_matches(tabs[#[trigger] shown@[k] as int], query@)
            &&& filtering ==> forall|i: int|
                0 <= i < tabs.len() && #[trigger] tab_matches(tabs[i], query@) ==> shown@.contains(i as usize)
            &&& !filtering ==> shown@.len() == tabs.len() && forall|k: int| 0 <= k < shown@.len() ==> #[trigger] shown@[k] == k
        }),
{
    let tab_count: usize = row.tabs.len();
    proof {
        assert(row.tabs@.len() == tab_count);
        lemma_tab_column_lists_the_matching_tabs(*row, query@);
    }
    if query.unicode_len() == 0 || lower_contains(row.name.as_str(), query) || lower_contains(
        row.path.as_str(),
        query,
    ) {
        return identity_vec(row.tabs.len());
    }
    assert(query@.len() != 0);
    let mut hits: Vec<usize> = Vec::new();
    let mut i: usize = 0;
    assert(row.tabs@.take(0) =~= Seq::<TabRow>::empty());
    while i < row.tabs.len()
        invariant
            i <= row.tabs@.len(),
            hits@ == matching_tabs(row.tabs@.take(i as int), query@),
        decreases row.tabs@.len() - i,
    {
        assert(row.tabs@.take(i + 1).drop_last() =~= row.tabs@.take(i as int));
        assert(row.tabs@.take(i + 1).last() == row.tabs@[i as int]);
        if row.tabs[i].matches(query) {
            hits.push(i);
        }
        i = i + 1;
    }
    assert(row.tabs@.take(row.tabs@.len() as int) =~= row.tabs@);
    if hits.len() == 0 {
        identity_vec(row.tabs.len())
    } else {
        hits
    }
}

// ------------------------------------------------------------- flat list

/// One machine in the switcher: its key, how it is named, where it is
/// reached, how its link reads, what went wrong with it, and its
/// workspaces.
pub struct Group {
    pub key: String,
    pub label: String,
    pub endpoint: String,
    pub target: Option<RemoteTarget>,
    pub link: Link,
    pub error: Option<String>,
    /// Another client holds at least one workspace of this machine.
    pub preempted: bool,
    /// The route behind the group no longer resolves.
    pub parked: bool,
    pub rows: Vec<Row>,
}

/// `a` comes strictly before `b` in dictionary order of code points
/// (std's order on strings).
pub open spec fn lex_lt(a: Seq<char>, b: Seq<char>) -> bool
    decreases a.len(),
{
    if a.len() == 0 {
        b.len() > 0
    } else if b.len() == 0 {
        false
    } else if (a[0] as u32) < (b[0] as u32) {
        true
    } else if a[0] == b[0] {
        lex_lt(a.drop_first(), b.drop_first())
    } else {
        false
    }
}

/// Whether `a` comes strictly before `b` in dictionary order.
pub fn str_lt(a: &str, b: &str) -> (lt: bool)
    ensures
        lt == lex_lt(a@, b@),
{
    let x = chars_of(a);
    let y = chars_of(b);
    let mut i: usize = 0;
    assert(a@.skip(0) =~= a@);
    assert(b@.skip(0) =~= b@);
    while i < x.len() && i < y.len() && x[i] == y[i]
        invariant
            i <= x@.len(),
            i <= y@.len(),
            x@ == a@,
            y@ == b@,
            lex_lt(a@, b@) == lex_lt(a@.skip(i as int), b@.skip(i as int)),
        decreases x@.len() - i,
    {
        assert(a@.skip(i as int).drop_first() =~= a@.skip(i + 1));
        assert(b@.skip(i as int).drop_first() =~= b@.skip(i + 1));
        i = i + 1;
    }
    let ghost sa = a@.skip(i as int);
    let ghost sb = b@.skip(i as int);
    if i == x.len() {
        assert(sa.len() == 0);
        i < y.len()
    } else if i == y.len() {
        assert(sb.len() == 0);
        false
    } else {
        assert(sa[0] == x@[i as int] && sb[0] == y@[i as int]);
        (x[i] as u32) < (y[i] as u32)
    }
}

/// A line of the flat list: a group and a row of it.
pub type Nav = (usize, usize);

/// A line names a row that exists.
pub open spec fn nav_valid(groups: Seq<Group>, n: Nav) -> bool {
    n.0 < groups.len() && n.1 < groups[n.0 as int].rows@.len()
}

/// The row a line names.
pub open spec fn nav_row(groups: Seq<Group>, n: Nav) -> Row {
    groups[n.0 as int].rows@[n.1 as int]
}

/// Row `a` is listed strictly before row `b`: this window's workspace
/// first, then the most recently used, then by name.
pub open spec fn row_before(a: Row, b: Row) -> bool {
    if a.current != b.current {
        a.current
    } else if a.last_active != b.last_active {
        a.last_active > b.last_active
    } else {
        lex_lt(a.name@, b.name@)
    }
}

/// The lines of one group a query keeps, among its first `n` rows, in
/// row order: all of them for an empty query or when the machine's name
/// matches, else the rows that match.
pub open spec fn group_lines(g: usize, group: Group, query: Seq<char>, n: nat) -> Seq<Nav>
    decreases n,
{
    if n == 0 {
        Seq::empty()
    } else {
        let before = group_lines(g, group, query, (n - 1) as nat);
        let r = (n - 1) as int;
        if query.len() == 0 || contains_seq(lowercase(group.label@), query) || row_matches(
            group.rows@[r],
            query,
        ) {
            before.push((g, r as usize))
        } else {
            before
        }
    }
}

/// The lines a query keeps, group by group, in order.
pub open spec fn kept_lines(groups: Seq<Group>, query: Seq<char>, n: nat) -> Seq<Nav>
    decreases n,
{
    if n == 0 {
        Seq::empty()
    } else {
        let g = (n - 1) as int;
        kept_lines(groups, query, (n - 1) as nat) + group_lines(
            g as usize,
            groups[g],
            query,
            groups[g].rows@.len(),
        )
    }
}

/// `x` placed into `s` before the first line it comes strictly before
/// (after every line it ties with).
pub open spec fn insert_line(groups: Seq<Group>, s: Seq<Nav>, x: Nav) -> Seq<Nav>
    decreases s.len(),
{
    if s.len() == 0 {
        seq![x]
    } else if row_before(nav_row(groups, x), nav_row(groups, s[0])) {
        seq![x] + s
    } else {
        seq![s[0]] + insert_line(groups, s.drop_first(), x)
    }
}

/// The lines sorted by `row_before`, lines that tie kept in their order.
pub open spec fn sort_lines(groups: Seq<Group>, s: Seq<Nav>) -> Seq<Nav>
    decreases s.len(),
{
    if s.len() == 0 {
        Seq::empty()
    } else {
        insert_line(groups, sort_lines(groups, s.drop_last()), s.last())
    }
}

/// The flat left column for a (lowercase) query.
pub open spec fn flat_list(groups: Seq<Group>, query: Seq<char>) -> Seq<Nav> {
    sort_lines(groups, kept_lines(groups, query, groups.len()))
}

proof fn lemma_group_lines_valid(groups: Seq<Group>, g: usize, query: Seq<char>, n: nat)
    requires
        g < groups.len(),
        n <= groups[g as int].rows@.len(),
    ensures
        forall|k: int| 0 <= k < group_lines(g, groups[g as int], query, n).len() ==> nav_valid(
            groups,
            #[trigger] group_lines(g, groups[g as int], query, n)[k],
        ),
    decreases n,
{
    if n > 0 {
        lemma_group_lines_valid(groups, g, query, (n - 1) as nat);
        let before = group_lines(g, groups[g as int], query, (n - 1) as nat);
        let now = group_lines(g, groups[g as int], query, n);
        assert forall|k: int| 0 <= k < now.len() implies nav_valid(groups, #[trigger] now[k]) by {
            if k < before.len() {
                assert(now[k] == before[k]);
            }
        }
    }
}

proof fn lemma_kept_lines_valid(groups: Seq<Group>, query: Seq<char>, n: nat)
    requires
        n <= groups.len(),
        groups.len() <= usize::MAX,
    ensures
        forall|k: int| 0 <= k < kept_lines(groups, query, n).len() ==> nav_valid(
            groups,
            #[trigger] kept_lines(groups, query, n)[k],
        ),
    decreases n,
{
    if n > 0 {
        let g = (n - 1) as int;
        lemma_kept_lines_valid(groups, query, (n - 1) as nat);
        lemma_group_lines_valid(groups, g as usize, query, groups[g].rows@.len());
        let a = kept_lines(groups, query, (n - 1) as nat);
        let b = group_lines(g as usize, groups[g], query, groups[g].rows@.len());
        assert forall|k: int| 0 <= k < (a + b).len() implies nav_valid(groups, #[trigger] (a + b)[k]) by {
            if k >= a.len() {
                assert((a + b)[k] == b[k - a.len()]);
            }
        }
    }
}

proof fn lemma_insert_line_at(groups: Seq<Group>, s: Seq<Nav>, x: Nav, j: int)
    requires
        0 <= j <= s.len(),
        forall|k: int| 0 <= k < j ==> !row_before(nav_row(groups, x), #[trigger] nav_row(groups, s[k])),
        j < s.len() ==> row_before(nav_row(groups, x), nav_row(groups, s[j])),
    ensures
        insert_line(groups, s, x) == s.insert(j, x),
    decreases s.len(),
{
    if s.len() == 0 {
        assert(s.insert(0, x) =~= seq![x]);
    } else if j == 0 {
        assert(s.insert(0, x) =~= seq![x] + s);
    } else {
        let t = s.drop_first();
        assert forall|k: int| 0 <= k < j - 1 implies !row_before(
            nav_row(groups, x),
            #[trigger] nav_row(groups, t[k]),
        ) by {
            assert(t[k] == s[k + 1]);
        }
        if j < s.len() {
            assert(t[j - 1] == s[j]);
        }
        assert(!row_before(nav_row(groups, x), nav_row(groups, s[0])));
        lemma_insert_line_at(groups, t, x, j - 1);
        assert(seq![s[0]] + t.insert(j - 1, x) =~= s.insert(j, x));
    }
}

/// Whether line `a` is listed strictly before line `b`.
fn line_before(groups: &[Group], a: Nav, b: Nav) -> (before: bool)
    requires
        nav_valid(groups@, a),
        nav_valid(groups@, b),
    ensures
        before == row_before(nav_row(groups@, a), nav_row(groups@, b)),
{
    let ra = &groups[a.0].rows[a.1];
    let rb = &groups[b.0].rows[b.1];
    if ra.current != rb.current {
        ra.current
    } else if ra.last_active != rb.last_active {
        ra.last_active > rb.last_active
    } else {
        str_lt(ra.name.as_str(), rb.name.as_str())
    }
}

/// The flat left column: every row the (lowercase) query leaves visible,
/// one line per workspace, this window's workspace first, then most
/// recently used first, then by name, lines that tie in listing order. A
/// query matching a machine's name keeps all of that machine's rows.
pub fn flatten(groups: &[Group], query: &str) -> (nav: Vec<Nav>)
    ensures
        nav@ == flat_list(groups@, query@),
        forall|k: int| 0 <= k < nav@.len() ==> nav_valid(groups@, #[trigger] nav@[k]),
{
    let mut kept: Vec<Nav> = Vec::new();
    let mut g: usize = 0;
    while g < groups.len()
        invariant
            g <= groups@.len(),
            kept@ == kept_lines(groups@, query@, g as nat),
        decreases groups@.len() - g,
    {
        let group = &groups[g];
        let matched_host = lower_contains(group.label.as_str(), query);
        let mut r: usize = 0;
        let ghost start = kept@;
        while r < group.rows.len()
            invariant
                g < groups@.len(),
                *group == groups@[g as int],
                r <= group.rows@.len(),
                matched_host == contains_seq(lowercase(group.label@), query@),
                kept@ == start + group_lines(g, *group, query@, r as nat),
            decreases group.rows@.len() - r,
        {
            if query.unicode_len() == 0 || matched_host || group.rows[r].matches(query) {
                kept.push((g, r));
                assert(kept@ =~= start + group_lines(g, *group, query@, (r + 1) as nat));
            } else {
                assert(kept@ =~= start + group_lines(g, *group, query@, (r + 1) as nat));
            }
            r = r + 1;
        }
        g = g + 1;
    }
    proof {
        lemma_kept_lines_valid(groups@, query@, groups@.len());
    }
    let ghost all = kept@;
    let mut out: Vec<Nav> = Vec::new();
    let mut i: usize = 0;
    assert(all.take(0) =~= Seq::<Nav>::empty());
    while i < kept.len()
        invariant
            all == kept@,
            all == kept_lines(groups@, query@, groups@.len()),
            i <= all.len(),
            forall|k: int| 0 <= k < all.len() ==> nav_valid(groups@, #[trigger] all[k]),
            out@ == sort_lines(groups@, all.take(i as int)),
            forall|k: int| 0 <= k < out@.len() ==> nav_valid(groups@, #[trigger] out@[k]),
        decreases all.len() - i,
    {
        let x = kept[i];
        assert(nav_valid(groups@, all[i as int]));
        let mut j: usize = 0;
        while j < out.len() && !line_before(groups, x, out[j])
            invariant
                j <= out@.len(),
                nav_valid(groups@, x),
                forall|k: int| 0 <= k < out@.len() ==> nav_valid(groups@, #[trigger] out@[k]),
                forall|k: int| 0 <= k < j ==> !row_before(nav_row(groups@, x), #[trigger] nav_row(groups@, out@[k])),
            decreases out@.len() - j,
        {
            j = j + 1;
        }
        proof {
            lemma_insert_line_at(groups@, out@, x, j as int);
            assert(all.take(i + 1).drop_last() =~= all.take(i as int));
            assert(all.take(i + 1).last() == x);
        }
        let ghost before = out@;
        out.insert(j, x);
        assert forall|k: int| 0 <= k < out@.len() implies nav_valid(groups@, #[trigger] out@[k]) by {
            if k < j {
                assert(out@[k] == before[k]);
            } else if k > j {
                assert(out@[k] == before[k - 1]);
            }
        }
        i = i + 1;
    }
    assert(all.take(all.len() as int) =~= all);
    out
}

proof fn lemma_lex_lt_irreflexive(a: Seq<char>)
    ensures
        !lex_lt(a, a),
    decreases a.len(),
{
    if a.len() > 0 {
        lemma_lex_lt_irreflexive(a.drop_first());
    }
}

proof fn lemma_lex_lt_transitive(a: Seq<char>, b: Seq<char>, c: Seq<char>)
    requires
        lex_lt(a, b),
        lex_lt(b, c),
    ensures
        lex_lt(a, c),
    decreases a.len(),
{
    if a.len() > 0 && b.len() > 0 && c.len() > 0 && a[0] == b[0] && b[0] == c[0] {
        lemma_lex_lt_transitive(a.drop_first(), b.drop_first(), c.drop_first());
    }
}

proof fn lemma_row_before_order(a: Row, b: Row, c: Row)
    ensures
        !row_before(a, a),
        row_before(a, b) && row_before(b, c) ==> row_before(a, c),
{
    lemma_lex_lt_irreflexive(a.name@);
    if row_before(a, b) && row_before(b, c) && a.current == b.current && b.current == c.current
        && a.last_active == b.last_active && b.last_active == c.last_active {
        lemma_lex_lt_transitive(a.name@, b.name@, c.name@);
    }
}

/// No line comes after a line it is listed strictly before.
pub open spec fn lines_sorted(groups: Seq<Group>, s: Seq<Nav>) -> bool {
    forall|i: int, j: int|
        0 <= i < j < s.len() ==> !row_before(
            #[trigger] nav_row(groups, s[j]),
            #[trigger] nav_row(groups, s[i]),
        )
}

proof fn lemma_insert_line_sorted(groups: Seq<Group>, s: Seq<Nav>, x: Nav)
    requires
        lines_sorted(groups, s),
    ensures
        lines_sorted(groups, insert_line(groups, s, x)),
        insert_line(groups, s, x).to_multiset() == s.to_multiset().insert(x),
    decreases s.len(),
{
    broadcast use vstd::seq_lib::group_to_multiset_ensures;

    let rx = nav_row(groups, x);
    if s.len() == 0 {
        assert(seq![x] =~= s.insert(0, x));
    } else if row_before(rx, nav_row(groups, s[0])) {
        let t = seq![x] + s;
        assert(t =~= s.insert(0, x));
        assert forall|i: int, j: int| 0 <= i < j < t.len() implies !row_before(
            #[trigger] nav_row(groups, t[j]),
            #[trigger] nav_row(groups, t[i]),
        ) by {
            lemma_row_before_order(nav_row(groups, t[j]), rx, nav_row(groups, s[0]));
            if i > 0 {
                assert(t[i] == s[i - 1] && t[j] == s[j - 1]);
            } else {
                assert(t[j] == s[j - 1]);
                if j - 1 > 0 {
                    assert(!row_before(nav_row(groups, s[j - 1]), nav_row(groups, s[0])));
                }
            }
        }
    } else {
        let rest = s.drop_first();
        assert(lines_sorted(groups, rest)) by {
            assert forall|i: int, j: int| 0 <= i < j < rest.len() implies !row_before(
                #[trigger] nav_row(groups, rest[j]),
                #[trigger] nav_row(groups, rest[i]),
            ) by {
                assert(rest[i] == s[i + 1] && rest[j] == s[j + 1]);
            }
        }
        lemma_insert_line_sorted(groups, rest, x);
        let inner = insert_line(groups, rest, x);
        let t = seq![s[0]] + inner;
        assert(t =~= inner.insert(0, s[0]));
        assert(s =~= rest.insert(0, s[0]));
        assert(t.to_multiset() =~= s.to_multiset().insert(x));
        assert forall|i: int, j: int| 0 <= i < j < t.len() implies !row_before(
            #[trigger] nav_row(groups, t[j]),
            #[trigger] nav_row(groups, t[i]),
        ) by {
            if i == 0 {
                let y = inner[j - 1];
                assert(t[j] == y);
                assert(inner.to_multiset().contains(y));
                assert(rest.to_multiset().insert(x).contains(y));
                if y != x {
                    assert(rest.to_multiset().contains(y));
                    assert(rest.contains(y));
                    let k = choose|k: int| 0 <= k < rest.len() && rest[k] == y;
                    assert(rest[k] == s[k + 1]);
                }
            } else {
                assert(t[i] == inner[i - 1] && t[j] == inner[j - 1]);
            }
        }
    }
}

proof fn lemma_sort_lines_sorted(groups: Seq<Group>, s: Seq<Nav>)
    ensures
        lines_sorted(groups, sort_lines(groups, s)),
        sort_lines(groups, s).to_multiset() == s.to_multiset(),
    decreases s.len(),
{
    broadcast use vstd::seq_lib::group_to_multiset_ensures;

    if s.len() > 0 {
        lemma_sort_lines_sorted(groups, s.drop_last());
        lemma_insert_line_sorted(groups, sort_lines(groups, s.drop_last()), s.last());
        assert(s =~= s.drop_last().push(s.last()));
    } else {
        assert(sort_lines(groups, s) =~= s);
    }
}

/// Line `a` is listed before line `b` in the groups' own order: an earlier
/// group, or an earlier row of the same group.
pub open spec fn nav_lt(a: Nav, b: Nav) -> bool {
    a.0 < b.0 || (a.0 == b.0 && a.1 < b.1)
}

/// Two rows rank alike: both or neither is this window's, they were last
/// used at the same time, and they have the same name.
pub open spec fn same_rank(a: Row, b: Row) -> bool {
    a.current == b.current && a.last_active == b.last_active && a.name@ == b.name@
}

/// Lines that rank alike stay in the groups' own order.
pub open spec fn ties_in_order(groups: Seq<Group>, s: Seq<Nav>) -> bool {
    forall|i: int, j: int|
        #![trigger s[i], s[j]]
        0 <= i < j < s.len() && same_rank(nav_row(groups, s[i]), nav_row(groups, s[j])) ==> nav_lt(s[i], s[j])
}

/// Every line comes after the one before it in the groups' own order.
pub open spec fn nav_increasing(s: Seq<Nav>) -> bool {
    forall|i: int, j: int| #![trigger s[i], s[j]] 0 <= i < j < s.len() ==> nav_lt(s[i], s[j])
}

proof fn lemma_group_lines_increasing(g: usize, group: Group, query: Seq<char>, n: nat)
    requires
        n <= usize::MAX,
    ensures
        nav_increasing(group_lines(g, group, query, n)),
        forall|k: int|
            0 <= k < group_lines(g, group, query, n).len() ==> (#[trigger] group_lines(g, group, query, n)[k]).0
                == g && group_lines(g, group, query, n)[k].1 < n,
    decreases n,
{
    if n > 0 {
        lemma_group_lines_increasing(g, group, query, (n - 1) as nat);
        let before = group_lines(g, group, query, (n - 1) as nat);
        let r = (n - 1) as int;
        let x: Nav = (g, r as usize);
        let now = group_lines(g, group, query, n);
        if now != before {
            assert(now == before.push(x));
            assert forall|i: int, j: int| #![trigger now[i], now[j]] 0 <= i < j < now.len() implies nav_lt(
                now[i],
                now[j],
            ) by {
                assert(now[i] == before[i]);
                if j < before.len() {
                    assert(now[j] == before[j]);
                } else {
                    assert(now[j] == x);
                }
            }
            assert forall|k: int| 0 <= k < now.len() implies (#[trigger] now[k]).0 == g && now[k].1 < n by {
                if k < before.len() {
                    assert(now[k] == before[k]);
                }
            }
        }
    }
}

/// The groups and their rows are counted in `usize`, as the lists they
/// are built from are.
pub open spec fn counts_fit(groups: Seq<Group>) -> bool {
    groups.len() <= usize::MAX && forall|g: int| 0 <= g < groups.len() ==> (#[trigger] groups[g]).rows@.len()
        <= usize::MAX
}

proof fn lemma_kept_lines_increasing(groups: Seq<Group>, query: Seq<char>, n: nat)
    requires
        n <= groups.len(),
        counts_fit(groups),
    ensures
        nav_increasing(kept_lines(groups, query, n)),
        forall|k: int| 0 <= k < kept_lines(groups, query, n).len() ==> (#[trigger] kept_lines(groups, query, n)[k]).0 < n,
    decreases n,
{
    if n > 0 {
        let g = (n - 1) as int;
        lemma_kept_lines_increasing(groups, query, (n - 1) as nat);
        assert(groups[g].rows@.len() <= usize::MAX);
        let a = kept_lines(groups, query, (n - 1) as nat);
        let b = group_lines(g as usize, groups[g], query, groups[g].rows@.len());
        lemma_group_lines_increasing(g as usize, groups[g], query, groups[g].rows@.len());
        let c = a + b;
        assert forall|i: int, j: int| #![trigger c[i], c[j]] 0 <= i < j < c.len() implies nav_lt(c[i], c[j]) by {
            if j < a.len() {
                assert(c[i] == a[i] && c[j] == a[j]);
            } else if i >= a.len() {
                assert(c[i] == b[i - a.len()] && c[j] == b[j - a.len()]);
            } else {
                assert(c[i] == a[i] && c[j] == b[j - a.len()]);
                assert(a[i].0 < g);
                assert(b[j - a.len()].0 == g as usize);
            }
        }
        assert forall|k: int| 0 <= k < c.len() implies (#[trigger] c[k]).0 < n by {
            if k < a.len() {
                assert(c[k] == a[k]);
            } else {
                assert(c[k] == b[k - a.len()]);
            }
        }
    }
}

/// A query keeps a line: it names a row that exists, and the query is
/// empty, or the machine's name or the row matches it.
pub open spec fn line_kept(groups: Seq<Group>, query: Seq<char>, x: Nav) -> bool {
    nav_valid(groups, x) && (query.len() == 0 || contains_seq(lowercase(groups[x.0 as int].label@), query)
        || row_matches(nav_row(groups, x), query))
}

proof fn lemma_group_lines_members(groups: Seq<Group>, g: usize, query: Seq<char>, n: nat)
    requires
        g < groups.len(),
        n <= groups[g as int].rows@.len(),
        n <= usize::MAX,
    ensures
        forall|x: Nav| #[trigger] group_lines(g, groups[g as int], query, n).contains(x) <==> (x.0 == g && x.1 < n
            && line_kept(groups, query, x)),
    decreases n,
{
    let group = groups[g as int];
    if n > 0 {
        lemma_group_lines_members(groups, g, query, (n - 1) as nat);
        let before = group_lines(g, group, query, (n - 1) as nat);
        let now = group_lines(g, group, query, n);
        let r = (n - 1) as int;
        let y: Nav = (g, r as usize);
        assert forall|x: Nav| #[trigger] now.contains(x) <==> (x.0 == g && x.1 < n && line_kept(groups, query, x)) by {
            assert(before.contains(x) <==> (x.0 == g && x.1 < n - 1 && line_kept(groups, query, x)));
            if now != before {
                assert(now == before.push(y));
                if now.contains(x) && !before.contains(x) {
                    let k = choose|k: int| 0 <= k < now.len() && now[k] == x;
                    if k < before.len() {
                        assert(now[k] == before[k]);
                    }
                }
                if before.contains(x) {
                    let k = choose|k: int| 0 <= k < before.len() && before[k] == x;
                    assert(now[k] == before[k]);
                }
                if x == y {
                    assert(now[now.len() - 1] == y);
                }
            } else {
                if x == y {
                    assert(!line_kept(groups, query, y));
                }
            }
        }
    }
}

proof fn lemma_kept_lines_members(groups: Seq<Group>, query: Seq<char>, n: nat)
    requires
        n <= groups.len(),
        counts_fit(groups),
    ensures
        forall|x: Nav| #[trigger] kept_lines(groups, query, n).contains(x) <==> (x.0 < n && line_kept(groups, query, x)),
    decreases n,
{
    if n > 0 {
        let g = (n - 1) as int;
        lemma_kept_lines_members(groups, query, (n - 1) as nat);
        assert(groups[g].rows@.len() <= usize::MAX);
        lemma_group_lines_members(groups, g as usize, query, groups[g].rows@.len());
        let a = kept_lines(groups, query, (n - 1) as nat);
        let b = group_lines(g as usize, groups[g], query, groups[g].rows@.len());
        let c = a + b;
        assert forall|x: Nav| #[trigger] c.contains(x) <==> (x.0 < n && line_kept(groups, query, x)) by {
            if c.contains(x) {
                let k = choose|k: int| 0 <= k < c.len() && c[k] == x;
                if k < a.len() {
                    assert(c[k] == a[k]);
                    assert(a.contains(x));
                } else {
                    assert(c[k] == b[k - a.len()]);
                    assert(b.contains(x));
                }
            }
            if x.0 < n && line_kept(groups, query, x) {
                if x.0 < n - 1 {
                    assert(a.contains(x));
                    let k = choose|k: int| 0 <= k < a.len() && a[k] == x;
                    assert(c[k] == a[k]);
                } else {
                    assert(b.contains(x));
                    let k = choose|k: int| 0 <= k < b.len() && b[k] == x;
                    assert(c[a.len() + k] == b[k]);
                }
            }
        }
    }
}

/// Rows that rank alike come before the same rows.
proof fn lemma_same_rank_before(a: Row, b: Row, c: Row)
    requires
        same_rank(a, b),
    ensures
        row_before(a, c) == row_before(b, c),
        !row_before(a, b),
{
    lemma_lex_lt_irreflexive(a.name@);
}

proof fn lemma_insert_line_ties(groups: Seq<Group>, s: Seq<Nav>, x: Nav)
    requires
        lines_sorted(groups, s),
        ties_in_order(groups, s),
        forall|k: int| 0 <= k < s.len() ==> nav_lt(#[trigger] s[k], x),
    ensures
        ties_in_order(groups, insert_line(groups, s, x)),
    decreases s.len(),
{
    broadcast use vstd::seq_lib::group_to_multiset_ensures;

    let rx = nav_row(groups, x);
    if s.len() == 0 {
    } else if row_before(rx, nav_row(groups, s[0])) {
        let t = seq![x] + s;
        assert forall|i: int, j: int|
            #![trigger t[i], t[j]]
            0 <= i < j < t.len() && same_rank(nav_row(groups, t[i]), nav_row(groups, t[j])) implies nav_lt(
                t[i],
                t[j],
            ) by {
            if i > 0 {
                assert(t[i] == s[i - 1] && t[j] == s[j - 1]);
            } else {
                assert(t[j] == s[j - 1]);
                lemma_same_rank_before(rx, nav_row(groups, s[j - 1]), nav_row(groups, s[0]));
                if j - 1 > 0 {
                    assert(!row_before(nav_row(groups, s[j - 1]), nav_row(groups, s[0])));
                }
                assert(false);
            }
        }
    } else {
        let rest = s.drop_first();
        assert(lines_sorted(groups, rest)) by {
            assert forall|i: int, j: int| 0 <= i < j < rest.len() implies !row_before(
                #[trigger] nav_row(groups, rest[j]),
                #[trigger] nav_row(groups, rest[i]),
            ) by {
                assert(rest[i] == s[i + 1] && rest[j] == s[j + 1]);
            }
        }
        assert forall|i: int, j: int|
            #![trigger rest[i], rest[j]]
            0 <= i < j < rest.len() && same_rank(nav_row(groups, rest[i]), nav_row(groups, rest[j])) implies nav_lt(
                rest[i],
                rest[j],
            ) by {
            assert(rest[i] == s[i + 1] && rest[j] == s[j + 1]);
        }
        assert forall|k: int| 0 <= k < rest.len() implies nav_lt(#[trigger] rest[k], x) by {
            assert(rest[k] == s[k + 1]);
        }
        lemma_insert_line_ties(groups, rest, x);
        lemma_insert_line_sorted(groups, rest, x);
        let inner = insert_line(groups, rest, x);
        let t = seq![s[0]] + inner;
        assert forall|i: int, j: int|
            #![trigger t[i], t[j]]
            0 <= i < j < t.len() && same_rank(nav_row(groups, t[i]), nav_row(groups, t[j])) implies nav_lt(
                t[i],
                t[j],
            ) by {
            if i == 0 {
                let y = inner[j - 1];
                assert(t[j] == y);
                assert(inner.to_multiset().contains(y));
                assert(rest.to_multiset().insert(x).contains(y));
                if y != x {
                    assert(rest.to_multiset().contains(y));
                    assert(rest.contains(y));
                    let k = choose|k: int| 0 <= k < rest.len() && rest[k] == y;
                    assert(rest[k] == s[k + 1]);
                    assert(s[0] == t[0]);
                } else {
                    assert(nav_lt(s[0], x));
                }
            } else {
                assert(t[i] == inner[i - 1] && t[j] == inner[j - 1]);
            }
        }
    }
}

proof fn lemma_sort_lines_ties(groups: Seq<Group>, s: Seq<Nav>)
    requires
        nav_increasing(s),
    ensures
        ties_in_order(groups, sort_lines(groups, s)),
    decreases s.len(),
{
    broadcast use vstd::seq_lib::group_to_multiset_ensures;

    if s.len() > 0 {
        let d = s.drop_last();
        assert forall|i: int, j: int| #![trigger d[i], d[j]] 0 <= i < j < d.len() implies nav_lt(d[i], d[j]) by {
            assert(d[i] == s[i] && d[j] == s[j]);
        }
        lemma_sort_lines_ties(groups, d);
        lemma_sort_lines_sorted(groups, d);
        let t = sort_lines(groups, d);
        assert forall|k: int| 0 <= k < t.len() implies nav_lt(#[trigger] t[k], s.last()) by {
            let y = t[k];
            assert(t.to_multiset().contains(y));
            assert(d.to_multiset().contains(y));
            assert(d.contains(y));
            let m = choose|m: int| 0 <= m < d.len() && d[m] == y;
            assert(d[m] == s[m]);
            assert(s[s.len() - 1] == s.last());
        }
        lemma_insert_line_ties(groups, t, s.last());
    }
}

/// The flat list holds exactly the lines the query keeps, each once as
/// often as it is kept; no line is listed after a line it comes strictly
/// before (this window's workspace on top, then the most recently used
/// first, then by name); and lines that rank alike keep the groups' own
/// order.
pub proof fn lemma_flat_list_is_ordered(groups: Seq<Group>, query: Seq<char>)
    requires
        counts_fit(groups),
    ensures
        lines_sorted(groups, flat_list(groups, query)),
        flat_list(groups, query).to_multiset() == kept_lines(groups, query, groups.len()).to_multiset(),
        ties_in_order(groups, flat_list(groups, query)),
        flat_list(groups, query).no_duplicates(),
        forall|x: Nav| #[trigger] flat_list(groups, query).contains(x) <==> line_kept(groups, query, x),
{
    broadcast use vstd::seq_lib::group_to_multiset_ensures;

    let kept = kept_lines(groups, query, groups.len());
    let flat = flat_list(groups, query);
    lemma_sort_lines_sorted(groups, kept);
    lemma_kept_lines_increasing(groups, query, groups.len());
    lemma_sort_lines_ties(groups, kept);
    lemma_kept_lines_members(groups, query, groups.len());
    assert(kept.no_duplicates()) by {
        assert forall|i: int, j: int| 0 <= i < kept.len() && 0 <= j < kept.len() && i != j implies kept[i]
            != kept[j] by {
            if i < j {
                assert(nav_lt(kept[i], kept[j]));
            } else {
                assert(nav_lt(kept[j], kept[i]));
            }
        }
    }
    kept.lemma_multiset_has_no_duplicates();
    flat.lemma_multiset_has_no_duplicates_conv();
    assert forall|x: Nav| #[trigger] flat.contains(x) <==> line_kept(groups, query, x) by {
        assert(flat.contains(x) <==> flat.to_multiset().count(x) > 0);
        assert(kept.contains(x) <==> kept.to_multiset().count(x) > 0);
        if line_kept(groups, query, x) {
            assert(x.0 < groups.len());
        }
    }
}

// ------------------------------------------------------------------ panel

/// One frame of the panel: the groups, and the flat left column the arrow
/// keys walk.
pub struct Layout {
    pub groups: Vec<Group>,
    pub nav: Vec<Nav>,
}

impl Layout {
    /// The line the tab column shows at `sel`; nothing past the end.
    pub fn subject(&self, sel: usize) -> (line: Option<Nav>)
        ensures
            sel < self.nav@.len() ==> line == Some(self.nav@[sel as int]),
            sel >= self.nav@.len() ==> line is None,
    {
        if sel < self.nav.len() {
            Some(self.nav[sel])
        } else {
            None
        }
    }

    /// The workspace row the tab column shows at `sel`.
    pub fn subject_row(&self, sel: usize) -> (row: Option<&Row>)
        requires
            sel < self.nav@.len() ==> self.nav@[sel as int].0 < self.groups@.len(),
        ensures
            sel < self.nav@.len() && nav_valid(self.groups@, self.nav@[sel as int]) ==> row == Some(
                &nav_row(self.groups@, self.nav@[sel as int]),
            ),
            !(sel < self.nav@.len() && nav_valid(self.groups@, self.nav@[sel as int])) ==> row is None,
    {
        if sel >= self.nav.len() {
            return None;
        }
        let (g, r) = self.nav[sel];
        if r < self.groups[g].rows.len() {
            Some(&self.groups[g].rows[r])
        } else {
            None
        }
    }
}

/// A step moves the cursor by exactly one line around the ring of `n`
/// lines: forward to the next line (the first after the last), backward to
/// the line above (the last before the first); and a step one way is
/// undone by a step the other way.
pub proof fn lemma_step_moves_one_line(i: int, n: int)
    requires
        0 <= i < n,
    ensures
        step_of(i, n, true) == (i + 1) % n,
        step_of(i, n, false) == (i + n - 1) % n,
        step_of(step_of(i, n, true), n, false) == i,
        step_of(step_of(i, n, false), n, true) == i,
{
    if i + 1 < n {
        vstd::arithmetic::div_mod::lemma_small_mod((i + 1) as nat, n as nat);
    } else {
        vstd::arithmetic::div_mod::lemma_mod_self_0(n);
    }
    if i > 0 {
        vstd::arithmetic::div_mod::lemma_mod_add_multiples_vanish(i - 1, n);
        vstd::arithmetic::div_mod::lemma_small_mod((i - 1) as nat, n as nat);
        assert(n + (i - 1) == i + n - 1);
    } else {
        vstd::arithmetic::div_mod::lemma_small_mod((n - 1) as nat, n as nat);
    }
}

/// One step through `n` lines from `i`, wrapping at both ends.
pub open spec fn step_of(i: int, n: int, forward: bool) -> int {
    if forward {
        if i + 1 == n {
            0
        } else {
            i + 1
        }
    } else {
        if i == 0 {
            n - 1
        } else {
            i - 1
        }
    }
}

/// One step through `n` lines from `i`, wrapping at both ends.
pub fn step(i: usize, n: usize, forward: bool) -> (next: usize)
    requires
        i < n,
    ensures
        next == step_of(i as int, n as int, forward),
        next < n,
        forward ==> next as int == (i + 1) % (n as int),
        !forward ==> next as int == (i + n - 1) % (n as int),
        step_of(next as int, n as int, !forward) == i,
{
    proof {
        lemma_step_moves_one_line(i as int, n as int);
    }
    if forward {
        if i + 1 == n {
            0
        } else {
            i + 1
        }
    } else {
        if i == 0 {
            n - 1
        } else {
            i - 1
        }
    }
}

/// Which of the panel's two columns has the cursor.
#[derive(Clone, Copy, Debug, PartialEq, Eq, Structural)]
pub enum Column {
    Left,
    Right,
}

/// The state of the open panel: the column the cursor is in, the line
/// selected in each column, where the pointer rests, whether the tab
/// column is in most-recently-used order, and the modifiers whose release
/// commits (held since a Ctrl+Tab opened the panel).
#[derive(Clone, Copy, Debug, PartialEq, Eq, Structural)]
pub struct SwitcherCursor {
    pub column: Column,
    pub left_sel: usize,
    pub right_sel: usize,
    /// The pointer is inside the card.
    pub hover_card: bool,
    /// The pointer is inside the tab column.
    pub hover_tabs: bool,
    pub mru: bool,
    pub hold: Option<Modifiers>,
}

impl SwitcherCursor {
    /// The pointer rests in the card but off the tab column: letting go of
    /// the held modifier there does not commit.
    pub fn hover_keeps_open(&self) -> (keep: bool)
        ensures
            keep == (self.hover_card && !self.hover_tabs),
    {
        self.hover_card && !self.hover_tabs
    }

    /// Steps the workspace column through its `n` lines: the cursor moves
    /// to the left column, the selection (held inside the list) steps with
    /// wrap-around, and the tab column starts over at its first line.
    /// Nothing changes with no line.
    pub fn step_left(&mut self, n: usize, forward: bool)
        ensures
            n == 0 ==> *final(self) == *old(self),
            n > 0 ==> *final(self) == (SwitcherCursor {
                column: Column::Left,
                left_sel: step_of(
                    if old(self).left_sel < n - 1 { old(self).left_sel as int } else { n - 1 },
                    n as int,
                    forward,
                ) as usize,
                right_sel: 0,
                ..*old(self)
            }),
    {
        if n == 0 {
            return;
        }
        let at = if self.left_sel < n - 1 { self.left_sel } else { n - 1 };
        self.column = Column::Left;
        self.left_sel = step(at, n, forward);
        self.right_sel = 0;
    }

    /// Steps the tab column through its `n` lines: the cursor moves to the
    /// right column and the selection steps with wrap-around. Nothing
    /// changes with no line.
    pub fn step_right(&mut self, n: usize, forward: bool)
        ensures
            n == 0 ==> *final(self) == *old(self),
            n > 0 ==> *final(self) == (SwitcherCursor {
                column: Column::Right,
                right_sel: step_of(
                    if old(self).right_sel < n - 1 { old(self).right_sel as int } else { n - 1 },
                    n as int,
                    forward,
                ) as usize,
                ..*old(self)
            }),
    {
        if n == 0 {
            return;
        }
        let at = if self.right_sel < n - 1 { self.right_sel } else { n - 1 };
        self.column = Column::Right;
        self.right_sel = step(at, n, forward);
    }
}

/// What confirming the panel opens: a tab of a workspace, or a workspace
/// line of the flat list.
#[derive(Clone, Copy, Debug, PartialEq, Eq, Structural)]
pub enum Confirm {
    Tab { workspace: WorkspaceId, tab: TabId },
    Line { group: usize, row: usize },
}

/// What confirming opens: in the tab column, the selected visible tab of
/// the selected workspace; in the workspace column, the selected line.
/// Nothing when the selection names nothing.
pub open spec fn confirm_of(layout: &Layout, cursor: SwitcherCursor, query: Seq<char>) -> Option<Confirm> {
    let sel = cursor.left_sel as int;
    if cursor.column == Column::Right {
        if sel < layout.nav@.len() && nav_valid(layout.groups@, layout.nav@[sel]) {
            let row = nav_row(layout.groups@, layout.nav@[sel]);
            let shown = visible_tabs_of(row, query);
            if (cursor.right_sel as int) < shown.len() && (shown[cursor.right_sel as int] as int)
                < row.tabs@.len() {
                Some(
                    Confirm::Tab {
                        workspace: row.id,
                        tab: row.tabs@[shown[cursor.right_sel as int] as int].id,
                    },
                )
            } else {
                None
            }
        } else {
            None
        }
    } else if sel < layout.nav@.len() {
        Some(Confirm::Line { group: layout.nav@[sel].0, row: layout.nav@[sel].1 })
    } else {
        None
    }
}

/// What confirming the panel opens, for the (lowercase) query.
pub fn switcher_confirm(layout: &Layout, cursor: SwitcherCursor, query: &str) -> (c: Option<Confirm>)
    requires
        forall|k: int| 0 <= k < layout.nav@.len() ==> (#[trigger] layout.nav@[k]).0 < layout.groups@.len(),
    ensures
        c == confirm_of(layout, cursor, query@),
        c matches Some(Confirm::Tab { workspace, tab }) ==> {
            &&& cursor.column == Column::Right
            &&& (cursor.left_sel as int) < layout.nav@.len()
            &&& nav_valid(layout.groups@, layout.nav@[cursor.left_sel as int])
            &&& ({
                let row = nav_row(layout.groups@, layout.nav@[cursor.left_sel as int]);
                let filtering = query@.len() > 0 && !row_self_matches(row, query@) && exists|i: int|
                    0 <= i < row.tabs@.len() && #[trigger] tab_matches(row.tabs@[i], query@);
                &&& workspace == row.id
                &&& exists|i: int|
                    0 <= i < row.tabs@.len() && (#[trigger] row.tabs@[i]).id == tab && (filtering ==> tab_matches(
                        row.tabs@[i],
                        query@,
                    ))
            })
        },
        c matches Some(Confirm::Line { group, row }) ==> cursor.column == Column::Left && (cursor.left_sel as int)
            < layout.nav@.len() && layout.nav@[cursor.left_sel as int] == (group, row),
        cursor.column == Column::Left && (cursor.left_sel as int) < layout.nav@.len() ==> c is Some,
        cursor.column == Column::Right && (cursor.left_sel as int) < layout.nav@.len() && nav_valid(
            layout.groups@,
            layout.nav@[cursor.left_sel as int],
        ) && (cursor.right_sel as int) < visible_tabs_of(
            nav_row(layout.groups@, layout.nav@[cursor.left_sel as int]),
            query@,
        ).len() ==> c is Some,
{
    let sel = cursor.left_sel;
    if cursor.column == Column::Right {
        let row = match layout.subject_row(sel) {
            Some(row) => row,
            None => {
                return None;
            },
        };
        let shown = visible_tabs(row, query);
        if cursor.right_sel < shown.len() && shown[cursor.right_sel] < row.tabs.len() {
            let tab = &row.tabs[shown[cursor.right_sel]];
            proof {
                let i = shown@[cursor.right_sel as int] as int;
                assert(row.tabs@[i].id == tab.id);
            }
            return Some(Confirm::Tab { workspace: row.id, tab: tab.id });
        }
        return None;
    }
    if sel < layout.nav.len() {
        let (g, r) = layout.nav[sel];
        Some(Confirm::Line { group: g, row: r })
    } else {
        None
    }
}

// ------------------------------------------------------------------- keys

/// The modifiers held with a key. `secondary` is the platform's secondary
/// modifier (⌘ on macOS, Ctrl elsewhere), as the caller reads it.
#[derive(Clone, Copy, Debug, PartialEq, Eq, Structural)]
pub struct Modifiers {
    pub control: bool,
    pub alt: bool,
    pub shift: bool,
    pub platform: bool,
    pub function: bool,
    pub secondary: bool,
}

/// Some modifier is held.
pub open spec fn modified(m: Modifiers) -> bool {
    m.control || m.alt || m.shift || m.platform || m.function
}

/// Every modifier held in `a` is held in `b`.
pub open spec fn held_within(a: Modifiers, b: Modifiers) -> bool {
    (a.control ==> b.control) && (a.alt ==> b.alt) && (a.shift ==> b.shift) && (a.platform
        ==> b.platform) && (a.function ==> b.function)
}

/// What the panel wants to do with a keystroke.
#[derive(Clone, Copy, Debug, PartialEq, Eq, Structural)]
pub enum Key {
    Close,
    /// Step through the workspace list, forward or back.
    Step(bool),
    ToColumn(Column),
    /// Step through the tab column, forward or back.
    Tab(bool),
    /// Open the selection, in a new window or not.
    Confirm(bool),
    Pass,
}

/// What a keystroke asks of the panel: escape closes it whatever is held;
/// an Alt or Fn chord passes; bare arrows step or change column; Tab steps
/// the tab column unless the secondary modifier is held (Shift steps
/// back); Enter confirms bare or with the secondary modifier, which opens a
/// new window; anything else passes.
pub open spec fn key_intent_of(key: Seq<char>, mods: Modifiers) -> Key {
    let bare = !mods.control && !mods.secondary;
    if key == "escape"@ {
        Key::Close
    } else if mods.alt || mods.function {
        Key::Pass
    } else if (key == "up"@ || key == "down"@) && bare {
        Key::Step(key == "down"@)
    } else if key == "left"@ && bare {
        Key::ToColumn(Column::Left)
    } else if key == "right"@ && bare {
        Key::ToColumn(Column::Right)
    } else if key == "tab"@ && !mods.secondary {
        Key::Tab(!mods.shift)
    } else if key == "enter"@ && (bare || mods.secondary) {
        Key::Confirm(mods.secondary)
    } else {
        Key::Pass
    }
}

/// What a keystroke asks of the panel.
pub fn key_intent(key: &str, mods: Modifiers) -> (k: Key)
    ensures
        k == key_intent_of(key@, mods),
{
    if str_eq(key, "escape") {
        return Key::Close;
    }
    if mods.alt || mods.function {
        return Key::Pass;
    }
    let bare = !mods.control && !mods.secondary;
    let down = str_eq(key, "down");
    if (str_eq(key, "up") || down) && bare {
        Key::Step(down)
    } else if str_eq(key, "left") && bare {
        Key::ToColumn(Column::Left)
    } else if str_eq(key, "right") && bare {
        Key::ToColumn(Column::Right)
    } else if str_eq(key, "tab") && !mods.secondary {
        Key::Tab(!mods.shift)
    } else if str_eq(key, "enter") && (bare || mods.secondary) {
        Key::Confirm(mods.secondary)
    } else {
        Key::Pass
    }
}

// ------------------------------------------------------------ group state

/// The remote workspace ids the rows already carry.
pub open spec fn known_remote_ids(rows: Seq<Row>) -> Set<WorkspaceId> {
    Set::new(|id: WorkspaceId| exists|k: int| 0 <= k < rows.len() && #[trigger] rows[k].remote_id == Some(id))
}

/// The listed remote workspaces whose id is not known, in listing order.
pub open spec fn fresh_rows(remote: Seq<RemoteWorkspaceRow>, known: Set<WorkspaceId>) -> Seq<RemoteWorkspaceRow>
    decreases remote.len(),
{
    if remote.len() == 0 {
        Seq::empty()
    } else {
        let before = fresh_rows(remote.drop_last(), known);
        if known.contains(remote.last().id) {
            before
        } else {
            before.push(remote.last())
        }
    }
}

/// `row` is the switcher's row for a workspace a machine lists that this
/// client never adopted: named and timed as listed, stopped, closed, not
/// this window's, adoptable, with no path and no tabs.
pub open spec fn adopted_from(row: Row, r: RemoteWorkspaceRow) -> bool {
    &&& row.id == r.id
    &&& row.name@ == r.name@
    &&& row.path@.len() == 0
    &&& row.last_active == r.last_active
    &&& row.live == Liveness::Stopped
    &&& !row.open
    &&& !row.current
    &&& !row.preempted
    &&& row.adopt matches Some(a) && a.id == r.id && a.name@ == r.name@ && a.last_active
        == r.last_active
    &&& row.remote_id == Some(r.id)
    &&& row.tabs@.len() == 0
}

/// Everything of a group but its rows is the same.
pub open spec fn same_but_rows(a: Group, b: Group) -> bool {
    &&& a.key@ == b.key@
    &&& a.label@ == b.label@
    &&& a.endpoint@ == b.endpoint@
    &&& a.target == b.target
    &&& a.link == b.link
    &&& a.error == b.error
    &&& a.preempted == b.preempted
    &&& a.parked == b.parked
}

fn contains_id(ids: &Vec<WorkspaceId>, id: WorkspaceId) -> (r: bool)
    ensures
        r == ids@.contains(id),
{
    let mut i: usize = 0;
    while i < ids.len()
        invariant
            i <= ids@.len(),
            forall|j: int| 0 <= j < i ==> ids@[j] != id,
        decreases ids@.len() - i,
    {
        if ids[i] == id {
            assert(ids@[i as int] == id);
            return true;
        }
        i = i + 1;
    }
    false
}

// ------------------------------------------------------------ row faces

/// The word a workspace row carries after its name.
#[derive(Clone, Copy, Debug, PartialEq, Eq, Structural)]
pub enum RowBadge {
    /// Another client drives it (the one badge that warns).
    TakenOver,
    ThisWindow,
    Open,
}

/// The dot before a row's machine name: none (an icon) for this computer.
#[derive(Clone, Copy, Debug, PartialEq, Eq, Structural)]
pub enum HostDot {
    Live,
    Warning,
    Danger,
    Unknown,
}

/// How a workspace row of the switcher reads.
#[derive(Clone, Copy, Debug, PartialEq, Eq, Structural)]
pub struct RowFace {
    /// Muted: its machine has no link, so its panes cannot show now.
    pub unlit: bool,
    pub badge: Option<RowBadge>,
    pub dot: Option<HostDot>,
}

/// The dot of a machine's link: live when connected, a warning when
/// connected but preempted or while connecting, danger when failed,
/// unknown when offline, and none for this computer.
pub open spec fn host_dot_of(link: Link, preempted: bool) -> Option<HostDot> {
    match link {
        Link::Local => None,
        Link::Connected => if preempted {
            Some(HostDot::Warning)
        } else {
            Some(HostDot::Live)
        },
        Link::Connecting | Link::Reconnecting { .. } => Some(HostDot::Warning),
        Link::Failed => Some(HostDot::Danger),
        Link::Offline => Some(HostDot::Unknown),
    }
}

/// How a workspace row reads: unlit on a remote machine that is offline or
/// failed; taken over, else this window, else open; and its machine's dot.
pub fn row_face(group: &Group, row: &Row) -> (face: RowFace)
    ensures
        face.unlit == (group.target is Some && (group.link is Offline || group.link is Failed)),
        face.badge == (if row.preempted {
            Some(RowBadge::TakenOver)
        } else if row.current {
            Some(RowBadge::ThisWindow)
        } else if row.open {
            Some(RowBadge::Open)
        } else {
            None
        }),
        face.dot == host_dot_of(group.link, group.preempted),
{
    let unlit = group.target.is_some() && match group.link {
        Link::Offline | Link::Failed => true,
        _ => false,
    };
    let badge = if row.preempted {
        Some(RowBadge::TakenOver)
    } else if row.current {
        Some(RowBadge::ThisWindow)
    } else if row.open {
        Some(RowBadge::Open)
    } else {
        None
    };
    let dot = match group.link {
        Link::Local => None,
        Link::Connected => if group.preempted {
            Some(HostDot::Warning)
        } else {
            Some(HostDot::Live)
        },
        Link::Connecting | Link::Reconnecting { .. } => Some(HostDot::Warning),
        Link::Failed => Some(HostDot::Danger),
        Link::Offline => Some(HostDot::Unknown),
    };
    RowFace { unlit, badge, dot }
}

/// A click on a workspace row opens it on a double click or with the
/// secondary modifier (then in a new window); a single plain click only
/// aims the tab column at it.
pub fn row_click_opens(click_count: usize, secondary: bool) -> (open: bool)
    ensures
        open == (click_count >= 2 || secondary),
{
    click_count >= 2 || secondary
}

/// What the tab column shows.
pub enum TabColumn {
    /// No workspace is picked.
    PickWorkspace,
    /// A remote workspace this client never opened: its tabs show once it
    /// is opened.
    TabsAfterOpening,
    NoTabs,
    /// The query hides every tab.
    NoMatch,
    /// These tabs, by position.
    Tabs(Vec<usize>),
}

/// What the tab column shows for the picked row under a query: a prompt
/// with no row; for a row without tabs, that its tabs come after opening
/// (a listing to adopt, or a remote workspace not open here) or that it has
/// none; else the tabs the query leaves (see `visible_tabs_of`), or that
/// none match.
pub fn tab_column(row: Option<&Row>, query: &str) -> (c: TabColumn)
    ensures
        match row {
            None => c is PickWorkspace,
            Some(r) => if r.tabs@.len() == 0 {
                if r.adopt is Some || (r.remote_id is Some && !r.open) {
                    c is TabsAfterOpening
                } else {
                    c is NoTabs
                }
            } else if visible_tabs_of(*r, query@).len() == 0 {
                c is NoMatch
            } else {
                c matches TabColumn::Tabs(v) && v@ == visible_tabs_of(*r, query@)
            },
        },
{
    match row {
        None => TabColumn::PickWorkspace,
        Some(r) => {
            if r.tabs.len() == 0 {
                if r.adopt.is_some() || (r.remote_id.is_some() && !r.open) {
                    TabColumn::TabsAfterOpening
                } else {
                    TabColumn::NoTabs
                }
            } else {
                let hits = visible_tabs(r, query);
                if hits.len() == 0 {
                    TabColumn::NoMatch
                } else {
                    TabColumn::Tabs(hits)
                }
            }
        },
    }
}

// ------------------------------------------------------------ rail folds

/// The keys of `keys` other than `key`, in order.
pub open spec fn without_key(keys: Seq<Seq<char>>, key: Seq<char>) -> Seq<Seq<char>>
    decreases keys.len(),
{
    if keys.len() == 0 {
        Seq::empty()
    } else {
        let before = without_key(keys.drop_last(), key);
        if keys.last() == key {
            before
        } else {
            before.push(keys.last())
        }
    }
}

/// Which machines of the rail are folded, by key.
pub struct MachineRail {
    pub collapsed: Vec<String>,
}

impl MachineRail {
    /// The folded keys as plain values.
    pub open spec fn folded(&self) -> Seq<Seq<char>> {
        strings_view(self.collapsed@)
    }

    /// Whether a machine shows its rows: always during a search (a search
    /// outranks a fold), else unless it is folded.
    pub open spec fn expanded_of(&self, key: Seq<char>, searching: bool) -> bool {
        searching || !self.folded().contains(key)
    }

    /// Whether a machine shows its rows (see `expanded_of`).
    pub fn expanded(&self, key: &str, searching: bool) -> (shown: bool)
        ensures
            shown == self.expanded_of(key@, searching),
    {
        if searching {
            return true;
        }
        let mut i: usize = 0;
        while i < self.collapsed.len()
            invariant
                i <= self.collapsed@.len(),
                !searching,
                forall|j: int| 0 <= j < i ==> self.folded()[j] != key@,
            decreases self.collapsed@.len() - i,
        {
            if str_eq(self.collapsed[i].as_str(), key) {
                assert(self.folded()[i as int] == key@);
                return false;
            }
            i = i + 1;
        }
        true
    }

    /// Folds a machine, or unfolds it when it is folded: unfolding takes
    /// every entry of its key out rather than piling entries up.
    pub fn toggle_collapsed(&mut self, key: &str)
        ensures
            old(self).folded().contains(key@) ==> final(self).folded() == without_key(old(self).folded(), key@),
            !old(self).folded().contains(key@) ==> final(self).folded() == old(self).folded().push(key@),
    {
        let ghost start = self.folded();
        let mut kept: Vec<String> = Vec::new();
        let mut found = false;
        let mut i: usize = 0;
        while i < self.collapsed.len()
            invariant
                i <= self.collapsed@.len(),
                start == self.folded(),
                strings_view(kept@) == without_key(start.take(i as int), key@),
                found == start.take(i as int).contains(key@),
            decreases self.collapsed@.len() - i,
        {
            let same = str_eq(self.collapsed[i].as_str(), key);
            proof {
                let t = start.take(i + 1);
                assert(t.drop_last() =~= start.take(i as int));
                assert(t.last() == self.collapsed@[i as int]@);
                assert(t.contains(key@) == (start.take(i as int).contains(key@) || t.last() == key@)) by {
                    if t.contains(key@) {
                        let k = choose|k: int| 0 <= k < t.len() && t[k] == key@;
                        if k < i {
                            assert(start.take(i as int)[k] == key@);
                        }
                    }
                    if start.take(i as int).contains(key@) {
                        let k = choose|k: int| 0 <= k < i && start.take(i as int)[k] == key@;
                        assert(t[k] == key@);
                    }
                }
            }
            if same {
                found = true;
            } else {
                let ghost before = kept@;
                kept.push(owned(self.collapsed[i].as_str()));
                assert(strings_view(kept@) =~= strings_view(before).push(self.collapsed@[i as int]@));
            }
            i = i + 1;
        }
        assert(start.take(self.collapsed@.len() as int) =~= start);
        if found {
            self.collapsed = kept;
        } else {
            let ghost before = self.collapsed@;
            self.collapsed.push(owned(key));
            assert(strings_view(self.collapsed@) =~= strings_view(before).push(key@));
        }
    }
}

// ----------------------------------------------------------- machine rail

/// Whether the machine rail lists a tab under a query: with no query every
/// tab; else a tab whose label, a space and its path, lowercased, hold it.
pub open spec fn rail_shows(t: TabRow, query: Seq<char>) -> bool {
    query.len() == 0 || contains_seq(lowercase(t.label@ + seq![' '] + t.path@), query)
}

/// The positions, below `n`, of the tabs the rail lists, in order.
pub open spec fn rail_tabs_of(tabs: Seq<TabRow>, query: Seq<char>, n: nat) -> Seq<usize>
    decreases n,
{
    if n == 0 {
        Seq::empty()
    } else {
        let before = rail_tabs_of(tabs, query, (n - 1) as nat);
        if rail_shows(tabs[n - 1], query) {
            before.push((n - 1) as usize)
        } else {
            before
        }
    }
}

/// The tabs of a workspace the machine rail lists under a (lowercase)
/// query, by position (see `rail_shows`).
pub fn rail_tabs(row: &Row, query: &str) -> (shown: Vec<usize>)
    ensures
        shown@ == rail_tabs_of(row.tabs@, query@, row.tabs@.len()),
{
    let mut shown: Vec<usize> = Vec::new();
    let mut i: usize = 0;
    while i < row.tabs.len()
        invariant
            i <= row.tabs@.len(),
            shown@ == rail_tabs_of(row.tabs@, query@, i as nat),
        decreases row.tabs@.len() - i,
    {
        let t = &row.tabs[i];
        let keep = if query.unicode_len() == 0 {
            true
        } else {
            let mut text = chars_of(t.label.as_str());
            text.push(' ');
            let path = chars_of(t.path.as_str());
            extend_chars(&mut text, path.as_slice());
            let joined = string_of(text.as_slice());
            assert(joined@ =~= t.label@ + seq![' '] + t.path@);
            lower_contains(joined.as_str(), query)
        };
        if keep {
            shown.push(i);
        }
        i = i + 1;
    }
    shown
}

// ------------------------------------------------------- bands and footer

/// The band a machine shows between the list and the footer.
#[derive(Clone, Copy, Debug, PartialEq, Eq, Structural)]
pub enum Banner {
    /// Our server is being installed on it.
    Installing,
    /// Its route is parked: forget its entries, or dismiss.
    Parked,
    /// Its error, with a retry.
    Error,
    /// A connect is under way or being retried.
    Connecting,
}

/// The band a machine shows: none for this computer; else its install in
/// progress, else a parked route that has rows and was not dismissed, else
/// its error, else a connect under way or being retried; a healthy machine
/// shows none.
pub open spec fn banner_of(g: Group, installing: bool, parked_dismissed: bool) -> Option<Banner> {
    if g.target is None {
        None
    } else if installing {
        Some(Banner::Installing)
    } else if g.parked && !parked_dismissed && g.rows@.len() > 0 {
        Some(Banner::Parked)
    } else if g.error is Some {
        Some(Banner::Error)
    } else if g.link is Connecting || g.link is Reconnecting {
        Some(Banner::Connecting)
    } else {
        None
    }
}

/// The band a machine shows (see `banner_of`).
pub fn group_banner(group: &Group, installing: bool, parked_dismissed: bool) -> (b: Option<Banner>)
    ensures
        b == banner_of(*group, installing, parked_dismissed),
{
    if group.target.is_none() {
        None
    } else if installing {
        Some(Banner::Installing)
    } else if group.parked && !parked_dismissed && group.rows.len() > 0 {
        Some(Banner::Parked)
    } else if group.error.is_some() {
        Some(Banner::Error)
    } else {
        match group.link {
            Link::Connecting | Link::Reconnecting { .. } => Some(Banner::Connecting),
            _ => None,
        }
    }
}

/// Whether an error band offers to replace the machine's server: the error
/// is a refusal of our protocol dialect and the machine runs our server.
pub fn offers_server_replace(dialect_refusal: bool, hosts_our_server: bool) -> (offer: bool)
    ensures
        offer == (dialect_refusal && hosts_our_server),
{
    dialect_refusal && hosts_our_server
}

/// Whether dismissing a machine's band also retires this window's connect:
/// only a failed connect to that very machine (a connect elsewhere is still
/// in flight).
pub fn dismiss_retires_connect(connect: Option<&ConnectFlow>, target: Option<&RemoteTarget>) -> (retire: bool)
    ensures
        retire == (match (connect, target) {
            (Some(ConnectFlow::Failed { choice, .. }), Some(t)) => choice.target@ == t@,
            _ => false,
        }),
{
    match (connect, target) {
        (Some(ConnectFlow::Failed { choice, .. }), Some(t)) => same_target(&choice.target, t),
        _ => false,
    }
}

/// The hint in the switcher's footer.
#[derive(Clone, Copy, Debug, PartialEq, Eq, Structural)]
pub enum FooterHint {
    /// A held chord switches on release.
    HoldToSwitch,
    /// With a query, Tab crosses the columns (the arrows move the caret).
    TabToCrossColumns,
    /// The secondary modifier with a click opens a new window.
    NewWindowChord,
}

/// The hint in the switcher's footer: the hold while one is held, else how
/// to cross columns while filtering, else how to open a new window.
pub fn footer_hint(holding: bool, filtering: bool) -> (h: FooterHint)
    ensures
        h == (if holding {
            FooterHint::HoldToSwitch
        } else if filtering {
            FooterHint::TabToCrossColumns
        } else {
            FooterHint::NewWindowChord
        }),
{
    if holding {
        FooterHint::HoldToSwitch
    } else if filtering {
        FooterHint::TabToCrossColumns
    } else {
        FooterHint::NewWindowChord
    }
}

// ------------------------------------------------------ opening and rejoin

/// Where opening a switcher row goes.
#[derive(Clone, Copy, Debug, PartialEq, Eq, Structural)]
pub enum OpenRoute {
    /// Adopt the remote workspace the row lists.
    AdoptRemote,
    /// Open the workspace in a new window.
    NewWindow,
    /// Switch this window to the workspace.
    Switch,
    /// Another window shows the workspace: tell the user, and stay.
    Occupied,
}

/// Whether switching to a workspace would take another window's: it is not
/// this window's workspace and a window shows it.
pub open spec fn window_conflict_of(workspace: WorkspaceId, current: WorkspaceId, has_window: bool) -> bool {
    workspace != current && has_window
}

/// Where opening a switcher row goes: a listing to adopt is adopted; else
/// a new window when asked for; else a switch, unless another window shows
/// the workspace.
pub fn switcher_open_route(adopt: bool, new_window: bool, workspace: WorkspaceId, current: WorkspaceId, has_window: bool) -> (r: OpenRoute)
    ensures
        r == (if adopt {
            OpenRoute::AdoptRemote
        } else if new_window {
            OpenRoute::NewWindow
        } else if window_conflict_of(workspace, current, has_window) {
            OpenRoute::Occupied
        } else {
            OpenRoute::Switch
        }),
{
    if adopt {
        OpenRoute::AdoptRemote
    } else if new_window {
        OpenRoute::NewWindow
    } else if workspace != current && has_window {
        OpenRoute::Occupied
    } else {
        OpenRoute::Switch
    }
}

/// How a rejoin finds its workspace.
#[derive(Clone, Copy, Debug, PartialEq, Eq, Structural)]
pub enum RejoinPlan {
    Refuse,
    /// This existing workspace.
    Use(WorkspaceId),
    /// Claim the host's workspace for this client.
    Claim,
}

/// How a rejoin of workspace `target_ws` of a host finds its workspace: on
/// this computer, the workspace itself unless the store records it on
/// another host; on another machine (which the switcher must list), the
/// one workspace mapped to it, none when several are, and with none mapped
/// a claim, unless a window shows the host's workspace.
pub open spec fn rejoin_plan_of(
    host_local: bool,
    target_ws: WorkspaceId,
    stored_elsewhere: bool,
    has_target: bool,
    mapped: Seq<WorkspaceId>,
    target_has_window: bool,
) -> RejoinPlan {
    if host_local {
        if stored_elsewhere {
            RejoinPlan::Refuse
        } else {
            RejoinPlan::Use(target_ws)
        }
    } else if !has_target || mapped.len() > 1 {
        RejoinPlan::Refuse
    } else if mapped.len() == 1 {
        RejoinPlan::Use(mapped[0])
    } else if target_has_window {
        RejoinPlan::Refuse
    } else {
        RejoinPlan::Claim
    }
}

/// How a rejoin finds its workspace (see `rejoin_plan_of`); `mapped` holds
/// the client workspaces the store maps to the host's workspace.
pub fn rejoin_plan(
    host_local: bool,
    target_ws: WorkspaceId,
    stored_elsewhere: bool,
    has_target: bool,
    mapped: &[WorkspaceId],
    target_has_window: bool,
) -> (p: RejoinPlan)
    ensures
        p == rejoin_plan_of(host_local, target_ws, stored_elsewhere, has_target, mapped@, target_has_window),
{
    if host_local {
        if stored_elsewhere {
            RejoinPlan::Refuse
        } else {
            RejoinPlan::Use(target_ws)
        }
    } else if !has_target || mapped.len() > 1 {
        RejoinPlan::Refuse
    } else if mapped.len() == 1 {
        RejoinPlan::Use(mapped[0])
    } else if target_has_window {
        RejoinPlan::Refuse
    } else {
        RejoinPlan::Claim
    }
}

/// Whether the workspace a rejoin found may be taken: no other client holds
/// it, and unless it is this window's, no window shows it and it is not
/// open.
pub fn rejoin_admits(id: WorkspaceId, current: WorkspaceId, preempted: bool, has_window: bool, open: bool) -> (ok: bool)
    ensures
        ok == (!preempted && (id == current || (!has_window && !open))),
{
    !preempted && (id == current || (!has_window && !open))
}

// ------------------------------------------------------- machine launcher

/// The row a group's launcher entry opens: every row active no later than
/// it, and every row after it active strictly earlier (the last of the
/// most recently active rows).
pub open spec fn is_latest_row(rows: Seq<Row>, i: int) -> bool {
    &&& 0 <= i < rows.len()
    &&& forall|j: int| 0 <= j < rows.len() ==> #[trigger] rows[j].last_active <= rows[i].last_active
    &&& forall|j: int| i < j < rows.len() ==> #[trigger] rows[j].last_active < rows[i].last_active
}

/// The most recently active row of a group, the last of them on a tie.
pub fn latest_row(rows: &[Row]) -> (at: Option<usize>)
    ensures
        match at {
            Some(i) => is_latest_row(rows@, i as int),
            None => rows@.len() == 0,
        },
{
    if rows.len() == 0 {
        return None;
    }
    let mut best: usize = 0;
    let mut i: usize = 1;
    while i < rows.len()
        invariant
            1 <= i <= rows.len(),
            best < i,
            forall|j: int| 0 <= j < i ==> #[trigger] rows@[j].last_active <= rows@[best as int].last_active,
            forall|j: int| best < j < i ==> #[trigger] rows@[j].last_active < rows@[best as int].last_active,
        decreases rows.len() - i,
    {
        if rows[i].last_active >= rows[best].last_active {
            best = i;
        }
        i = i + 1;
    }
    Some(best)
}

/// What a machine's launcher entry does.
#[derive(Clone, Copy, Debug, PartialEq, Eq, Structural)]
pub enum LauncherAction {
    /// Open the group's row at this position.
    Open(usize),
    /// Connect to the group's machine.
    Connect,
    /// Switch to a new workspace of this computer.
    NewWorkspace,
}

/// A machine's entry in the launcher menu: the caption of its link state
/// (shown after its label), whether it holds this window's workspace, and
/// what choosing it does.
#[derive(Clone, Copy, Debug, PartialEq, Eq, Structural)]
pub struct LauncherItem {
    pub caption: LinkCaption,
    pub checked: bool,
    pub action: LauncherAction,
}

/// Whether a row is this window's workspace.
pub open spec fn is_current_row(r: Row) -> bool {
    r.current
}

/// What choosing a machine's launcher entry does: open its current row,
/// else its most recently active row; a machine without rows is connected
/// to, and this computer without rows gets a new workspace.
pub open spec fn launcher_action_ok(g: Group, a: LauncherAction) -> bool {
    match first_where(g.rows@, |r: Row| is_current_row(r)) {
        Some(i) => a == LauncherAction::Open(i as usize),
        None => if g.rows@.len() > 0 {
            a matches LauncherAction::Open(i) && is_latest_row(g.rows@, i as int)
        } else if g.target is Some {
            a == LauncherAction::Connect
        } else {
            a == LauncherAction::NewWorkspace
        },
    }
}

/// The first row that is this window's workspace.
fn first_current_row(rows: &[Row]) -> (at: Option<usize>)
    ensures
        match at {
            Some(i) => first_where(rows@, |r: Row| is_current_row(r)) == Some(i as int),
            None => first_where(rows@, |r: Row| is_current_row(r)) is None,
        },
{
    let ghost p = |r: Row| is_current_row(r);
    let mut i: usize = 0;
    while i < rows.len()
        invariant
            i <= rows.len(),
            p == (|r: Row| is_current_row(r)),
            forall|j: int| 0 <= j < i ==> !p(#[trigger] rows@[j]),
        decreases rows.len() - i,
    {
        if rows[i].current {
            proof {
                lemma_first_where_found(rows@, p, i as int);
            }
            return Some(i);
        }
        i = i + 1;
    }
    proof {
        lemma_first_where_absent(rows@, p);
    }
    None
}

/// A machine's entry in the launcher menu.
pub fn machine_launcher_item(group: &Group) -> (item: LauncherItem)
    ensures
        item.caption == caption_of(group.link),
        item.checked == exists|i: int| 0 <= i < group.rows@.len() && #[trigger] group.rows@[i].current,
        launcher_action_ok(*group, item.action),
{
    let ghost p = |r: Row| is_current_row(r);
    let current = first_current_row(group.rows.as_slice());
    let action = match current {
        Some(c) => LauncherAction::Open(c),
        None => {
            match latest_row(group.rows.as_slice()) {
                Some(l) => LauncherAction::Open(l),
                None => if group.target.is_some() {
                    LauncherAction::Connect
                } else {
                    LauncherAction::NewWorkspace
                },
            }
        },
    };
    proof {
        lemma_first_where_meaning(group.rows@, p);
    }
    LauncherItem { caption: machine_link_label(group.link), checked: current.is_some(), action }
}

// -------------------------------------------------------- history carrier

/// A workspace as the client store records it, for a history carrier.
#[derive(Clone, Copy, Debug, PartialEq, Eq, Structural)]
pub struct StoredWorkspace {
    /// The record is on the group's host.
    pub on_host: bool,
    pub open: bool,
}

/// What the app knows of a row beyond the row itself, for choosing the
/// workspace a history entry opens in.
#[derive(Clone, Copy, Debug, PartialEq, Eq, Structural)]
pub struct CarrierFacts {
    /// Another client holds the workspace now.
    pub preempted_now: bool,
    /// A window of this app shows the workspace.
    pub has_window: bool,
    /// The machine lets us claim the remote workspace the row lists.
    pub claimable: bool,
    /// The client store's record of the workspace, if it has one.
    pub stored: Option<StoredWorkspace>,
    /// The workspace is among the unclaimed local workspaces the local
    /// machine lists.
    pub unclaimed_local: bool,
}

/// Whether a row of a group can carry a history entry: it is closed, held
/// by no other client and shown by no window; a remote listing to adopt
/// must be the one the row maps, on a remote group, and claimable; any
/// other row must be recorded on the group's host and closed there, or,
/// unrecorded, be an unclaimed workspace of the local machine (an unknown
/// workspace is not taken for a local one).
pub open spec fn carries_history(g: Group, r: Row, f: CarrierFacts, host_local: bool) -> bool {
    if r.open || r.preempted || f.preempted_now || f.has_window {
        false
    } else {
        match r.adopt {
            Some(remote) => g.target is Some && r.remote_id == Some(remote.id) && f.claimable,
            None => match f.stored {
                Some(s) => s.on_host && !s.open,
                None => host_local && f.unclaimed_local,
            },
        }
    }
}

/// The rows of a group paired with their facts.
pub open spec fn rows_with_facts(rows: Seq<Row>, facts: Seq<CarrierFacts>) -> Seq<(Row, CarrierFacts)> {
    Seq::new(rows.len(), |i: int| (rows[i], facts[i]))
}

/// The first row of a group that can carry a history entry.
pub open spec fn history_carrier_of(g: Group, facts: Seq<CarrierFacts>, host_local: bool) -> Option<int> {
    first_where(rows_with_facts(g.rows@, facts), |p: (Row, CarrierFacts)| carries_history(g, p.0, p.1, host_local))
}

impl Group {
    /// The first row that can carry a history entry (see
    /// `carries_history`); `facts` holds what the app knows of each row,
    /// and `host_local` whether the group's host is this computer.
    pub fn history_carrier(&self, facts: &[CarrierFacts], host_local: bool) -> (at: Option<usize>)
        requires
            facts.len() == self.rows.len(),
        ensures
            match at {
                Some(i) => i < self.rows.len() && history_carrier_of(*self, facts@, host_local) == Some(i as int),
                None => history_carrier_of(*self, facts@, host_local) is None,
            },
    {
        let ghost pairs = rows_with_facts(self.rows@, facts@);
        let ghost p = |q: (Row, CarrierFacts)| carries_history(*self, q.0, q.1, host_local);
        let mut i: usize = 0;
        while i < self.rows.len()
            invariant
                i <= self.rows.len(),
                facts.len() == self.rows.len(),
                pairs == rows_with_facts(self.rows@, facts@),
                p == (|q: (Row, CarrierFacts)| carries_history(*self, q.0, q.1, host_local)),
                forall|j: int| 0 <= j < i ==> !p(#[trigger] pairs[j]),
            decreases self.rows.len() - i,
        {
            let r = &self.rows[i];
            let f = facts[i];
            let ok = if r.open || r.preempted || f.preempted_now || f.has_window {
                false
            } else {
                match &r.adopt {
                    Some(remote) => self.target.is_some() && match r.remote_id {
                        Some(id) => id == remote.id,
                        None => false,
                    } && f.claimable,
                    None => match f.stored {
                        Some(st) => st.on_host && !st.open,
                        None => host_local && f.unclaimed_local,
                    },
                }
            };
            assert(pairs[i as int] == (self.rows@[i as int], facts@[i as int]));
            if ok {
                proof {
                    lemma_first_where_found(pairs, p, i as int);
                }
                return Some(i);
            }
            i = i + 1;
        }
        proof {
            lemma_first_where_absent(pairs, p);
        }
        None
    }
}

/// Where a history entry of a machine opens.
#[derive(Clone, Copy, Debug, PartialEq, Eq, Structural)]
pub enum HistoryWorkspace {
    /// This window's own workspace: it is on that machine and not preempted.
    Current,
    /// The switcher lists no such machine.
    NoMachine,
    /// Switch to this existing workspace.
    Existing(WorkspaceId),
    /// Claim this workspace of the machine for this client.
    ClaimRemote(WorkspaceId),
    /// Claim a new workspace on the remote machine.
    ClaimNewRemote,
    /// Make a new local workspace.
    ClaimNewLocal,
}

/// Where a history entry of a machine opens: this window's workspace when
/// it is on that machine and free; else, in the machine's group (when the
/// switcher lists it), its history carrier: the remote workspace it lists
/// to adopt, claimed, or the row's own workspace; with no carrier, a new
/// workspace claimed on the remote machine, or a new local one.
pub open spec fn history_workspace_of(here_and_free: bool, group: Option<Group>, facts: Seq<CarrierFacts>, host_local: bool) -> HistoryWorkspace {
    if here_and_free {
        HistoryWorkspace::Current
    } else {
        match group {
            None => HistoryWorkspace::NoMachine,
            Some(g) => match history_carrier_of(g, facts, host_local) {
                Some(i) => {
                    let r = g.rows@[i];
                    match (g.target, r.adopt) {
                        (Some(_), Some(remote)) => HistoryWorkspace::ClaimRemote(remote.id),
                        _ => HistoryWorkspace::Existing(r.id),
                    }
                },
                None => if g.target is Some {
                    HistoryWorkspace::ClaimNewRemote
                } else {
                    HistoryWorkspace::ClaimNewLocal
                },
            },
        }
    }
}

/// Where a history entry of a machine opens (see `history_workspace_of`);
/// `here_and_free` says whether this window's workspace is on the machine
/// and held by no other client, and `group` is the machine's group.
pub fn history_workspace(here_and_free: bool, group: Option<&Group>, facts: &[CarrierFacts], host_local: bool) -> (w: HistoryWorkspace)
    requires
        group matches Some(g) ==> facts.len() == g.rows.len(),
    ensures
        w == history_workspace_of(
            here_and_free,
            match group {
                Some(g) => Some(*g),
                None => None,
            },
            facts@,
            host_local,
        ),
{
    if here_and_free {
        return HistoryWorkspace::Current;
    }
    match group {
        None => HistoryWorkspace::NoMachine,
        Some(g) => match g.history_carrier(facts, host_local) {
            Some(i) => {
                let r = &g.rows[i];
                match (&g.target, &r.adopt) {
                    (Some(_), Some(remote)) => HistoryWorkspace::ClaimRemote(remote.id),
                    _ => HistoryWorkspace::Existing(r.id),
                }
            },
            None => if g.target.is_some() {
                HistoryWorkspace::ClaimNewRemote
            } else {
                HistoryWorkspace::ClaimNewLocal
            },
        },
    }
}

impl Group {
    /// Adds the workspaces a remote machine lists that the group has no row
    /// for yet, as rows to adopt; a local group takes none.
    pub fn merge(&mut self, remote: &[RemoteWorkspaceRow])
        ensures
            same_but_rows(*final(self), *old(self)),
            old(self).target is None ==> final(self).rows@ == old(self).rows@,
            old(self).target is Some ==> {
                let fresh = fresh_rows(remote@, known_remote_ids(old(self).rows@));
                &&& final(self).rows@.len() == old(self).rows@.len() + fresh.len()
                &&& forall|k: int| 0 <= k < old(self).rows@.len() ==> final(self).rows@[k] == old(self).rows@[k]
                &&& forall|k: int| 0 <= k < fresh.len() ==> adopted_from(
                    #[trigger] final(self).rows@[old(self).rows@.len() + k],
                    fresh[k],
                )
            },
    {
        if self.target.is_none() {
            return;
        }
        let ghost start = self.rows@;
        let ghost known = known_remote_ids(start);
        let mut ids: Vec<WorkspaceId> = Vec::new();
        let mut i: usize = 0;
        while i < self.rows.len()
            invariant
                self.rows@ == start,
                i <= start.len(),
                forall|id: WorkspaceId| ids@.contains(id) <==> exists|k: int| 0 <= k < i && #[trigger] start[k].remote_id == Some(id),
            decreases start.len() - i,
        {
            if let Some(id) = self.rows[i].remote_id {
                let ghost prev = ids@;
                ids.push(id);
                assert forall|x: WorkspaceId| ids@.contains(x) <==> (prev.contains(x) || x == id) by {
                    if ids@.contains(x) {
                        let j = choose|j: int| 0 <= j < ids@.len() && ids@[j] == x;
                        if j < prev.len() {
                            assert(prev[j] == x);
                        }
                    }
                    if prev.contains(x) {
                        let j = choose|j: int| 0 <= j < prev.len() && prev[j] == x;
                        assert(ids@[j] == x);
                    }
                    if x == id {
                        assert(ids@[prev.len() as int] == x);
                    }
                }
                assert forall|x: WorkspaceId| ids@.contains(x) <==> exists|k: int| 0 <= k < i + 1 && #[trigger] start[k].remote_id == Some(x) by {
                    if exists|k: int| 0 <= k < i + 1 && #[trigger] start[k].remote_id == Some(x) {
                        let k = choose|k: int| 0 <= k < i + 1 && #[trigger] start[k].remote_id == Some(x);
                        if k < i {
                            assert(exists|k2: int| 0 <= k2 < i && #[trigger] start[k2].remote_id == Some(x));
                        }
                    }
                    if prev.contains(x) {
                        let k = choose|k: int| 0 <= k < i && #[trigger] start[k].remote_id == Some(x);
                        assert(0 <= k < i + 1 && start[k].remote_id == Some(x));
                    }
                    if x == id {
                        assert(start[i as int].remote_id == Some(x));
                    }
                }
            } else {
                assert forall|x: WorkspaceId| ids@.contains(x) <==> exists|k: int| 0 <= k < i + 1 && #[trigger] start[k].remote_id == Some(x) by {
                    if start[i as int].remote_id == Some(x) {
                    }
                }
            }
            i = i + 1;
        }
        assert forall|id: WorkspaceId| ids@.contains(id) == known.contains(id) by {}
        let mut j: usize = 0;
        assert(remote@.take(0) =~= Seq::<RemoteWorkspaceRow>::empty());
        while j < remote.len()
            invariant
                j <= remote@.len(),
                known == known_remote_ids(start),
                forall|id: WorkspaceId| ids@.contains(id) == known.contains(id),
                same_but_rows(*self, *old(self)),
                self.target is Some,
                ({
                    let fresh = fresh_rows(remote@.take(j as int), known);
                    &&& self.rows@.len() == start.len() + fresh.len()
                    &&& forall|k: int| 0 <= k < start.len() ==> self.rows@[k] == start[k]
                    &&& forall|k: int| 0 <= k < fresh.len() ==> adopted_from(
                        #[trigger] self.rows@[start.len() + k],
                        fresh[k],
                    )
                }),
            decreases remote@.len() - j,
        {
            let r = &remote[j];
            assert(remote@.take(j + 1).drop_last() =~= remote@.take(j as int));
            assert(remote@.take(j + 1).last() == remote@[j as int]);
            if !contains_id(&ids, r.id) {
                let row = Row {
                    id: r.id,
                    name: r.name.clone(),
                    path: String::new(),
                    last_active: r.last_active,
                    live: Liveness::Stopped,
                    open: false,
                    current: false,
                    preempted: false,
                    adopt: Some(
                        RemoteWorkspaceRow { id: r.id, name: r.name.clone(), last_active: r.last_active },
                    ),
                    remote_id: Some(r.id),
                    tabs: Vec::new(),
                };
                self.rows.push(row);
            }
            j = j + 1;
        }
        assert(remote@.take(remote@.len() as int) =~= remote@);
    }
}

/// A group with its link state settled, from what is known of its machine.
/// For a local group only the link changes, to `Local`. For a machine: the
/// configured host, when there is one, names the group (and gives its
/// endpoint when that differs from the name); the link is as given; the
/// group is parked when its link is not up and its route no longer
/// resolves; the error is the one it had, else this window's failed
/// connect to the machine, else the window's remembered error for the
/// host, else what the supervisor last reported; the group and each of
/// its rows are preempted when another client holds their workspaces.
pub open spec fn settled(
    old: Group,
    new: Group,
    known: Option<&HostChoice>,
    link: Link,
    route_resolvable: bool,
    connect: Option<&ConnectFlow>,
    host_error: Option<Seq<char>>,
    supervised: Option<&MachineStatus>,
    taken: Seq<WorkspaceId>,
) -> bool {
    match old.target {
        None => same_but_rows(new, Group { link: Link::Local, ..old }) && new.rows == old.rows,
        Some(target) => {
            let label = match known {
                Some(h) => h.label@,
                None => old.label@,
            };
            let endpoint = match known {
                Some(h) => if h.detail@ != h.label@ {
                    h.detail@
                } else {
                    old.endpoint@
                },
                None => old.endpoint@,
            };
            let e1 = match connect {
                Some(ConnectFlow::Failed { choice, error }) if choice.target@ == target@ => Some(error@),
                _ => opt_view(old.error),
            };
            let e2 = if e1 is None {
                host_error
            } else {
                e1
            };
            let e3 = if e2 is None {
                match supervised {
                    Some(MachineStatus::Failed(e)) => Some(e@),
                    Some(MachineStatus::Reconnecting { last_error, .. }) => opt_view(*last_error),
                    _ => None,
                }
            } else {
                e2
            };
            &&& new.key@ == old.key@
            &&& new.label@ == label
            &&& new.endpoint@ == endpoint
            &&& new.target == old.target
            &&& new.link == link
            &&& new.parked == (link != Link::Connected && !route_resolvable)
            &&& opt_view(new.error) == e3
            &&& new.preempted == (taken.len() > 0)
            &&& new.rows@.len() == old.rows@.len()
            &&& forall|k: int|
                0 <= k < old.rows@.len() ==> #[trigger] new.rows@[k] == (Row {
                    preempted: taken.contains(old.rows@[k].id),
                    ..old.rows@[k]
                })
        },
    }
}

fn taken_contains(taken: &[WorkspaceId], id: WorkspaceId) -> (r: bool)
    ensures
        r == taken@.contains(id),
{
    let mut i: usize = 0;
    while i < taken.len()
        invariant
            i <= taken@.len(),
            forall|j: int| 0 <= j < i ==> taken@[j] != id,
        decreases taken@.len() - i,
    {
        if taken[i] == id {
            assert(taken@[i as int] == id);
            return true;
        }
        i = i + 1;
    }
    false
}

/// Settles a group's link state, its name and endpoint, its error and its
/// preemption from what is known of its machine.
pub fn settle_group(
    group: &mut Group,
    known: Option<&HostChoice>,
    link: Link,
    route_resolvable: bool,
    connect: Option<&ConnectFlow>,
    host_error: Option<&String>,
    supervised: Option<&MachineStatus>,
    taken: &[WorkspaceId],
)
    ensures
        settled(
            *old(group),
            *final(group),
            known,
            link,
            route_resolvable,
            connect,
            match host_error {
                Some(e) => Some(e@),
                None => None,
            },
            supervised,
            taken@,
        ),
{
    let target = match &group.target {
        None => {
            group.link = Link::Local;
            return;
        },
        Some(t) => t,
    };
    let mut failed_here: Option<String> = None;
    match connect {
        Some(ConnectFlow::Failed { choice, error }) => {
            if same_target(&choice.target, target) {
                failed_here = Some(error.clone());
            }
        },
        _ => {},
    }
    if let Some(h) = known {
        group.label = h.label.clone();
        if !str_eq(h.detail.as_str(), h.label.as_str()) {
            group.endpoint = h.detail.clone();
        }
    }
    group.link = link;
    group.parked = link != Link::Connected && !route_resolvable;
    if failed_here.is_some() {
        group.error = failed_here;
    }
    if group.error.is_none() {
        if let Some(e) = host_error {
            group.error = Some(e.clone());
        }
    }
    if group.error.is_none() {
        group.error = match supervised {
            Some(MachineStatus::Failed(e)) => Some(e.clone()),
            Some(MachineStatus::Reconnecting { last_error, .. }) => clone_opt(last_error),
            _ => None,
        };
    }
    group.preempted = taken.len() > 0;
    let ghost before = group.rows@;
    let ghost mid = *group;
    let mut i: usize = 0;
    while i < group.rows.len()
        invariant
            same_but_rows(*group, mid),
            i <= group.rows@.len(),
            group.rows@.len() == before.len(),
            forall|k: int| i <= k < before.len() ==> group.rows@[k] == before[k],
            forall|k: int| 0 <= k < i ==> #[trigger] group.rows@[k] == (Row {
                preempted: taken@.contains(before[k].id),
                ..before[k]
            }),
        decreases before.len() - i,
    {
        let held = taken_contains(taken, group.rows[i].id);
        group.rows[i].preempted = held;
        i = i + 1;
    }
}

/// Whether any group lists a row for the workspace.
pub fn lists_workspace(groups: &[Group], id: WorkspaceId) -> (listed: bool)
    ensures
        listed == exists|g: int, r: int| 0 <= g < groups@.len() && 0 <= r < groups@[g].rows@.len() && #[trigger] groups@[g].rows@[r].id == id,
{
    let mut g: usize = 0;
    while g < groups.len()
        invariant
            g <= groups@.len(),
            forall|a: int, b: int| 0 <= a < g && 0 <= b < groups@[a].rows@.len() ==> #[trigger] groups@[a].rows@[b].id != id,
        decreases groups@.len() - g,
    {
        let mut r: usize = 0;
        while r < groups[g].rows.len()
            invariant
                g < groups@.len(),
                r <= groups@[g as int].rows@.len(),
                forall|a: int, b: int| 0 <= a < g && 0 <= b < groups@[a].rows@.len() ==> #[trigger] groups@[a].rows@[b].id != id,
                forall|b: int| 0 <= b < r ==> #[trigger] groups@[g as int].rows@[b].id != id,
            decreases groups@[g as int].rows@.len() - r,
        {
            if groups[g].rows[r].id == id {
                assert(groups@[g as int].rows@[r as int].id == id);
                return true;
            }
            r = r + 1;
        }
        g = g + 1;
    }
    false
}

/// The position of the first group with the given key.
pub fn slot_for_key(groups: &[Group], key: &str) -> (slot: Option<usize>)
    ensures
        match slot {
            Some(i) => i < groups@.len() && groups@[i as int].key@ == key@ && forall|j: int|
                0 <= j < i ==> #[trigger] groups@[j].key@ != key@,
            None => forall|j: int| 0 <= j < groups@.len() ==> #[trigger] groups@[j].key@ != key@,
        },
{
    let mut i: usize = 0;
    while i < groups.len()
        invariant
            i <= groups@.len(),
            forall|j: int| 0 <= j < i ==> #[trigger] groups@[j].key@ != key@,
        decreases groups@.len() - i,
    {
        if str_eq(groups[i].key.as_str(), key) {
            return Some(i);
        }
        i = i + 1;
    }
    None
}

// --------------------------------------------------------- group assembly

/// A workspace the store lists, with the machine group it belongs to: the
/// group's key, name, endpoint and target, and the workspace's row.
pub struct StoreEntry {
    pub key: String,
    pub label: String,
    pub endpoint: String,
    pub target: Option<RemoteTarget>,
    pub row: Row,
}

/// The rows of the entries with the given key, in listing order.
pub open spec fn rows_with_key(entries: Seq<StoreEntry>, key: Seq<char>) -> Seq<Row>
    decreases entries.len(),
{
    if entries.len() == 0 {
        Seq::empty()
    } else {
        let before = rows_with_key(entries.drop_last(), key);
        if entries.last().key@ == key {
            before.push(entries.last().row)
        } else {
            before
        }
    }
}

/// The position of the first entry with the given key.
pub open spec fn first_with_key(entries: Seq<StoreEntry>, key: Seq<char>) -> Option<int>
    decreases entries.len(),
{
    if entries.len() == 0 {
        None
    } else {
        match first_with_key(entries.drop_last(), key) {
            Some(i) => Some(i),
            None => if entries.last().key@ == key {
                Some(entries.len() - 1)
            } else {
                None
            },
        }
    }
}

/// No two groups share a key.
pub open spec fn keys_distinct(groups: Seq<Group>) -> bool {
    forall|i: int, j: int| 0 <= i < j < groups.len() ==> #[trigger] groups[i].key@ != #[trigger] groups[j].key@
}

/// The groups are the store's entries grouped by key: one group per key,
/// in the order the keys first appear, named, placed and targeted as the
/// first entry of its key says, holding the rows of its key in listing
/// order, offline and with nothing else known yet.
#[verifier::opaque]
pub open spec fn grouped_by_key(groups: Seq<Group>, entries: Seq<StoreEntry>) -> bool {
    &&& keys_distinct(groups)
    &&& forall|key: Seq<char>| #[trigger] first_with_key(entries, key) is Some ==> exists|g: int|
        0 <= g < groups.len() && groups[g].key@ == key
    &&& forall|g: int|
        0 <= g < groups.len() ==> {
            let grp = #[trigger] groups[g];
            &&& first_with_key(entries, grp.key@) matches Some(f) && grp.label@ == entries[f].label@
                && grp.endpoint@ == entries[f].endpoint@ && grp.target == entries[f].target
            &&& grp.rows@ == rows_with_key(entries, grp.key@)
            &&& grp.link == Link::Offline && grp.error is None && !grp.preempted && !grp.parked
        }
    &&& forall|a: int, b: int|
        0 <= a < b < groups.len() ==> first_with_key(entries, #[trigger] groups[a].key@).unwrap()
            < first_with_key(entries, #[trigger] groups[b].key@).unwrap()
}

proof fn lemma_first_with_key_bound(entries: Seq<StoreEntry>, key: Seq<char>)
    ensures
        first_with_key(entries, key) matches Some(f) ==> 0 <= f < entries.len() && entries[f].key@
            == key,
    decreases entries.len(),
{
    if entries.len() > 0 {
        lemma_first_with_key_bound(entries.drop_last(), key);
    }
}

proof fn lemma_group_into_existing(before: Seq<Group>, after: Seq<Group>, prefix: Seq<StoreEntry>, e: StoreEntry, i: int)
    requires
        grouped_by_key(before, prefix),
        0 <= i < before.len(),
        before[i].key@ == e.key@,
        after.len() == before.len(),
        forall|g: int| 0 <= g < before.len() && g != i ==> after[g] == before[g],
        same_but_rows(after[i], before[i]),
        after[i].rows@ == before[i].rows@.push(e.row),
    ensures
        grouped_by_key(after, prefix.push(e)),
{
    reveal(grouped_by_key);
    let next = prefix.push(e);
    assert(next.drop_last() =~= prefix);
    assert forall|key: Seq<char>| true implies #[trigger] first_with_key(prefix, key) matches Some(f) ==> 0 <= f
        < prefix.len() && prefix[f].key@ == key by {
        lemma_first_with_key_bound(prefix, key);
    }
    assert forall|g: int| 0 <= g < after.len() implies {
        let grp = #[trigger] after[g];
        &&& first_with_key(next, grp.key@) matches Some(f) && grp.label@ == next[f].label@
            && grp.endpoint@ == next[f].endpoint@ && grp.target == next[f].target
        &&& grp.rows@ == rows_with_key(next, grp.key@)
        &&& grp.link == Link::Offline && grp.error is None && !grp.preempted && !grp.parked
    } by {
        let old_g = before[g];
        assert(first_with_key(prefix, old_g.key@) is Some);
        let f = first_with_key(prefix, old_g.key@).unwrap();
        assert(next[f] == prefix[f]);
    }
    assert forall|key: Seq<char>| #[trigger] first_with_key(next, key) is Some implies exists|g: int|
        0 <= g < after.len() && after[g].key@ == key by {
        if first_with_key(prefix, key) is None {
            assert(after[i].key@ == key);
        } else {
            let g = choose|g: int| 0 <= g < before.len() && before[g].key@ == key;
            assert(after[g].key@ == key);
        }
    }
    assert forall|a: int, b: int| 0 <= a < b < after.len() implies first_with_key(next, #[trigger] after[a].key@).unwrap()
        < first_with_key(next, #[trigger] after[b].key@).unwrap() by {
        assert(after[a].key@ == before[a].key@);
        assert(after[b].key@ == before[b].key@);
        assert(first_with_key(prefix, before[a].key@) is Some);
        assert(first_with_key(prefix, before[b].key@) is Some);
    }
    assert forall|a: int, b: int| 0 <= a < b < after.len() implies #[trigger] after[a].key@ != #[trigger] after[b].key@ by {
        assert(after[a].key@ == before[a].key@);
        assert(after[b].key@ == before[b].key@);
    }
}

proof fn lemma_group_into_new(before: Seq<Group>, after: Seq<Group>, prefix: Seq<StoreEntry>, e: StoreEntry)
    requires
        grouped_by_key(before, prefix),
        forall|g: int| 0 <= g < before.len() ==> #[trigger] before[g].key@ != e.key@,
        after.len() == before.len() + 1,
        forall|g: int| 0 <= g < before.len() ==> after[g] == before[g],
        ({
            let n = after[before.len() as int];
            &&& n.key@ == e.key@
            &&& n.label@ == e.label@
            &&& n.endpoint@ == e.endpoint@
            &&& n.target == e.target
            &&& n.link == Link::Offline && n.error is None && !n.preempted && !n.parked
            &&& n.rows@ == seq![e.row]
        }),
    ensures
        grouped_by_key(after, prefix.push(e)),
{
    reveal(grouped_by_key);
    let next = prefix.push(e);
    let n = before.len() as int;
    let ek = e.key@;
    assert(next.drop_last() =~= prefix);
    assert forall|key: Seq<char>| true implies #[trigger] first_with_key(prefix, key) matches Some(f) ==> 0 <= f
        < prefix.len() && prefix[f].key@ == key by {
        lemma_first_with_key_bound(prefix, key);
    }
    if first_with_key(prefix, ek) is Some {
        let g = choose|g: int| 0 <= g < before.len() && before[g].key@ == ek;
        assert(before[g].key@ != ek);
    }
    lemma_rows_with_key_empty(prefix, ek);
    assert(rows_with_key(prefix, ek) =~= Seq::<Row>::empty());
    assert(first_with_key(next, ek) == Some(prefix.len() as int));
    assert forall|g: int| 0 <= g < after.len() implies {
        let grp = #[trigger] after[g];
        &&& first_with_key(next, grp.key@) matches Some(f) && grp.label@ == next[f].label@
            && grp.endpoint@ == next[f].endpoint@ && grp.target == next[f].target
        &&& grp.rows@ == rows_with_key(next, grp.key@)
        &&& grp.link == Link::Offline && grp.error is None && !grp.preempted && !grp.parked
    } by {
        if g < n {
            let old_g = before[g];
            assert(first_with_key(prefix, old_g.key@) is Some);
            let f = first_with_key(prefix, old_g.key@).unwrap();
            assert(next[f] == prefix[f]);
        } else {
            assert(rows_with_key(next, ek) =~= seq![e.row]);
        }
    }
    assert forall|key: Seq<char>| #[trigger] first_with_key(next, key) is Some implies exists|g: int|
        0 <= g < after.len() && after[g].key@ == key by {
        if first_with_key(prefix, key) is None {
            assert(after[n].key@ == key);
        } else {
            let g = choose|g: int| 0 <= g < before.len() && before[g].key@ == key;
            assert(after[g].key@ == key);
        }
    }
    assert forall|a: int, b: int| 0 <= a < b < after.len() implies first_with_key(next, #[trigger] after[a].key@).unwrap()
        < first_with_key(next, #[trigger] after[b].key@).unwrap() by {
        assert(after[a] == before[a]);
        assert(first_with_key(prefix, before[a].key@) is Some);
        if b < n {
            assert(after[b] == before[b]);
            assert(first_with_key(prefix, before[b].key@) is Some);
        }
    }
    assert forall|a: int, b: int| 0 <= a < b < after.len() implies #[trigger] after[a].key@ != #[trigger] after[b].key@ by {
        assert(after[a] == before[a]);
        if b < n {
            assert(after[b] == before[b]);
        }
    }
}

/// Groups the store's entries by their key (see `grouped_by_key`).
pub fn group_store_rows(entries: Vec<StoreEntry>) -> (groups: Vec<Group>)
    ensures
        grouped_by_key(groups@, entries@),
{
    let ghost all = entries@;
    assert(all.len() == entries.len());
    let mut rest = entries;
    let mut groups: Vec<Group> = Vec::new();
    let mut k: usize = 0;
    assert(all.take(0) =~= Seq::<StoreEntry>::empty());
    assert(rest@ =~= all.skip(0));
    assert(grouped_by_key(groups@, all.take(0))) by {
        reveal(grouped_by_key);
    }
    while rest.len() > 0
        invariant
            k <= all.len(),
            all.len() <= usize::MAX,
            rest@ == all.skip(k as int),
            grouped_by_key(groups@, all.take(k as int)),
        decreases rest@.len(),
    {
        let e = rest.remove(0);
        let ghost prefix = all.take(k as int);
        assert(e == all[k as int]);
        assert(all.take(k + 1) =~= prefix.push(e));
        let ghost before = groups@;
        match slot_for_key(groups.as_slice(), e.key.as_str()) {
            Some(i) => {
                groups[i].rows.push(e.row);
                proof {
                    lemma_group_into_existing(before, groups@, prefix, e, i as int);
                }
            },
            None => {
                let mut rows: Vec<Row> = Vec::new();
                rows.push(e.row);
                let grp = Group {
                    key: e.key,
                    label: e.label,
                    endpoint: e.endpoint,
                    target: e.target,
                    link: Link::Offline,
                    error: None,
                    preempted: false,
                    parked: false,
                    rows,
                };
                groups.push(grp);
                proof {
                    assert(groups@[before.len() as int].rows@ =~= seq![e.row]);
                    lemma_group_into_new(before, groups@, prefix, e);
                }
            },
        }
        k = k + 1;
        assert(rest@ =~= all.skip(k as int));
    }
    assert(all.take(k as int) =~= all);
    groups
}

proof fn lemma_rows_with_key_empty(entries: Seq<StoreEntry>, key: Seq<char>)
    requires
        first_with_key(entries, key) is None,
    ensures
        rows_with_key(entries, key).len() == 0,
    decreases entries.len(),
{
    if entries.len() > 0 {
        lemma_rows_with_key_empty(entries.drop_last(), key);
    }
}

/// A machine the switcher lists though the store has no workspace on it:
/// a connect under way, a listing snapshot, or a pinned machine.
pub struct PendingMachine {
    pub key: String,
    pub label: String,
    pub target: RemoteTarget,
}

/// Whether a configured host is reached through a target.
pub open spec fn host_has_target(h: HostChoice, t: TargetView) -> bool {
    h.target@ == t
}

/// The label a pending machine's group starts with: the label of the
/// first configured host reached through its target; else, for a saved
/// profile no host is configured with any more, the gone-profile caption
/// (never the profile's raw id); else the target as the caller spells it.
pub open spec fn pending_label_of(
    target: TargetView,
    configured: Seq<HostChoice>,
    gone: Seq<char>,
    spelled: Seq<char>,
) -> Seq<char> {
    match first_where(configured, |h: HostChoice| host_has_target(h, target)) {
        Some(i) => configured[i].label@,
        None => match target {
            TargetView::Profile(_) => gone,
            _ => spelled,
        },
    }
}

/// A pending machine, keyed as the caller keys targets, with the label its
/// group starts with (see `pending_label_of`); `gone` is the gone-profile
/// caption and `spelled` the target's own spelling.
pub fn pending_machine(key: String, target: RemoteTarget, configured: &[HostChoice], gone: &str, spelled: &str) -> (p:
    PendingMachine)
    ensures
        p.key@ == key@,
        p.target == target,
        p.label@ == pending_label_of(target@, configured@, gone@, spelled@),
{
    let ghost pred = |h: HostChoice| host_has_target(h, target@);
    let mut i: usize = 0;
    while i < configured.len()
        invariant
            i <= configured@.len(),
            pred == (|h: HostChoice| host_has_target(h, target@)),
            forall|j: int| 0 <= j < i ==> !pred(#[trigger] configured@[j]),
        decreases configured@.len() - i,
    {
        if same_target(&configured[i].target, &target) {
            proof {
                lemma_first_where_found(configured@, pred, i as int);
            }
            let label = owned(configured[i].label.as_str());
            return PendingMachine { key, label, target };
        }
        i = i + 1;
    }
    proof {
        lemma_first_where_absent(configured@, pred);
    }
    let label = match &target {
        RemoteTarget::Profile { .. } => owned(gone),
        _ => owned(spelled),
    };
    PendingMachine { key, label, target }
}

/// The label of a workspace's machine from its saved route: the route's
/// snapshot label, or, for an entry saved before snapshots existed, the
/// gone-profile caption (never the profile's raw id).
pub fn route_label(snapshot: Option<&str>, gone: &str) -> (label: String)
    ensures
        label@ == match snapshot {
            Some(l) => l@,
            None => gone@,
        },
{
    match snapshot {
        Some(l) => owned(l),
        None => owned(gone),
    }
}

/// The keys of the groups.
pub open spec fn keys_of(groups: Seq<Group>) -> Set<Seq<char>> {
    Set::new(|k: Seq<char>| exists|g: int| 0 <= g < groups.len() && #[trigger] groups[g].key@ == k)
}

/// The pending machines that get a group, in order: each whose key no
/// group has yet, the first of each key.
pub open spec fn fresh_pending(keys: Set<Seq<char>>, pending: Seq<PendingMachine>) -> Seq<PendingMachine>
    decreases pending.len(),
{
    if pending.len() == 0 {
        Seq::empty()
    } else if keys.contains(pending[0].key@) {
        fresh_pending(keys, pending.drop_first())
    } else {
        seq![pending[0]] + fresh_pending(keys.insert(pending[0].key@), pending.drop_first())
    }
}

/// `g` is the empty, offline group of a pending machine.
pub open spec fn pending_group(g: Group, p: PendingMachine) -> bool {
    &&& g.key@ == p.key@
    &&& g.label@ == p.label@
    &&& g.endpoint@.len() == 0
    &&& g.target == Some(p.target)
    &&& g.link == Link::Offline && g.error is None && !g.preempted && !g.parked
    &&& g.rows@.len() == 0
}

/// Adds an empty, offline group for each pending machine whose key has no
/// group yet.
pub fn add_pending_groups(groups: &mut Vec<Group>, pending: Vec<PendingMachine>)
    ensures
        ({
            let fresh = fresh_pending(keys_of(old(groups)@), pending@);
            &&& final(groups)@.len() == old(groups)@.len() + fresh.len()
            &&& forall|k: int| 0 <= k < old(groups)@.len() ==> final(groups)@[k] == old(groups)@[k]
            &&& forall|k: int| 0 <= k < fresh.len() ==> pending_group(
                #[trigger] final(groups)@[old(groups)@.len() + k],
                fresh[k],
            )
        }),
{
    let ghost start = groups@;
    let ghost all = pending@;
    let ghost mut made: Seq<PendingMachine> = Seq::empty();
    let mut rest = pending;
    while rest.len() > 0
        invariant
            fresh_pending(keys_of(start), all) == made + fresh_pending(keys_of(groups@), rest@),
            groups@.len() == start.len() + made.len(),
            forall|k: int| 0 <= k < start.len() ==> groups@[k] == start[k],
            forall|k: int| 0 <= k < made.len() ==> pending_group(#[trigger] groups@[start.len() + k], made[k]),
        decreases rest@.len(),
    {
        let ghost before = groups@;
        let ghost r = rest@;
        let p = rest.remove(0);
        assert(rest@ =~= r.drop_first());
        assert(p == r[0]);
        match slot_for_key(groups.as_slice(), p.key.as_str()) {
            Some(i) => {
                assert(keys_of(before).contains(p.key@)) by {
                    assert(before[i as int].key@ == p.key@);
                }
            },
            None => {
                assert(!keys_of(before).contains(p.key@));
                let ghost pk = p.key@;
                let g = Group {
                    key: p.key,
                    label: p.label,
                    endpoint: String::new(),
                    target: Some(p.target),
                    link: Link::Offline,
                    error: None,
                    preempted: false,
                    parked: false,
                    rows: Vec::new(),
                };
                groups.push(g);
                proof {
                    assert(keys_of(groups@) =~= keys_of(before).insert(pk)) by {
                        assert forall|k: Seq<char>| keys_of(groups@).contains(k) == keys_of(before).insert(pk).contains(k) by {
                            if keys_of(groups@).contains(k) {
                                let g = choose|g: int| 0 <= g < groups@.len() && #[trigger] groups@[g].key@ == k;
                                if g < before.len() {
                                    assert(before[g].key@ == k);
                                }
                            }
                            if keys_of(before).contains(k) {
                                let g = choose|g: int| 0 <= g < before.len() && #[trigger] before[g].key@ == k;
                                assert(groups@[g].key@ == k);
                            }
                            if k == pk {
                                assert(groups@[before.len() as int].key@ == k);
                            }
                        }
                    }
                    let old_made = made;
                    made = made.push(r[0]);
                    assert(old_made + (seq![r[0]] + fresh_pending(keys_of(groups@), rest@)) =~= made
                        + fresh_pending(keys_of(groups@), rest@));
                    assert forall|k: int| 0 <= k < made.len() implies pending_group(
                        #[trigger] groups@[start.len() + k],
                        made[k],
                    ) by {
                        if k < old_made.len() {
                            assert(groups@[start.len() + k] == before[start.len() + k]);
                        }
                    }
                }
            },
        }
    }
    assert(made + fresh_pending(keys_of(groups@), rest@) =~= made);
}

/// The group of this computer, as the switcher lists it when the store
/// names none: keyed by the empty key, with no target.
pub open spec fn local_group(g: Group, label: Seq<char>) -> bool {
    &&& g.key@.len() == 0
    &&& g.label@ == label
    &&& g.endpoint@.len() == 0
    &&& g.target is None
    &&& g.link == Link::Offline && g.error is None && !g.preempted && !g.parked
    &&& g.rows@.len() == 0
}

/// Puts this computer's group first when no group has the empty key.
pub fn ensure_local_group(groups: &mut Vec<Group>, label: String)
    ensures
        keys_of(old(groups)@).contains(Seq::empty()) ==> final(groups)@ == old(groups)@,
        !keys_of(old(groups)@).contains(Seq::empty()) ==> {
            &&& final(groups)@.len() == old(groups)@.len() + 1
            &&& local_group(final(groups)@[0], label@)
            &&& forall|k: int| 0 <= k < old(groups)@.len() ==> final(groups)@[k + 1] == old(groups)@[k]
        },
{
    proof {
        reveal_strlit("");
        assert(""@ =~= Seq::<char>::empty());
    }
    match slot_for_key(groups.as_slice(), "") {
        Some(i) => {
            assert(groups@[i as int].key@ == Seq::<char>::empty());
            assert(keys_of(groups@).contains(Seq::empty()));
        },
        None => {
            assert(!keys_of(groups@).contains(Seq::empty()));
            let g = Group {
                key: String::new(),
                label,
                endpoint: String::new(),
                target: None,
                link: Link::Offline,
                error: None,
                preempted: false,
                parked: false,
                rows: Vec::new(),
            };
            groups.insert(0, g);
        },
    }
}

/// Whether a row of the groups is the workspace's.
pub open spec fn lists(groups: Seq<Group>, id: WorkspaceId) -> bool {
    exists|g: int, r: int| 0 <= g < groups.len() && 0 <= r < groups[g].rows@.len() && #[trigger] groups[g].rows@[r].id == id
}

/// Puts this window's own workspace first in this computer's group when no
/// group lists it yet (the store may not have caught up with it).
pub fn ensure_current_row(groups: &mut Vec<Group>, current: Row)
    ensures
        ({
            let old_g = old(groups)@;
            let local = slot_of_key(old_g, Seq::empty());
            if lists(old_g, current.id) || local is None {
                final(groups)@ == old_g
            } else {
                let s = local.unwrap();
                &&& final(groups)@.len() == old_g.len()
                &&& forall|g: int| 0 <= g < old_g.len() && g != s ==> final(groups)@[g] == old_g[g]
                &&& same_but_rows(final(groups)@[s], old_g[s])
                &&& final(groups)@[s].rows@ == seq![current] + old_g[s].rows@
            }
        }),
{
    proof {
        reveal_strlit("");
        assert(""@ =~= Seq::<char>::empty());
    }
    if lists_workspace(groups.as_slice(), current.id) {
        return;
    }
    match slot_for_key(groups.as_slice(), "") {
        Some(s) => {
            proof {
                lemma_slot_of_key(groups@, Seq::empty(), s as int);
            }
            let ghost before = groups@[s as int].rows@;
            groups[s].rows.insert(0, current);
            assert(groups@[s as int].rows@ =~= seq![current] + before);
        },
        None => {
            proof {
                lemma_slot_of_key_none(groups@, Seq::empty());
            }
        },
    }
}

/// The position of the first group with the key.
pub open spec fn slot_of_key(groups: Seq<Group>, key: Seq<char>) -> Option<int>
    decreases groups.len(),
{
    if groups.len() == 0 {
        None
    } else {
        match slot_of_key(groups.drop_last(), key) {
            Some(i) => Some(i),
            None => if groups.last().key@ == key {
                Some(groups.len() - 1)
            } else {
                None
            },
        }
    }
}

proof fn lemma_slot_of_key(groups: Seq<Group>, key: Seq<char>, s: int)
    requires
        0 <= s < groups.len(),
        groups[s].key@ == key,
        forall|j: int| 0 <= j < s ==> #[trigger] groups[j].key@ != key,
    ensures
        slot_of_key(groups, key) == Some(s),
    decreases groups.len(),
{
    if s < groups.len() - 1 {
        let t = groups.drop_last();
        assert forall|j: int| 0 <= j < s implies #[trigger] t[j].key@ != key by {
            assert(t[j] == groups[j]);
        }
        lemma_slot_of_key(t, key, s);
    } else {
        lemma_slot_of_key_none(groups.drop_last(), key);
    }
}

proof fn lemma_slot_of_key_none(groups: Seq<Group>, key: Seq<char>)
    requires
        forall|j: int| 0 <= j < groups.len() ==> #[trigger] groups[j].key@ != key,
    ensures
        slot_of_key(groups, key) is None,
    decreases groups.len(),
{
    if groups.len() > 0 {
        let t = groups.drop_last();
        assert forall|j: int| 0 <= j < t.len() implies #[trigger] t[j].key@ != key by {
            assert(t[j] == groups[j]);
        }
        lemma_slot_of_key_none(t, key);
    }
}

/// The rows whose workspace is not listed, in order.
pub open spec fn unlisted(rows: Seq<Row>, groups: Seq<Group>) -> Seq<Row>
    decreases rows.len(),
{
    if rows.len() == 0 {
        Seq::empty()
    } else {
        let before = unlisted(rows.drop_last(), groups);
        if lists(groups, rows.last().id) {
            before
        } else {
            before.push(rows.last())
        }
    }
}

/// Adds to this computer's group the workspaces this machine holds that no
/// group lists yet, measured against the rows listed before any is added.
pub fn add_unclaimed_rows(groups: &mut Vec<Group>, rows: Vec<Row>)
    ensures
        ({
            let old_g = old(groups)@;
            let local = slot_of_key(old_g, Seq::empty());
            if local is None {
                final(groups)@ == old_g
            } else {
                let s = local.unwrap();
                &&& final(groups)@.len() == old_g.len()
                &&& forall|g: int| 0 <= g < old_g.len() && g != s ==> final(groups)@[g] == old_g[g]
                &&& same_but_rows(final(groups)@[s], old_g[s])
                &&& final(groups)@[s].rows@ == old_g[s].rows@ + unlisted(rows@, old_g)
            }
        }),
{
    proof {
        reveal_strlit("");
        assert(""@ =~= Seq::<char>::empty());
    }
    let s = match slot_for_key(groups.as_slice(), "") {
        Some(s) => s,
        None => {
            proof {
                lemma_slot_of_key_none(groups@, Seq::empty());
            }
            return;
        },
    };
    proof {
        lemma_slot_of_key(groups@, Seq::empty(), s as int);
    }
    let ghost old_g = groups@;
    let mut keep: Vec<bool> = Vec::new();
    let mut i: usize = 0;
    while i < rows.len()
        invariant
            groups@ == old_g,
            i <= rows@.len(),
            keep@.len() == i,
            forall|k: int| 0 <= k < i ==> keep@[k] == !lists(old_g, #[trigger] rows@[k].id),
        decreases rows@.len() - i,
    {
        let listed = lists_workspace(groups.as_slice(), rows[i].id);
        keep.push(!listed);
        i = i + 1;
    }
    let ghost all = rows@;
    let mut rest = rows;
    let mut j: usize = 0;
    let ghost base = old_g[s as int].rows@;
    assert(all.take(0) =~= Seq::<Row>::empty());
    assert(rest@ =~= all.skip(0));
    while j < keep.len()
        invariant
            keep@.len() == all.len(),
            forall|k: int| 0 <= k < all.len() ==> keep@[k] == !lists(old_g, #[trigger] all[k].id),
            j <= all.len(),
            rest@ == all.skip(j as int),
            s < old_g.len(),
            groups@.len() == old_g.len(),
            forall|g: int| 0 <= g < old_g.len() && g != s ==> groups@[g] == old_g[g],
            same_but_rows(groups@[s as int], old_g[s as int]),
            groups@[s as int].rows@ == base + unlisted(all.take(j as int), old_g),
        decreases all.len() - j,
    {
        let r = rest.remove(0);
        assert(r == all[j as int]);
        assert(all.take(j + 1).drop_last() =~= all.take(j as int));
        assert(all.take(j + 1).last() == r);
        if keep[j] {
            let ghost before = groups@[s as int].rows@;
            groups[s].rows.push(r);
            assert(groups@[s as int].rows@ =~= base + unlisted(all.take(j + 1), old_g));
        }
        j = j + 1;
        assert(rest@ =~= all.skip(j as int));
    }
    assert(all.take(all.len() as int) =~= all);
}

/// `x` placed into `s` before the first entry of a strictly larger rank
/// (after every entry of its rank).
pub open spec fn insert_ranked(s: Seq<(u64, Group)>, x: (u64, Group)) -> Seq<(u64, Group)>
    decreases s.len(),
{
    if s.len() == 0 {
        seq![x]
    } else if x.0 < s[0].0 {
        seq![x] + s
    } else {
        seq![s[0]] + insert_ranked(s.drop_first(), x)
    }
}

/// The entries sorted by rank, entries of equal rank kept in their order.
pub open spec fn sort_ranked(s: Seq<(u64, Group)>) -> Seq<(u64, Group)>
    decreases s.len(),
{
    if s.len() == 0 {
        Seq::empty()
    } else {
        insert_ranked(sort_ranked(s.drop_last()), s.last())
    }
}

/// Each group with its rank.
pub open spec fn ranked(ranks: Seq<u64>, groups: Seq<Group>) -> Seq<(u64, Group)> {
    Seq::new(groups.len(), |i: int| (ranks[i], groups[i]))
}

proof fn lemma_insert_ranked_at(s: Seq<(u64, Group)>, x: (u64, Group), j: int)
    requires
        0 <= j <= s.len(),
        forall|k: int| 0 <= k < j ==> !(x.0 < #[trigger] s[k].0),
        j < s.len() ==> x.0 < s[j].0,
    ensures
        insert_ranked(s, x) == s.insert(j, x),
    decreases s.len(),
{
    if s.len() == 0 {
        assert(s.insert(0, x) =~= seq![x]);
    } else if j == 0 {
        assert(s.insert(0, x) =~= seq![x] + s);
    } else {
        let t = s.drop_first();
        assert forall|k: int| 0 <= k < j - 1 implies !(x.0 < #[trigger] t[k].0) by {
            assert(t[k] == s[k + 1]);
        }
        if j < s.len() {
            assert(t[j - 1] == s[j]);
        }
        assert(!(x.0 < s[0].0));
        lemma_insert_ranked_at(t, x, j - 1);
        assert(seq![s[0]] + t.insert(j - 1, x) =~= s.insert(j, x));
    }
}

/// The groups ordered by their rank (the machine rail's order of their
/// keys), groups of equal rank kept in their order.
pub fn sort_groups_by_rank(groups: Vec<Group>, ranks: &Vec<u64>) -> (sorted: Vec<Group>)
    requires
        ranks@.len() == groups@.len(),
    ensures
        sorted@ == sort_ranked(ranked(ranks@, groups@)).map_values(|p: (u64, Group)| p.1),
{
    let ghost all = ranked(ranks@, groups@);
    assert(groups@.len() == groups.len());
    let mut rest = groups;
    let mut out: Vec<(u64, Group)> = Vec::new();
    let mut i: usize = 0;
    assert(all.take(0) =~= Seq::<(u64, Group)>::empty());
    while rest.len() > 0
        invariant
            all.len() == ranks@.len(),
            all.len() <= usize::MAX,
            i <= all.len(),
            rest@.len() == all.len() - i,
            forall|k: int| 0 <= k < rest@.len() ==> (ranks@[i + k], #[trigger] rest@[k]) == all[i + k],
            out@ == sort_ranked(all.take(i as int)),
        decreases rest@.len(),
    {
        let ghost r = rest@;
        let g = rest.remove(0);
        let x = (ranks[i], g);
        assert(x == all[i as int]);
        assert forall|k: int| 0 <= k < rest@.len() implies (ranks@[i + 1 + k], #[trigger] rest@[k]) == all[i + 1 + k] by {
            assert(rest@[k] == r[k + 1]);
        }
        let mut j: usize = 0;
        while j < out.len() && !(x.0 < out[j].0)
            invariant
                j <= out@.len(),
                forall|k: int| 0 <= k < j ==> !(x.0 < #[trigger] out@[k].0),
            decreases out@.len() - j,
        {
            j = j + 1;
        }
        proof {
            lemma_insert_ranked_at(out@, x, j as int);
            assert(all.take(i + 1).drop_last() =~= all.take(i as int));
            assert(all.take(i + 1).last() == x);
        }
        out.insert(j, x);
        i = i + 1;
    }
    assert(all.take(i as int) =~= all);
    let ghost done = out@;
    assert(done.len() == out.len());
    let mut sorted: Vec<Group> = Vec::new();
    let mut k: usize = 0;
    while out.len() > 0
        invariant
            k <= done.len(),
            done.len() <= usize::MAX,
            out@ == done.skip(k as int),
            sorted@ == done.take(k as int).map_values(|p: (u64, Group)| p.1),
        decreases out@.len(),
    {
        let (_, g) = out.remove(0);
        assert(g == done[k as int].1);
        sorted.push(g);
        k = k + 1;
        assert(sorted@ =~= done.take(k as int).map_values(|p: (u64, Group)| p.1));
        assert(out@ =~= done.skip(k as int));
    }
    assert(done.take(k as int) =~= done);
    sorted
}

/// The ranks of the entries never decrease.
pub open spec fn ranks_ascending(s: Seq<(u64, Group)>) -> bool {
    forall|i: int, j: int| 0 <= i < j < s.len() ==> #[trigger] s[i].0 <= #[trigger] s[j].0
}

proof fn lemma_insert_ranked_ordered(s: Seq<(u64, Group)>, x: (u64, Group))
    requires
        ranks_ascending(s),
    ensures
        ranks_ascending(insert_ranked(s, x)),
        insert_ranked(s, x).to_multiset() == s.to_multiset().insert(x),
    decreases s.len(),
{
    broadcast use vstd::seq_lib::group_to_multiset_ensures;

    if s.len() == 0 {
        assert(seq![x] =~= s.insert(0, x));
    } else if x.0 < s[0].0 {
        let t = seq![x] + s;
        assert(t =~= s.insert(0, x));
        assert forall|i: int, j: int| 0 <= i < j < t.len() implies #[trigger] t[i].0 <= #[trigger] t[j].0 by {
            if i > 0 {
                assert(t[i] == s[i - 1] && t[j] == s[j - 1]);
            } else {
                assert(t[j] == s[j - 1]);
                if j - 1 > 0 {
                    assert(s[0].0 <= s[j - 1].0);
                }
            }
        }
    } else {
        let rest = s.drop_first();
        assert(ranks_ascending(rest)) by {
            assert forall|i: int, j: int| 0 <= i < j < rest.len() implies #[trigger] rest[i].0 <= #[trigger] rest[j].0 by {
                assert(rest[i] == s[i + 1] && rest[j] == s[j + 1]);
            }
        }
        lemma_insert_ranked_ordered(rest, x);
        let inner = insert_ranked(rest, x);
        let t = seq![s[0]] + inner;
        assert(t =~= inner.insert(0, s[0]));
        assert(s =~= rest.insert(0, s[0]));
        assert(t.to_multiset() =~= s.to_multiset().insert(x));
        assert forall|i: int, j: int| 0 <= i < j < t.len() implies #[trigger] t[i].0 <= #[trigger] t[j].0 by {
            if i == 0 {
                let y = inner[j - 1];
                assert(t[j] == y);
                assert(inner.to_multiset().contains(y));
                assert(rest.to_multiset().insert(x).contains(y));
                if y != x {
                    assert(rest.to_multiset().contains(y));
                    assert(rest.contains(y));
                    let k = choose|k: int| 0 <= k < rest.len() && rest[k] == y;
                    assert(rest[k] == s[k + 1]);
                }
            } else {
                assert(t[i] == inner[i - 1] && t[j] == inner[j - 1]);
            }
        }
    }
}

/// Sorting groups by rank orders them by rank and keeps every group: the
/// ranks never decrease, and the same ranked groups come out, as often as
/// they went in.
pub proof fn lemma_sort_ranked_ordered(s: Seq<(u64, Group)>)
    ensures
        ranks_ascending(sort_ranked(s)),
        sort_ranked(s).to_multiset() == s.to_multiset(),
    decreases s.len(),
{
    broadcast use vstd::seq_lib::group_to_multiset_ensures;

    if s.len() > 0 {
        lemma_sort_ranked_ordered(s.drop_last());
        lemma_insert_ranked_ordered(sort_ranked(s.drop_last()), s.last());
        assert(s =~= s.drop_last().push(s.last()));
    } else {
        assert(sort_ranked(s) =~= s);
    }
}

// --------------------------------------------------------------- gestures

/// The panel a Ctrl+Tab opens with `n_tabs` tabs in the window and these
/// modifiers held: with two tabs or more it opens on the tab column, in
/// most-recently-used order, on the next tab (or the last one going back),
/// holding the modifiers when any is down; with fewer it opens on the
/// workspace column and stays, with no hold.
pub fn tab_switch_opening(n_tabs: usize, forward: bool, held: Modifiers) -> (c: SwitcherCursor)
    ensures
        n_tabs >= 2 ==> c == (SwitcherCursor {
            column: Column::Right,
            left_sel: 0,
            right_sel: if forward { 1 } else { (n_tabs - 1) as usize },
            hover_card: false,
            hover_tabs: false,
            mru: true,
            hold: if modified(held) { Some(held) } else { None },
        }),
        n_tabs < 2 ==> c == (SwitcherCursor {
            column: Column::Left,
            left_sel: 0,
            right_sel: 0,
            hover_card: false,
            hover_tabs: false,
            mru: false,
            hold: None,
        }),
{
    let cycling = n_tabs >= 2;
    if !cycling {
        return SwitcherCursor {
            column: Column::Left,
            left_sel: 0,
            right_sel: 0,
            hover_card: false,
            hover_tabs: false,
            mru: false,
            hold: None,
        };
    }
    let any = held.control || held.alt || held.shift || held.platform || held.function;
    SwitcherCursor {
        column: Column::Right,
        left_sel: 0,
        right_sel: if forward { 1 } else { n_tabs - 1 },
        hover_card: false,
        hover_tabs: false,
        mru: true,
        hold: if any { Some(held) } else { None },
    }
}

/// The tab order most recently used first after tab `t` is used: `t` moved
/// to the front, everything else kept in order.
pub open spec fn mru_front(order: Seq<usize>, t: usize) -> Seq<usize> {
    match first_index(order, t) {
        Some(k) => seq![t] + order.remove(k),
        None => seq![t] + order,
    }
}

/// Marks tab `t` as the most recently used: it moves to the front of the
/// order, and every other tab keeps its place relative to the rest.
pub fn mru_activate(order: &mut Vec<usize>, t: usize)
    ensures
        final(order)@ == mru_front(old(order)@, t),
{
    let ghost start = order@;
    let mut i: usize = 0;
    while i < order.len()
        invariant
            i <= order@.len(),
            order@ == start,
            start == old(order)@,
            forall|j: int| 0 <= j < i ==> order@[j] != t,
        decreases order@.len() - i,
    {
        if order[i] == t {
            proof {
                lemma_first_index_found(start, t, i as int);
            }
            order.remove(i);
            order.insert(0, t);
            assert(order@ =~= seq![t] + start.remove(i as int));
            return;
        }
        i = i + 1;
    }
    proof {
        lemma_first_index_absent(start, t);
    }
    order.insert(0, t);
    assert(order@ =~= seq![t] + start);
}

/// Two complete Ctrl+Tab gestures come back to the tab they started on: the
/// tab column lists tabs most recently used first with the active tab in
/// front, a gesture opens on the previously used tab (the column's second
/// line) and commits it, which makes it the most recently used; so the
/// first gesture activates the previous tab, and the second the tab the
/// first one started on.
pub proof fn lemma_two_tab_switches_return(order: Seq<usize>)
    requires
        order.len() >= 2,
        order.no_duplicates(),
    ensures
        ({
            let after_one = mru_front(order, order[1]);
            let after_two = mru_front(after_one, after_one[1]);
            &&& after_one[0] == order[1]
            &&& after_one[1] == order[0]
            &&& after_two[0] == order[0]
        }),
{
    lemma_first_index_found(order, order[1], 1);
    let a = seq![order[1]] + order.remove(1);
    assert(a[1] == order[0]);
    assert(a[0] != a[1]);
    lemma_first_index_found(a, order[0], 1);
}

/// The plain panel (the switcher shortcut): the workspace column, no hold.
pub fn plain_opening() -> (c: SwitcherCursor)
    ensures
        c == (SwitcherCursor {
            column: Column::Left,
            left_sel: 0,
            right_sel: 0,
            hover_card: false,
            hover_tabs: false,
            mru: false,
            hold: None,
        }),
{
    SwitcherCursor {
        column: Column::Left,
        left_sel: 0,
        right_sel: 0,
        hover_card: false,
        hover_tabs: false,
        mru: false,
        hold: None,
    }
}

/// The line of the flat list that is this window's workspace, where the
/// panel parks its cursor on opening.
pub fn here_line(layout: &Layout, here: WorkspaceId) -> (at: Option<usize>)
    requires
        forall|k: int| 0 <= k < layout.nav@.len() ==> nav_valid(layout.groups@, #[trigger] layout.nav@[k]),
    ensures
        match at {
            Some(i) => i < layout.nav@.len() && nav_row(layout.groups@, layout.nav@[i as int]).id == here
                && forall|j: int| 0 <= j < i ==> nav_row(layout.groups@, #[trigger] layout.nav@[j]).id != here,
            None => forall|j: int| 0 <= j < layout.nav@.len() ==> nav_row(layout.groups@, #[trigger] layout.nav@[j]).id != here,
        },
{
    let mut i: usize = 0;
    while i < layout.nav.len()
        invariant
            i <= layout.nav@.len(),
            forall|k: int| 0 <= k < layout.nav@.len() ==> nav_valid(layout.groups@, #[trigger] layout.nav@[k]),
            forall|j: int| 0 <= j < i ==> nav_row(layout.groups@, #[trigger] layout.nav@[j]).id != here,
        decreases layout.nav@.len() - i,
    {
        let (g, r) = layout.nav[i];
        assert(nav_valid(layout.groups@, layout.nav@[i as int]));
        if layout.groups[g].rows[r].id == here {
            return Some(i);
        }
        i = i + 1;
    }
    None
}

/// What a change of the held modifiers does to a held panel.
#[derive(Clone, Copy, Debug, PartialEq, Eq, Structural)]
pub enum HoldStep {
    /// Nothing: no hold, or the hold is still down.
    Keep,
    /// Drop the hold and leave the panel up for the pointer.
    Release,
    /// Commit the highlighted line and close the panel.
    Commit,
}

/// What the modifiers now held do to a held panel: letting go of any part
/// of the combination that raised it commits, unless the pointer rests on
/// the card off the tab column, where it only drops the hold.
pub fn hold_step(cursor: SwitcherCursor, now: Modifiers) -> (step: HoldStep)
    ensures
        step == match cursor.hold {
            None => HoldStep::Keep,
            Some(hold) => if modified(now) && held_within(hold, now) {
                HoldStep::Keep
            } else if cursor.hover_card && !cursor.hover_tabs {
                HoldStep::Release
            } else {
                HoldStep::Commit
            },
        },
{
    let hold = match cursor.hold {
        None => {
            return HoldStep::Keep;
        },
        Some(h) => h,
    };
    let any = now.control || now.alt || now.shift || now.platform || now.function;
    let within = (!hold.control || now.control) && (!hold.alt || now.alt) && (!hold.shift
        || now.shift) && (!hold.platform || now.platform) && (!hold.function || now.function);
    if any && within {
        HoldStep::Keep
    } else if cursor.hover_keeps_open() {
        HoldStep::Release
    } else {
        HoldStep::Commit
    }
}

/// What the panel does with a keystroke.
#[derive(Clone, Copy, Debug, PartialEq, Eq, Structural)]
pub enum PanelAction {
    Close,
    Nothing,
    StepLeft(bool),
    StepRight(bool),
    Focus(Column),
    Confirm(bool),
}

/// What the panel does with a keystroke, given its cursor, whether the
/// search box is empty and whether the selected workspace has tabs: a step
/// moves in the cursor's column; Left and Right change column only while
/// the search box is empty (the caret owns them otherwise), and Right only
/// onto a workspace with tabs; Tab steps the tab column; Enter confirms.
pub open spec fn panel_action_of(key: Key, column: Column, query_empty: bool, subject_has_tabs: bool) -> PanelAction {
    match key {
        Key::Close => PanelAction::Close,
        Key::Pass => PanelAction::Nothing,
        Key::Step(f) => match column {
            Column::Left => PanelAction::StepLeft(f),
            Column::Right => PanelAction::StepRight(f),
        },
        Key::ToColumn(Column::Left) => if column == Column::Right && query_empty {
            PanelAction::Focus(Column::Left)
        } else {
            PanelAction::Nothing
        },
        Key::ToColumn(Column::Right) => if column == Column::Left && query_empty && subject_has_tabs {
            PanelAction::Focus(Column::Right)
        } else {
            PanelAction::Nothing
        },
        Key::Tab(f) => PanelAction::StepRight(f),
        Key::Confirm(n) => PanelAction::Confirm(n),
    }
}

/// What the panel does with a keystroke (see `panel_action_of`).
pub fn panel_action(key: &str, mods: Modifiers, column: Column, query_empty: bool, subject_has_tabs: bool) -> (a: PanelAction)
    ensures
        a == panel_action_of(key_intent_of(key@, mods), column, query_empty, subject_has_tabs),
{
    match key_intent(key, mods) {
        Key::Close => PanelAction::Close,
        Key::Pass => PanelAction::Nothing,
        Key::Step(f) => match column {
            Column::Left => PanelAction::StepLeft(f),
            Column::Right => PanelAction::StepRight(f),
        },
        Key::ToColumn(Column::Left) => if column == Column::Right && query_empty {
            PanelAction::Focus(Column::Left)
        } else {
            PanelAction::Nothing
        },
        Key::ToColumn(Column::Right) => if column == Column::Left && query_empty && subject_has_tabs {
            PanelAction::Focus(Column::Right)
        } else {
            PanelAction::Nothing
        },
        Key::Tab(f) => PanelAction::StepRight(f),
        Key::Confirm(n) => PanelAction::Confirm(n),
    }
}

impl SwitcherCursor {
    /// A click on workspace line `at`: the cursor goes there, in the
    /// workspace column, and the tab column starts over.
    pub fn point_at(&mut self, at: usize)
        ensures
            *final(self) == (SwitcherCursor { column: Column::Left, left_sel: at, right_sel: if old(self).left_sel == at && old(self).column == Column::Left { old(self).right_sel } else { 0 }, ..*old(self) }),
    {
        if self.left_sel == at && self.column == Column::Left {
            return;
        }
        self.left_sel = at;
        self.right_sel = 0;
        self.column = Column::Left;
    }

    /// Aims the tab cursor at tab line `nth`.
    pub fn point_tab(&mut self, nth: usize)
        ensures
            *final(self) == (SwitcherCursor { column: Column::Right, right_sel: nth, ..*old(self) }),
    {
        self.column = Column::Right;
        self.right_sel = nth;
    }

    /// Moves the cursor to a column.
    pub fn focus(&mut self, column: Column)
        ensures
            *final(self) == (SwitcherCursor { column, ..*old(self) }),
    {
        self.column = column;
    }

    /// Drops the hold without acting on it; says whether there was one.
    pub fn release_hold(&mut self) -> (had: bool)
        ensures
            had == old(self).hold is Some,
            *final(self) == (SwitcherCursor { hold: None, ..*old(self) }),
    {
        let had = self.hold.is_some();
        self.hold = None;
        had
    }

    /// A change of the search text lands the cursor on the first line of
    /// both columns.
    pub fn query_changed(&mut self)
        ensures
            *final(self) == (SwitcherCursor { left_sel: 0, right_sel: 0, ..*old(self) }),
    {
        self.left_sel = 0;
        self.right_sel = 0;
    }
}

} // verus!
