//! Recovery of stopped agent sessions: the pane tree a tab is laid out in,
//! the machine facts a resume is checked against, which original slot a
//! resume or a sleep targets, and which daemon replies are accepted.
use vstd::prelude::*;

use std::collections::HashSet;

use crate::ids::{HostId, TabId, WorkspaceId};
use crate::rows::{clone_opt, opt_view};
use crate::text::str_eq;
use crate::tray::CliAgent;

verus! {

// ------------------------------------------------------------- pane trees

/// The direction a split divides its space in.
#[derive(Clone, Copy, Debug, PartialEq, Eq, Structural)]
pub enum Axis {
    Horizontal,
    Vertical,
}

/// A tab's layout: a pane, or a split of two subtrees. `ratio` is the
/// share of the first subtree as the bits of an `f32`; it is geometry, not
/// identity.
#[derive(Debug, PartialEq, Eq)]
pub enum PaneNode {
    Leaf { pane: u64 },
    Split { axis: Axis, ratio: u32, a: Box<PaneNode>, b: Box<PaneNode> },
}

impl Clone for PaneNode {
    fn clone(&self) -> (copy: Self)
        ensures
            copy == *self,
        decreases self,
    {
        match self {
            PaneNode::Leaf { pane } => PaneNode::Leaf { pane: *pane },
            PaneNode::Split { axis, ratio, a, b } => {
                let a2 = (**a).clone();
                let b2 = (**b).clone();
                PaneNode::Split { axis: *axis, ratio: *ratio, a: Box::new(a2), b: Box::new(b2) }
            },
        }
    }
}

/// The panes of a tree, left to right.
pub open spec fn leaves(n: PaneNode) -> Seq<u64>
    decreases n,
{
    match n {
        PaneNode::Leaf { pane } => seq![pane],
        PaneNode::Split { a, b, .. } => leaves(*a) + leaves(*b),
    }
}

/// Two trees hold the same panes in the same split positions, whatever
/// space each split gives its halves.
pub open spec fn slots_match(x: PaneNode, y: PaneNode) -> bool
    decreases x,
{
    match (x, y) {
        (PaneNode::Leaf { pane: p }, PaneNode::Leaf { pane: q }) => p == q,
        (
            PaneNode::Split { axis: ax, a: a1, b: b1, .. },
            PaneNode::Split { axis: bx, a: a2, b: b2, .. },
        ) => ax == bx && slots_match(*a1, *a2) && slots_match(*b1, *b2),
        _ => false,
    }
}

/// The tree with every leaf of pane `from` made a leaf of pane `to`.
pub open spec fn replaced(n: PaneNode, from: u64, to: u64) -> PaneNode
    decreases n,
{
    match n {
        PaneNode::Leaf { pane } => PaneNode::Leaf { pane: if pane == from { to } else { pane } },
        PaneNode::Split { axis, ratio, a, b } => PaneNode::Split {
            axis,
            ratio,
            a: Box::new(replaced(*a, from, to)),
            b: Box::new(replaced(*b, from, to)),
        },
    }
}

impl PaneNode {
    /// The panes of the tree, left to right.
    pub fn pane_ids(&self) -> (ids: Vec<u64>)
        ensures
            ids@ == leaves(*self),
        decreases self,
    {
        match self {
            PaneNode::Leaf { pane } => {
                let mut v: Vec<u64> = Vec::new();
                v.push(*pane);
                assert(v@ =~= seq![*pane]);
                v
            },
            PaneNode::Split { a, b, .. } => {
                let mut left = (**a).pane_ids();
                let mut right = (**b).pane_ids();
                left.append(&mut right);
                left
            },
        }
    }

    /// Makes every leaf of pane `from` a leaf of pane `to`.
    pub fn replace_leaf(&mut self, from: u64, to: u64)
        ensures
            *final(self) == replaced(*old(self), from, to),
        decreases *old(self),
    {
        let replacement = replaced_node(self, from, to);
        *self = replacement;
    }
}

fn replaced_node(n: &PaneNode, from: u64, to: u64) -> (out: PaneNode)
    ensures
        out == replaced(*n, from, to),
    decreases n,
{
    match n {
        PaneNode::Leaf { pane } => PaneNode::Leaf { pane: if *pane == from { to } else { *pane } },
        PaneNode::Split { axis, ratio, a, b } => PaneNode::Split {
            axis: *axis,
            ratio: *ratio,
            a: Box::new(replaced_node(a, from, to)),
            b: Box::new(replaced_node(b, from, to)),
        },
    }
}

/// Whether two trees hold the same panes in the same split positions. A
/// pane's identity includes where it sits and who its neighbours are, not
/// the space it is given.
pub fn same_slots(x: &PaneNode, y: &PaneNode) -> (same: bool)
    ensures
        same == slots_match(*x, *y),
    decreases x,
{
    match (x, y) {
        (PaneNode::Leaf { pane: p }, PaneNode::Leaf { pane: q }) => *p == *q,
        (
            PaneNode::Split { axis: ax, a: a1, b: b1, .. },
            PaneNode::Split { axis: bx, a: a2, b: b2, .. },
        ) => *ax == *bx && same_slots(a1, a2) && same_slots(b1, b2),
        _ => false,
    }
}

/// Matching slots is an equivalence: every tree matches itself, and the
/// relation is symmetric and transitive.
pub proof fn lemma_slots_match_equivalence(x: PaneNode, y: PaneNode, z: PaneNode)
    ensures
        slots_match(x, x),
        slots_match(x, y) ==> slots_match(y, x),
        slots_match(x, y) && slots_match(y, z) ==> slots_match(x, z),
    decreases x,
{
    match (x, y, z) {
        (
            PaneNode::Split { a: a1, b: b1, .. },
            PaneNode::Split { a: a2, b: b2, .. },
            PaneNode::Split { a: a3, b: b3, .. },
        ) => {
            lemma_slots_match_equivalence(*a1, *a2, *a3);
            lemma_slots_match_equivalence(*b1, *b2, *b3);
        },
        (PaneNode::Split { a: a1, b: b1, .. }, PaneNode::Split { a: a2, b: b2, .. }, _) => {
            lemma_slots_match_equivalence(*a1, *a2, *a1);
            lemma_slots_match_equivalence(*b1, *b2, *b1);
        },
        (PaneNode::Split { a: a1, b: b1, .. }, _, _) => {
            lemma_slots_match_equivalence(*a1, *a1, *a1);
            lemma_slots_match_equivalence(*b1, *b1, *b1);
        },
        _ => {},
    }
}

/// Slots ignore geometry but keep the panes: trees whose slots match hold
/// the same panes in the same order.
pub proof fn lemma_slots_match_same_leaves(x: PaneNode, y: PaneNode)
    requires
        slots_match(x, y),
    ensures
        leaves(x) == leaves(y),
    decreases x,
{
    match (x, y) {
        (PaneNode::Split { a: a1, b: b1, .. }, PaneNode::Split { a: a2, b: b2, .. }) => {
            lemma_slots_match_same_leaves(*a1, *a2);
            lemma_slots_match_same_leaves(*b1, *b2);
        },
        _ => {},
    }
}

// ---------------------------------------------------------------- machine

/// One tab of a machine's tree.
#[derive(Debug, PartialEq, Eq)]
pub struct Tab {
    pub id: TabId,
    pub name: Option<String>,
    pub root: PaneNode,
}

impl Clone for Tab {
    fn clone(&self) -> (copy: Self)
        ensures
            copy == *self,
    {
        Tab { id: self.id, name: clone_opt(&self.name), root: self.root.clone() }
    }
}

/// One workspace of a machine's tree.
pub struct Workspace {
    pub id: WorkspaceId,
    pub tabs: Vec<Tab>,
}

/// How a pane's process ended.
#[derive(Clone, Copy, Debug, PartialEq, Eq, Structural)]
pub struct PaneExit {
    pub code: Option<i32>,
}

/// The agent a pane is seen running, and its session when known.
#[derive(Debug, PartialEq, Eq)]
pub struct AgentFacts {
    pub agent: CliAgent,
    pub session_id: Option<String>,
}

/// The agent session a pane was bound to, to resume it by.
#[derive(Debug, PartialEq, Eq)]
pub struct RecoveryBinding {
    pub agent: CliAgent,
    pub session_id: String,
    pub cwd: String,
}

/// What the machine knows of one pane.
#[derive(Debug, PartialEq, Eq)]
pub struct PaneRecord {
    pub id: u64,
    pub title: String,
    pub live: bool,
    pub exit: Option<PaneExit>,
    /// The ssh command the pane runs, for a pane that is an ssh session.
    pub ssh_spec: Option<String>,
    pub agent: Option<AgentFacts>,
    pub recovery_binding: Option<RecoveryBinding>,
    pub resume_pending: bool,
}

impl Clone for PaneRecord {
    fn clone(&self) -> (copy: Self)
        ensures
            copy == *self,
    {
        PaneRecord {
            id: self.id,
            title: self.title.clone(),
            live: self.live,
            exit: self.exit,
            ssh_spec: clone_opt(&self.ssh_spec),
            agent: match &self.agent {
                Some(a) => Some(AgentFacts { agent: a.agent, session_id: clone_opt(&a.session_id) }),
                None => None,
            },
            recovery_binding: match &self.recovery_binding {
                Some(b) => Some(
                    RecoveryBinding {
                        agent: b.agent,
                        session_id: b.session_id.clone(),
                        cwd: b.cwd.clone(),
                    },
                ),
                None => None,
            },
            resume_pending: self.resume_pending,
        }
    }
}

/// A machine's tree: its workspaces and what it knows of its panes.
pub struct Machine {
    pub workspaces: Vec<Workspace>,
    pub panes: Vec<PaneRecord>,
}

/// The provider whose session an agent pane runs.
#[derive(Clone, Copy, Debug, PartialEq, Eq, Structural)]
pub enum Provider {
    Codex,
    Claude,
}

/// An agent session: its provider, its id and the directory it runs in.
#[derive(Debug, PartialEq, Eq)]
pub struct ResumeIdentity {
    pub provider: Provider,
    pub id: String,
    pub cwd: String,
}

/// An identity as plain values.
pub struct IdentityKey {
    pub provider: Provider,
    pub id: Seq<char>,
    pub cwd: Seq<char>,
}

impl View for ResumeIdentity {
    type V = IdentityKey;

    open spec fn view(&self) -> IdentityKey {
        IdentityKey { provider: self.provider, id: self.id@, cwd: self.cwd@ }
    }
}

/// The provider an agent's sessions belong to.
pub open spec fn provider_of(agent: CliAgent) -> Provider {
    match agent {
        CliAgent::Codex => Provider::Codex,
        CliAgent::Claude => Provider::Claude,
    }
}

/// The session a pane is bound to, if any.
pub open spec fn identity_of(p: PaneRecord) -> Option<IdentityKey> {
    match p.recovery_binding {
        Some(b) => Some(
            IdentityKey { provider: provider_of(b.agent), id: b.session_id@, cwd: b.cwd@ },
        ),
        None => None,
    }
}

/// The session a pane is bound to, if any.
pub fn identity(pane: &PaneRecord) -> (id: Option<ResumeIdentity>)
    ensures
        match id {
            Some(i) => identity_of(*pane) == Some(i@),
            None => identity_of(*pane) is None,
        },
{
    match &pane.recovery_binding {
        Some(b) => Some(
            ResumeIdentity {
                provider: match b.agent {
                    CliAgent::Codex => Provider::Codex,
                    CliAgent::Claude => Provider::Claude,
                },
                id: b.session_id.clone(),
                cwd: b.cwd.clone(),
            },
        ),
        None => None,
    }
}

/// One entry per leaf of `pane` among the leaves `ls` of tab `t` of
/// workspace `w`.
pub open spec fn leaf_hits(w: usize, t: usize, ls: Seq<u64>, pane: u64) -> Seq<(usize, usize)>
    decreases ls.len(),
{
    if ls.len() == 0 {
        Seq::empty()
    } else {
        leaf_hits(w, t, ls.drop_last(), pane) + if ls.last() == pane {
            seq![(w, t)]
        } else {
            Seq::empty()
        }
    }
}

/// One entry per leaf of `pane` in the first `n` tabs of workspace `w`.
pub open spec fn tab_hits(w: usize, tabs: Seq<Tab>, pane: u64, n: nat) -> Seq<(usize, usize)>
    decreases n,
{
    if n == 0 {
        Seq::empty()
    } else {
        tab_hits(w, tabs, pane, (n - 1) as nat) + leaf_hits(
            w,
            (n - 1) as usize,
            leaves(tabs[n - 1].root),
            pane,
        )
    }
}

/// One entry per leaf of `pane` in the first `n` workspaces, as
/// (workspace, tab) positions.
pub open spec fn owner_hits(wss: Seq<Workspace>, pane: u64, n: nat) -> Seq<(usize, usize)>
    decreases n,
{
    if n == 0 {
        Seq::empty()
    } else {
        owner_hits(wss, pane, (n - 1) as nat) + tab_hits(
            (n - 1) as usize,
            wss[n - 1].tabs@,
            pane,
            wss[n - 1].tabs@.len(),
        )
    }
}

/// The tab holding `pane`, when exactly one leaf of the whole machine is
/// that pane and its tab is in `workspace`.
pub open spec fn unique_tab_of(m: Machine, workspace: WorkspaceId, pane: u64) -> Option<(usize, usize)> {
    let o = owner_hits(m.workspaces@, pane, m.workspaces@.len());
    if o.len() == 1 && m.workspaces@[o[0].0 as int].id == workspace {
        Some(o[0])
    } else {
        None
    }
}

proof fn lemma_hits_in_range(wss: Seq<Workspace>, pane: u64, n: nat)
    requires
        n <= wss.len(),
        wss.len() <= usize::MAX,
        forall|w: int| 0 <= w < wss.len() ==> #[trigger] wss[w].tabs@.len() <= usize::MAX,
    ensures
        forall|k: int| 0 <= k < owner_hits(wss, pane, n).len() ==> {
            let h = #[trigger] owner_hits(wss, pane, n)[k];
            h.0 < n && h.1 < wss[h.0 as int].tabs@.len()
        },
    decreases n,
{
    if n > 0 {
        lemma_hits_in_range(wss, pane, (n - 1) as nat);
        let w = (n - 1) as usize;
        let tabs = wss[w as int].tabs@;
        lemma_tab_hits_in_range(w, tabs, pane, tabs.len());
        let a = owner_hits(wss, pane, (n - 1) as nat);
        let b = tab_hits(w, tabs, pane, tabs.len());
        assert forall|k: int| 0 <= k < (a + b).len() implies {
            let h = #[trigger] (a + b)[k];
            h.0 < n && h.1 < wss[h.0 as int].tabs@.len()
        } by {
            if k >= a.len() {
                assert((a + b)[k] == b[k - a.len()]);
            }
        }
    }
}

proof fn lemma_tab_hits_in_range(w: usize, tabs: Seq<Tab>, pane: u64, n: nat)
    requires
        n <= tabs.len(),
        tabs.len() <= usize::MAX,
    ensures
        forall|k: int| 0 <= k < tab_hits(w, tabs, pane, n).len() ==> {
            let h = #[trigger] tab_hits(w, tabs, pane, n)[k];
            h.0 == w && h.1 < n
        },
    decreases n,
{
    if n > 0 {
        lemma_tab_hits_in_range(w, tabs, pane, (n - 1) as nat);
        let t = (n - 1) as usize;
        lemma_leaf_hits_are(w, t, leaves(tabs[t as int].root), pane);
        let a = tab_hits(w, tabs, pane, (n - 1) as nat);
        let b = leaf_hits(w, t, leaves(tabs[t as int].root), pane);
        assert forall|k: int| 0 <= k < (a + b).len() implies {
            let h = #[trigger] (a + b)[k];
            h.0 == w && h.1 < n
        } by {
            if k >= a.len() {
                assert((a + b)[k] == b[k - a.len()]);
            }
        }
    }
}

proof fn lemma_leaf_hits_are(w: usize, t: usize, ls: Seq<u64>, pane: u64)
    ensures
        forall|k: int| 0 <= k < leaf_hits(w, t, ls, pane).len() ==> #[trigger] leaf_hits(w, t, ls, pane)[k] == (w, t),
    decreases ls.len(),
{
    if ls.len() > 0 {
        lemma_leaf_hits_are(w, t, ls.drop_last(), pane);
        let a = leaf_hits(w, t, ls.drop_last(), pane);
        let b: Seq<(usize, usize)> = if ls.last() == pane {
            seq![(w, t)]
        } else {
            Seq::empty()
        };
        assert(leaf_hits(w, t, ls, pane) == a + b);
        assert forall|k: int| 0 <= k < (a + b).len() implies #[trigger] (a + b)[k] == (w, t) by {
            if k >= a.len() {
                assert((a + b)[k] == b[k - a.len()]);
            }
        }
    }
}

/// The (workspace, tab) position of the tab holding `pane`, when exactly
/// one leaf of the machine is that pane and its tab is in `workspace`.
pub fn unique_tab(machine: &Machine, workspace: WorkspaceId, pane: u64) -> (at: Option<(usize, usize)>)
    ensures
        at == unique_tab_of(*machine, workspace, pane),
        at matches Some((w, t)) ==> w < machine.workspaces@.len() && t < machine.workspaces@[w as int].tabs@.len(),
{
    let ghost wss = machine.workspaces@;
    let mut hits: Vec<(usize, usize)> = Vec::new();
    let mut w: usize = 0;
    while w < machine.workspaces.len()
        invariant
            wss == machine.workspaces@,
            w <= wss.len(),
            hits@ == owner_hits(wss, pane, w as nat),
        decreases wss.len() - w,
    {
        let tabs = &machine.workspaces[w].tabs;
        let ghost before_w = hits@;
        let mut t: usize = 0;
        while t < tabs.len()
            invariant
                wss == machine.workspaces@,
                w < wss.len(),
                *tabs == wss[w as int].tabs,
                t <= tabs@.len(),
                hits@ == before_w + tab_hits(w, tabs@, pane, t as nat),
            decreases tabs@.len() - t,
        {
            let ids = tabs[t].root.pane_ids();
            let ghost before_t = hits@;
            let mut k: usize = 0;
            assert(ids@.take(0) =~= Seq::<u64>::empty());
            while k < ids.len()
                invariant
                    k <= ids@.len(),
                    hits@ == before_t + leaf_hits(w, t, ids@.take(k as int), pane),
                decreases ids@.len() - k,
            {
                assert(ids@.take(k + 1).drop_last() =~= ids@.take(k as int));
                assert(ids@.take(k + 1).last() == ids@[k as int]);
                if ids[k] == pane {
                    hits.push((w, t));
                }
                assert(hits@ =~= before_t + leaf_hits(w, t, ids@.take(k + 1), pane));
                k = k + 1;
            }
            assert(ids@.take(ids@.len() as int) =~= ids@);
            assert(hits@ =~= before_w + tab_hits(w, tabs@, pane, (t + 1) as nat));
            t = t + 1;
        }
        assert(hits@ =~= owner_hits(wss, pane, (w + 1) as nat));
        w = w + 1;
    }
    proof {
        assert forall|x: int| 0 <= x < wss.len() implies #[trigger] wss[x].tabs@.len() <= usize::MAX by {
            assert(wss[x].tabs@.len() == wss[x].tabs.len());
        }
        lemma_hits_in_range(wss, pane, wss.len());
    }
    if hits.len() == 1 {
        let (hw, ht) = hits[0];
        assert(hits@[0] == owner_hits(wss, pane, wss.len())[0]);
        if machine.workspaces[hw].id == workspace {
            return Some((hw, ht));
        }
    }
    None
}

// --------------------------------------------------------- resume targets

/// The original slot a resume or a sleep is about: the window's workspace,
/// the host and its workspace, the tab and pane, the bound session, and
/// the tab's layout when the target was taken.
#[derive(Debug, PartialEq, Eq)]
pub struct ResumeTarget {
    pub client_workspace: WorkspaceId,
    pub host: HostId,
    pub workspace: WorkspaceId,
    pub tab: TabId,
    pub pane: u64,
    pub identity: ResumeIdentity,
    pub root: PaneNode,
}

/// A target as plain values.
pub struct TargetKey {
    pub client_workspace: WorkspaceId,
    pub host: HostId,
    pub workspace: WorkspaceId,
    pub tab: TabId,
    pub pane: u64,
    pub identity: IdentityKey,
    pub root: PaneNode,
}

impl View for ResumeTarget {
    type V = TargetKey;

    open spec fn view(&self) -> TargetKey {
        TargetKey {
            client_workspace: self.client_workspace,
            host: self.host,
            workspace: self.workspace,
            tab: self.tab,
            pane: self.pane,
            identity: self.identity@,
            root: self.root,
        }
    }
}

impl Clone for ResumeTarget {
    fn clone(&self) -> (copy: Self)
        ensures
            copy == *self,
    {
        ResumeTarget {
            client_workspace: self.client_workspace,
            host: self.host,
            workspace: self.workspace,
            tab: self.tab,
            pane: self.pane,
            identity: ResumeIdentity {
                provider: self.identity.provider,
                id: self.identity.id.clone(),
                cwd: self.identity.cwd.clone(),
            },
            root: self.root.clone(),
        }
    }
}

/// The positions, below `n`, of the pane records of pane `pane`.
pub open spec fn records_with(panes: Seq<PaneRecord>, pane: u64, n: nat) -> Seq<int>
    decreases n,
{
    if n == 0 {
        Seq::empty()
    } else {
        let before = records_with(panes, pane, (n - 1) as nat);
        if panes[n - 1].id == pane {
            before.push(n - 1)
        } else {
            before
        }
    }
}

/// The tab at a (workspace, tab) position of the machine.
pub open spec fn tab_at(m: Machine, at: (usize, usize)) -> Tab {
    m.workspaces@[at.0 as int].tabs@[at.1 as int]
}

/// The target for `pane` bound to an agent session: its tab is the one
/// tab holding the pane, in `workspace`; exactly one record describes the
/// pane; and that record binds a session.
pub open spec fn bound_target_of(
    client_workspace: WorkspaceId,
    host: HostId,
    workspace: WorkspaceId,
    pane: u64,
    m: Machine,
) -> Option<TargetKey> {
    match unique_tab_of(m, workspace, pane) {
        None => None,
        Some(at) => {
            let r = records_with(m.panes@, pane, m.panes@.len());
            if r.len() != 1 {
                None
            } else {
                match identity_of(m.panes@[r[0]]) {
                    None => None,
                    Some(id) => Some(
                        TargetKey {
                            client_workspace,
                            host,
                            workspace,
                            tab: tab_at(m, at).id,
                            pane,
                            identity: id,
                            root: tab_at(m, at).root,
                        },
                    ),
                }
            }
        },
    }
}

/// The one record describing `pane`.
pub open spec fn bound_record(m: Machine, pane: u64) -> PaneRecord {
    m.panes@[records_with(m.panes@, pane, m.panes@.len())[0]]
}

/// The pane still runs its bound session: it is live, has not exited, is
/// no ssh session, and any agent seen in it is the bound provider's agent
/// on the bound session.
pub open spec fn runs_bound_session(facts: PaneRecord, id: IdentityKey) -> bool {
    &&& facts.live
    &&& facts.exit is None
    &&& facts.ssh_spec is None
    &&& match facts.agent {
        Some(a) => provider_of(a.agent) == id.provider && opt_view(a.session_id) == Some(id.id),
        None => true,
    }
}

/// The pane has stopped: it exited, does not run, shows no agent and is no
/// ssh session.
pub open spec fn stopped_plainly(facts: PaneRecord) -> bool {
    facts.exit is Some && !facts.live && facts.agent is None && facts.ssh_spec is None
}

fn records_of(panes: &Vec<PaneRecord>, pane: u64) -> (found: (usize, Option<usize>))
    ensures
        ({
            let r = records_with(panes@, pane, panes@.len());
            &&& (found.0 == 0 <==> r.len() == 0)
            &&& (found.0 == 1 <==> r.len() == 1)
            &&& r.len() > 0 ==> (found.1 matches Some(i) && i == r[0])
            &&& r.len() == 0 ==> found.1 is None
            &&& r.len() > 0 ==> 0 <= r[0] < panes@.len()
        }),
{
    let mut count: usize = 0;
    let mut first: Option<usize> = None;
    let mut i: usize = 0;
    while i < panes.len()
        invariant
            i <= panes@.len(),
            ({
                let r = records_with(panes@, pane, i as nat);
                &&& count == (if r.len() < 2 { r.len() } else { 2 })
                &&& r.len() > 0 ==> (first matches Some(f) && f == r[0]) && 0 <= r[0] < i
                &&& r.len() == 0 ==> first is None
                &&& forall|k: int| 0 <= k < r.len() ==> 0 <= #[trigger] r[k] < i
            }),
        decreases panes@.len() - i,
    {
        let ghost before = records_with(panes@, pane, i as nat);
        if panes[i].id == pane {
            if count == 0 {
                first = Some(i);
            }
            if count < 2 {
                count = count + 1;
            }
            assert(records_with(panes@, pane, (i + 1) as nat) == before.push(i as int));
        }
        i = i + 1;
    }
    (count, first)
}

impl ResumeTarget {
    /// The target for a pane bound to an agent session (see
    /// `bound_target_of`).
    pub fn from_bound_machine(
        client_workspace: WorkspaceId,
        host: HostId,
        workspace: WorkspaceId,
        pane: u64,
        machine: &Machine,
    ) -> (target: Option<ResumeTarget>)
        ensures
            match target {
                Some(t) => bound_target_of(client_workspace, host, workspace, pane, *machine) == Some(t@),
                None => bound_target_of(client_workspace, host, workspace, pane, *machine) is None,
            },
    {
        let (w, t) = match unique_tab(machine, workspace, pane) {
            Some(at) => at,
            None => {
                return None;
            },
        };
        let (count, first) = records_of(&machine.panes, pane);
        if count != 1 {
            return None;
        }
        let ghost r = records_with(machine.panes@, pane, machine.panes@.len());
        let at = match first {
            Some(i) => i,
            None => {
                return None;
            },
        };
        assert(at as int == r[0]);
        let facts = &machine.panes[at];
        assert(*facts == machine.panes@[r[0]]);
        let id = match identity(facts) {
            Some(id) => id,
            None => {
                return None;
            },
        };
        let tab = &machine.workspaces[w].tabs[t];
        Some(
            ResumeTarget {
                client_workspace,
                host,
                workspace,
                tab: tab.id,
                pane,
                identity: id,
                root: tab.root.clone(),
            },
        )
    }

    /// The target for a pane still running its bound session.
    pub fn from_live_machine(
        client_workspace: WorkspaceId,
        host: HostId,
        workspace: WorkspaceId,
        pane: u64,
        machine: &Machine,
    ) -> (target: Option<ResumeTarget>)
        ensures
            match target {
                Some(t) => bound_target_of(client_workspace, host, workspace, pane, *machine) == Some(t@)
                    && runs_bound_session(bound_record(*machine, pane), t@.identity),
                None => match bound_target_of(client_workspace, host, workspace, pane, *machine) {
                    Some(k) => !runs_bound_session(bound_record(*machine, pane), k.identity),
                    None => true,
                },
            },
    {
        let target = match Self::from_bound_machine(client_workspace, host, workspace, pane, machine) {
            Some(t) => t,
            None => {
                return None;
            },
        };
        let (_, first) = records_of(&machine.panes, pane);
        let facts = match first {
            Some(i) => &machine.panes[i],
            None => {
                return None;
            },
        };
        let expected = match target.identity.provider {
            Provider::Codex => CliAgent::Codex,
            Provider::Claude => CliAgent::Claude,
        };
        let agent_differs = match &facts.agent {
            Some(a) => a.agent != expected || match &a.session_id {
                Some(sid) => !str_eq(sid.as_str(), target.identity.id.as_str()),
                None => true,
            },
            None => false,
        };
        if !facts.live || facts.exit.is_some() || facts.ssh_spec.is_some() || agent_differs {
            return None;
        }
        Some(target)
    }

    /// The target for a pane that has stopped plainly.
    pub fn from_machine(
        client_workspace: WorkspaceId,
        host: HostId,
        workspace: WorkspaceId,
        pane: u64,
        machine: &Machine,
    ) -> (target: Option<ResumeTarget>)
        ensures
            match target {
                Some(t) => bound_target_of(client_workspace, host, workspace, pane, *machine) == Some(t@)
                    && stopped_plainly(bound_record(*machine, pane)),
                None => bound_target_of(client_workspace, host, workspace, pane, *machine) is Some
                    ==> !stopped_plainly(bound_record(*machine, pane)),
            },
    {
        let target = match Self::from_bound_machine(client_workspace, host, workspace, pane, machine) {
            Some(t) => t,
            None => {
                return None;
            },
        };
        let (_, first) = records_of(&machine.panes, pane);
        let facts = match first {
            Some(i) => &machine.panes[i],
            None => {
                return None;
            },
        };
        if facts.exit.is_none() || facts.live || facts.agent.is_some() || facts.ssh_spec.is_some() {
            return None;
        }
        Some(target)
    }

    /// Whether two targets name the same original slot: every field the
    /// same, the layouts matching slot for slot whatever their geometry.
    pub fn same_slot(&self, other: &Self) -> (same: bool)
        ensures
            same == same_slot_of(self@, other@),
    {
        self.client_workspace == other.client_workspace && self.host == other.host
            && self.workspace == other.workspace && self.tab == other.tab && self.pane
            == other.pane && self.identity.provider == other.identity.provider && str_eq(
            self.identity.id.as_str(),
            other.identity.id.as_str(),
        ) && str_eq(self.identity.cwd.as_str(), other.identity.cwd.as_str()) && same_slots(
            &self.root,
            &other.root,
        )
    }
}

/// Two targets name the same original slot.
pub open spec fn same_slot_of(a: TargetKey, b: TargetKey) -> bool {
    &&& a.client_workspace == b.client_workspace
    &&& a.host == b.host
    &&& a.workspace == b.workspace
    &&& a.tab == b.tab
    &&& a.pane == b.pane
    &&& a.identity == b.identity
    &&& slots_match(a.root, b.root)
}

/// Naming the same slot is an equivalence on targets.
pub proof fn lemma_same_slot_equivalence(a: TargetKey, b: TargetKey, c: TargetKey)
    ensures
        same_slot_of(a, a),
        same_slot_of(a, b) ==> same_slot_of(b, a),
        same_slot_of(a, b) && same_slot_of(b, c) ==> same_slot_of(a, c),
{
    lemma_slots_match_equivalence(a.root, b.root, c.root);
}

// ---------------------------------------------------------- reconciling

/// Pane record `i` of the machine is the target's slot today: no ssh
/// session, bound to the target's session, running or exited (not in an
/// unknown state), held by exactly one tab, in the target's workspace, that
/// is the target's tab and whose layout is the target's with the pane put
/// in the target pane's place.
pub open spec fn reconciles(target: TargetKey, m: Machine, i: int) -> bool {
    let p = m.panes@[i];
    &&& p.ssh_spec is None
    &&& identity_of(p) == Some(target.identity)
    &&& (p.live || p.exit is Some)
    &&& match unique_tab_of(m, target.workspace, p.id) {
        Some(at) => tab_at(m, at).id == target.tab && slots_match(
            tab_at(m, at).root,
            replaced(target.root, target.pane, p.id),
        ),
        None => false,
    }
}

/// The positions, below `n`, of the pane records that are the target's
/// slot today.
pub open spec fn reconcile_hits(target: TargetKey, m: Machine, n: nat) -> Seq<int>
    decreases n,
{
    if n == 0 {
        Seq::empty()
    } else {
        let before = reconcile_hits(target, m, (n - 1) as nat);
        if reconciles(target, m, n - 1) {
            before.push(n - 1)
        } else {
            before
        }
    }
}

proof fn lemma_reconcile_hits_meaning(target: TargetKey, m: Machine, n: nat)
    requires
        n <= m.panes@.len(),
    ensures
        ({
            let h = reconcile_hits(target, m, n);
            &&& forall|k: int| 0 <= k < h.len() ==> 0 <= #[trigger] h[k] < n && reconciles(target, m, h[k])
            &&& forall|a: int, b: int| 0 <= a < b < h.len() ==> #[trigger] h[a] < #[trigger] h[b]
            &&& forall|j: int| 0 <= j < n && #[trigger] reconciles(target, m, j) ==> h.contains(j)
        }),
    decreases n,
{
    if n > 0 {
        lemma_reconcile_hits_meaning(target, m, (n - 1) as nat);
        let before = reconcile_hits(target, m, (n - 1) as nat);
        let h = reconcile_hits(target, m, n);
        assert forall|j: int| 0 <= j < n && #[trigger] reconciles(target, m, j) implies h.contains(j) by {
            if j == n - 1 {
                assert(h[h.len() - 1] == j);
            } else {
                let k = choose|k: int| 0 <= k < before.len() && before[k] == j;
                assert(h[k] == j);
            }
        }
    }
}

/// The slot found is the one pane record that is the target's slot today:
/// when one is found, that record reconciles with the target, no other
/// record does, and the tab given is the one tab that holds its pane; and
/// whenever exactly one record reconciles, it is found. Two candidates are
/// never settled by taking the first.
pub proof fn lemma_reconcile_finds_the_one_slot(target: TargetKey, m: Machine)
    ensures
        reconcile_of(target, m) matches Some((i, at)) ==> {
            &&& 0 <= i < m.panes@.len()
            &&& reconciles(target, m, i)
            &&& forall|j: int| 0 <= j < m.panes@.len() && j != i ==> !#[trigger] reconciles(target, m, j)
            &&& unique_tab_of(m, target.workspace, m.panes@[i].id) == Some(at)
            &&& tab_at(m, at).id == target.tab
        },
        forall|i: int|
            0 <= i < m.panes@.len() && #[trigger] reconciles(target, m, i) && (forall|j: int|
                0 <= j < m.panes@.len() && j != i ==> !#[trigger] reconciles(target, m, j)) ==> (reconcile_of(
                target,
                m,
            ) matches Some((f, _)) && f == i),
{
    let n = m.panes@.len();
    lemma_reconcile_hits_meaning(target, m, n);
    let h = reconcile_hits(target, m, n);
    if h.len() == 1 {
        assert forall|j: int| 0 <= j < n && j != h[0] implies !#[trigger] reconciles(target, m, j) by {
            if reconciles(target, m, j) {
                assert(h.contains(j));
            }
        }
    }
    assert forall|i: int|
        0 <= i < n && #[trigger] reconciles(target, m, i) && (forall|j: int|
            0 <= j < n && j != i ==> !#[trigger] reconciles(target, m, j)) implies (reconcile_of(target, m) matches Some((f, _))
        && f == i) by {
        assert(h.contains(i));
        if h.len() >= 2 {
            assert(h[0] < h[1]);
            assert(reconciles(target, m, h[0]) && reconciles(target, m, h[1]));
        }
        assert(h.len() == 1);
        assert(h[0] == i);
    }
}

/// The one pane record, and the position of its tab, that is the target's
/// slot today; nothing when none is or more than one is. Nothing is
/// guessed: no first match, no latest session.
pub open spec fn reconcile_of(target: TargetKey, m: Machine) -> Option<(int, (usize, usize))> {
    let h = reconcile_hits(target, m, m.panes@.len());
    if h.len() == 1 {
        match unique_tab_of(m, target.workspace, m.panes@[h[0]].id) {
            Some(at) => Some((h[0], at)),
            None => None,
        }
    } else {
        None
    }
}

fn same_identity_key(a: &ResumeIdentity, b: &ResumeIdentity) -> (same: bool)
    ensures
        same == (a@ == b@),
{
    a.provider == b.provider && str_eq(a.id.as_str(), b.id.as_str()) && str_eq(
        a.cwd.as_str(),
        b.cwd.as_str(),
    )
}

impl ResumeTarget {
    fn reconciles_at(&self, machine: &Machine, i: usize) -> (ok: bool)
        requires
            i < machine.panes@.len(),
        ensures
            ok == reconciles(self@, *machine, i as int),
    {
        let p = &machine.panes[i];
        if p.ssh_spec.is_some() || (!p.live && p.exit.is_none()) {
            return false;
        }
        match identity(p) {
            Some(id) => {
                if !same_identity_key(&id, &self.identity) {
                    return false;
                }
            },
            None => {
                return false;
            },
        }
        let (w, t) = match unique_tab(machine, self.workspace, p.id) {
            Some(at) => at,
            None => {
                return false;
            },
        };
        let tab = &machine.workspaces[w].tabs[t];
        let mut expected = self.root.clone();
        expected.replace_leaf(self.pane, p.id);
        tab.id == self.tab && same_slots(&tab.root, &expected)
    }

    /// The one pane record, and the position of its tab, that is the
    /// target's slot in the machine today; nothing when none or more than
    /// one is.
    pub fn reconcile(&self, machine: &Machine) -> (found: Option<(usize, usize, usize)>)
        ensures
            match found {
                Some((i, w, t)) => reconcile_of(self@, *machine) == Some((i as int, (w, t))) && i
                    < machine.panes@.len() && w < machine.workspaces@.len() && t
                    < machine.workspaces@[w as int].tabs@.len(),
                None => reconcile_of(self@, *machine) is None,
            },
            found matches Some((i, w, t)) ==> {
                &&& reconciles(self@, *machine, i as int)
                &&& forall|j: int|
                    0 <= j < machine.panes@.len() && j != i ==> !#[trigger] reconciles(self@, *machine, j)
                &&& machine.workspaces@[w as int].tabs@[t as int].id == self.tab
            },
            forall|i: int|
                0 <= i < machine.panes@.len() && #[trigger] reconciles(self@, *machine, i) && (forall|j: int|
                    0 <= j < machine.panes@.len() && j != i ==> !#[trigger] reconciles(self@, *machine, j))
                    ==> (found matches Some((f, _, _)) && f == i),
    {
        proof {
            lemma_reconcile_finds_the_one_slot(self@, *machine);
        }
        let mut count: usize = 0;
        let mut first: usize = 0;
        let mut i: usize = 0;
        while i < machine.panes.len()
            invariant
                i <= machine.panes@.len(),
                ({
                    let h = reconcile_hits(self@, *machine, i as nat);
                    &&& count == (if h.len() < 2 { h.len() } else { 2 })
                    &&& h.len() > 0 ==> first == h[0] && h[0] < i
                }),
            decreases machine.panes@.len() - i,
        {
            let ghost before = reconcile_hits(self@, *machine, i as nat);
            if self.reconciles_at(machine, i) {
                if count == 0 {
                    first = i;
                }
                if count < 2 {
                    count = count + 1;
                }
                assert(reconcile_hits(self@, *machine, (i + 1) as nat) == before.push(i as int));
            }
            i = i + 1;
        }
        if count != 1 {
            return None;
        }
        let id = machine.panes[first].id;
        match unique_tab(machine, self.workspace, id) {
            Some((w, t)) => Some((first, w, t)),
            None => None,
        }
    }

    /// The target's slot as the current machine has it, checked against a
    /// snapshot: both must reconcile, and the current tab's layout must
    /// match either the target's or the snapshot's. The current record and
    /// tab are taken when the current pane is the snapshot's pane, else the
    /// snapshot's record and tab.
    pub fn reconcile_current(&self, snapshot: &Machine, current: &Machine) -> (found: Option<(PaneRecord, Tab)>)
        ensures
            found == reconcile_current_of(self@, *snapshot, *current),
    {
        let (si, sw, st) = match self.reconcile(snapshot) {
            Some(f) => f,
            None => {
                return None;
            },
        };
        let (ci, cw, ct) = match self.reconcile(current) {
            Some(f) => f,
            None => {
                return None;
            },
        };
        let tab = &snapshot.workspaces[sw].tabs[st];
        let latest = &current.workspaces[cw].tabs[ct];
        if !same_slots(&latest.root, &self.root) && !same_slots(&latest.root, &tab.root) {
            return None;
        }
        if current.panes[ci].id == snapshot.panes[si].id {
            return Some((current.panes[ci].clone(), latest.clone()));
        }
        Some((snapshot.panes[si].clone(), tab.clone()))
    }
}

/// What `reconcile_current` gives (see there).
pub open spec fn reconcile_current_of(target: TargetKey, snapshot: Machine, current: Machine) -> Option<(PaneRecord, Tab)> {
    match (reconcile_of(target, snapshot), reconcile_of(target, current)) {
        (Some((si, sat)), Some((ci, cat))) => {
            let tab = tab_at(snapshot, sat);
            let latest = tab_at(current, cat);
            if !slots_match(latest.root, target.root) && !slots_match(latest.root, tab.root) {
                None
            } else if current.panes@[ci].id == snapshot.panes@[si].id {
                Some((current.panes@[ci], latest))
            } else {
                Some((snapshot.panes@[si], tab))
            }
        },
        _ => None,
    }
}

// --------------------------------------------------------------- replies

/// A successful reply of the daemon.
#[derive(Clone, Copy, Debug, PartialEq, Eq, Structural)]
pub enum ReplyOk {
    Unit,
    StoppedSessionResumed { workspace: WorkspaceId, tab: TabId, predecessor: u64, pane: u64 },
}

/// The pane a resume reply hands back, when the reply resumed the target's
/// own slot (its workspace, its tab, its pane as the predecessor) into a
/// new pane.
pub open spec fn accepted_resume_of(target: TargetKey, reply: ReplyOk) -> Option<u64> {
    match reply {
        ReplyOk::StoppedSessionResumed { workspace, tab, predecessor, pane } => if workspace
            == target.workspace && tab == target.tab && predecessor == target.pane && pane
            != predecessor {
            Some(pane)
        } else {
            None
        },
        _ => None,
    }
}

/// The pane a resume reply hands back, when it resumed the target's slot.
pub fn accepted_resume_reply(target: &ResumeTarget, reply: ReplyOk) -> (pane: Option<u64>)
    ensures
        pane == accepted_resume_of(target@, reply),
{
    match reply {
        ReplyOk::StoppedSessionResumed { workspace, tab, predecessor, pane } => {
            if workspace == target.workspace && tab == target.tab && predecessor == target.pane
                && pane != predecessor {
                Some(pane)
            } else {
                None
            }
        },
        _ => None,
    }
}

/// The pane a sleep failed on, and why.
pub struct SleepTabFailure {
    pub pane: u64,
    pub error: String,
}

/// The daemon's reply to putting a whole tab to sleep: the panes it put to
/// sleep, the panes that were already stopped, and the pane it failed on.
pub struct SleepTabReply {
    pub accepted: Vec<u64>,
    pub already_stopped: Vec<u64>,
    pub failed: Option<SleepTabFailure>,
}

/// The panes of `s` that are (`inside`) or are not in `set`, in order.
pub open spec fn split_by(s: Seq<u64>, set: Seq<u64>, inside: bool) -> Seq<u64>
    decreases s.len(),
{
    if s.len() == 0 {
        Seq::empty()
    } else {
        let before = split_by(s.drop_last(), set, inside);
        if set.contains(s.last()) == inside {
            before.push(s.last())
        } else {
            before
        }
    }
}

/// A whole-tab sleep reply is valid for the tab's panes when: the already
/// stopped panes are distinct and are exactly the tab's panes that are
/// listed as stopped, in tab order; the accepted panes begin the other
/// panes, in tab order; and a failure names the next of those, while with
/// no failure the accepted panes are all of them.
pub open spec fn valid_tab_sleep_reply_of(
    panes: Seq<u64>,
    accepted: Seq<u64>,
    stopped: Seq<u64>,
    failed: Option<u64>,
) -> bool {
    let live = split_by(panes, stopped, false);
    &&& stopped.no_duplicates()
    &&& split_by(panes, stopped, true) == stopped
    &&& accepted.len() <= live.len()
    &&& live.take(accepted.len() as int) == accepted
    &&& match failed {
        Some(f) => live.len() > accepted.len() && live[accepted.len() as int] == f,
        None => live == accepted,
    }
}

fn split_by_exec(s: &[u64], set: &HashSet<u64>, Ghost(listed): Ghost<Seq<u64>>, inside: bool) -> (out: Vec<u64>)
    requires
        forall|x: u64| #[trigger] set@.contains(x) <==> listed.contains(x),
    ensures
        out@ == split_by(s@, listed, inside),
{
    broadcast use vstd::std_specs::hash::group_hash_axioms;

    let mut out: Vec<u64> = Vec::new();
    let mut i: usize = 0;
    assert(s@.take(0) =~= Seq::<u64>::empty());
    while i < s.len()
        invariant
            i <= s@.len(),
            out@ == split_by(s@.take(i as int), listed, inside),
            forall|x: u64| #[trigger] set@.contains(x) <==> listed.contains(x),
        decreases s@.len() - i,
    {
        assert(s@.take(i + 1).drop_last() =~= s@.take(i as int));
        assert(s@.take(i + 1).last() == s@[i as int]);
        if set.contains(&s[i]) == inside {
            out.push(s[i]);
        }
        i = i + 1;
    }
    assert(s@.take(s@.len() as int) =~= s@);
    out
}

fn seq_eq(a: &Vec<u64>, b: &Vec<u64>) -> (eq: bool)
    ensures
        eq == (a@ == b@),
{
    if a.len() != b.len() {
        return false;
    }
    let mut i: usize = 0;
    while i < a.len()
        invariant
            a@.len() == b@.len(),
            i <= a@.len(),
            forall|j: int| 0 <= j < i ==> a@[j] == b@[j],
        decreases a@.len() - i,
    {
        if a[i] != b[i] {
            return false;
        }
        i = i + 1;
    }
    assert(a@ =~= b@);
    true
}

/// Whether a whole-tab sleep reply is valid for the tab's panes (see
/// `valid_tab_sleep_reply_of`): a reply naming a foreign pane, listing one
/// twice or out of tab order is refused.
pub fn valid_tab_sleep_reply(panes: &[u64], reply: &SleepTabReply) -> (valid: bool)
    ensures
        valid == valid_tab_sleep_reply_of(
            panes@,
            reply.accepted@,
            reply.already_stopped@,
            match reply.failed {
                Some(f) => Some(f.pane),
                None => None,
            },
        ),
{
    broadcast use vstd::std_specs::hash::group_hash_axioms;

    let stopped = &reply.already_stopped;
    let mut set: HashSet<u64> = HashSet::new();
    let mut i: usize = 0;
    while i < stopped.len()
        invariant
            stopped@ == reply.already_stopped@,
            i <= stopped@.len(),
            forall|x: u64| #[trigger] set@.contains(x) <==> stopped@.take(i as int).contains(x),
            forall|a: int, b: int| 0 <= a < b < i ==> stopped@[a] != stopped@[b],
        decreases stopped@.len() - i,
    {
        let x = stopped[i];
        if !set.insert(x) {
            proof {
                let j = choose|j: int| 0 <= j < i && stopped@.take(i as int)[j] == x;
                assert(stopped@[j] == stopped@[i as int]);
                assert(!stopped@.no_duplicates());
            }
            return false;
        }
        assert forall|a: int| 0 <= a < i implies stopped@[a] != x by {
            assert(stopped@.take(i as int)[a] == stopped@[a]);
        }
        assert forall|y: u64| #[trigger] set@.contains(y) <==> stopped@.take(i + 1).contains(y) by {
            let t = stopped@.take(i + 1);
            if y == x {
                assert(t[i as int] == x);
            }
            if t.contains(y) {
                let j = choose|j: int| 0 <= j < t.len() && t[j] == y;
                if j < i {
                    assert(stopped@.take(i as int)[j] == y);
                }
            }
            if stopped@.take(i as int).contains(y) {
                let j = choose|j: int| 0 <= j < i && stopped@.take(i as int)[j] == y;
                assert(t[j] == y);
            }
        }
        i = i + 1;
    }
    assert(stopped@.take(stopped@.len() as int) =~= stopped@);
    assert(stopped@.no_duplicates());
    let in_order = split_by_exec(panes, &set, Ghost(stopped@), true);
    if !seq_eq(&in_order, stopped) {
        return false;
    }
    let live = split_by_exec(panes, &set, Ghost(stopped@), false);
    let accepted = &reply.accepted;
    if accepted.len() > live.len() {
        return false;
    }
    let mut k: usize = 0;
    while k < accepted.len()
        invariant
            accepted@ == reply.accepted@,
            live@ == split_by(panes@, reply.already_stopped@, false),
            accepted@.len() <= live@.len(),
            k <= accepted@.len(),
            forall|a: int| 0 <= a < k ==> live@[a] == accepted@[a],
        decreases accepted@.len() - k,
    {
        if live[k] != accepted[k] {
            assert(live@.take(accepted@.len() as int)[k as int] != accepted@[k as int]);
            return false;
        }
        k = k + 1;
    }
    assert(live@.take(accepted@.len() as int) =~= accepted@);
    match &reply.failed {
        Some(f) => live.len() > accepted.len() && live[accepted.len()] == f.pane,
        None => seq_eq(&live, accepted),
    }
}

// ----------------------------------------------------------- tab sleep

/// One pane of a tab being put to sleep: its target, the view drawing it,
/// and whether it still runs its session.
pub struct TabSleepMember {
    pub target: ResumeTarget,
    pub entity: u64,
    pub live: bool,
}

/// A member as plain values.
pub struct MemberKey {
    pub target: TargetKey,
    pub entity: u64,
    pub live: bool,
}

impl View for TabSleepMember {
    type V = MemberKey;

    open spec fn view(&self) -> MemberKey {
        MemberKey { target: self.target@, entity: self.entity, live: self.live }
    }
}

/// The panes of a whole tab put to sleep in one request, in tab order.
pub struct TabSleepPlan {
    pub members: Vec<TabSleepMember>,
}

/// The members of a plan as plain values.
pub open spec fn members_view(members: Seq<TabSleepMember>) -> Seq<MemberKey> {
    members.map_values(|m: TabSleepMember| m@)
}

/// A pane of the sleep request: the pane and the session it is bound to.
pub struct SleepTabPane {
    pub pane: u64,
    pub identity: ResumeIdentity,
}

/// One pane slot of the tab, as the window sees it: the view drawing it,
/// how many slots of the window that view draws, the pane it shows when it
/// belongs to this workspace on this host as a plain local pane (a live
/// view, or a stopped placeholder with no resume under way), and whether
/// its terminal is missing or its process has exited.
#[derive(Clone, Copy, Debug, PartialEq, Eq, Structural)]
pub struct SleepSlot {
    pub entity: u64,
    pub occurrences: usize,
    pub pane: Option<u64>,
    pub exited: bool,
}

/// The position of the first record of pane `pane`.
pub open spec fn first_record(panes: Seq<PaneRecord>, pane: u64) -> Option<int> {
    let r = records_with(panes, pane, panes.len());
    if r.len() > 0 {
        Some(r[0])
    } else {
        None
    }
}

/// The target of the slot's pane: the bound target when observing an
/// operation already under way; else the pane's live target, or failing
/// that its plainly stopped one.
pub open spec fn slot_target_of(
    client_workspace: WorkspaceId,
    host: HostId,
    workspace: WorkspaceId,
    pane: u64,
    observing: bool,
    m: Machine,
) -> Option<TargetKey> {
    let bound = bound_target_of(client_workspace, host, workspace, pane, m);
    if observing {
        bound
    } else {
        match bound {
            Some(t) => if runs_bound_session(bound_record(m, pane), t.identity) || stopped_plainly(
                bound_record(m, pane),
            ) {
                Some(t)
            } else {
                None
            },
            None => None,
        }
    }
}

/// The member a slot gives, or nothing when the slot rules the plan out:
/// its view draws another slot too; it is not a plain local pane of this
/// workspace; the machine has no record of it or it is an ssh session; it
/// has no target; its target is in another tab; or, for a new request, it
/// runs its session but its terminal is gone or has exited.
pub open spec fn member_of(
    client_workspace: WorkspaceId,
    host: HostId,
    workspace: WorkspaceId,
    tab: TabId,
    observing: bool,
    slot: SleepSlot,
    m: Machine,
) -> Option<MemberKey> {
    if slot.occurrences != 1 {
        None
    } else {
        match slot.pane {
            None => None,
            Some(pane) => match first_record(m.panes@, pane) {
                None => None,
                Some(i) => if m.panes@[i].ssh_spec is Some {
                    None
                } else {
                    let live = match bound_target_of(client_workspace, host, workspace, pane, m) {
                        Some(t) => runs_bound_session(bound_record(m, pane), t.identity),
                        None => false,
                    };
                    match slot_target_of(client_workspace, host, workspace, pane, observing, m) {
                        None => None,
                        Some(t) => if t.tab != tab {
                            None
                        } else if !observing && live && slot.exited {
                            None
                        } else {
                            Some(MemberKey { target: t, entity: slot.entity, live })
                        },
                    }
                },
            },
        }
    }
}

/// The members the first `n` slots give, when every one gives one.
pub open spec fn members_of(
    client_workspace: WorkspaceId,
    host: HostId,
    workspace: WorkspaceId,
    tab: TabId,
    observing: bool,
    slots: Seq<SleepSlot>,
    m: Machine,
    n: nat,
) -> Option<Seq<MemberKey>>
    decreases n,
{
    if n == 0 {
        Some(Seq::empty())
    } else {
        match members_of(client_workspace, host, workspace, tab, observing, slots, m, (n - 1) as nat) {
            None => None,
            Some(before) => match member_of(
                client_workspace,
                host,
                workspace,
                tab,
                observing,
                slots[n - 1],
                m,
            ) {
                None => None,
                Some(x) => Some(before.push(x)),
            },
        }
    }
}

/// The panes the members name, in order.
pub open spec fn member_panes(members: Seq<MemberKey>) -> Seq<u64> {
    members.map_values(|x: MemberKey| x.target.pane)
}

/// The sleep plan for a whole tab: the tab is the window's only tab of
/// that id, every slot gives a member, there is at least one, and the
/// members' panes are, in order, the panes of the first member's layout.
pub open spec fn sleep_plan_of(
    client_workspace: WorkspaceId,
    host: HostId,
    workspace: WorkspaceId,
    tab: TabId,
    matching_tabs: usize,
    observing: bool,
    slots: Seq<SleepSlot>,
    m: Machine,
) -> Option<Seq<MemberKey>> {
    if matching_tabs != 1 {
        None
    } else {
        match members_of(client_workspace, host, workspace, tab, observing, slots, m, slots.len()) {
            None => None,
            Some(ms) => if ms.len() > 0 && leaves(ms[0].target.root) == member_panes(ms) {
                Some(ms)
            } else {
                None
            },
        }
    }
}

proof fn lemma_members_stay_none(
    client_workspace: WorkspaceId,
    host: HostId,
    workspace: WorkspaceId,
    tab: TabId,
    observing: bool,
    slots: Seq<SleepSlot>,
    m: Machine,
    a: nat,
    b: nat,
)
    requires
        a <= b,
        members_of(client_workspace, host, workspace, tab, observing, slots, m, a) is None,
    ensures
        members_of(client_workspace, host, workspace, tab, observing, slots, m, b) is None,
    decreases b - a,
{
    if a < b {
        lemma_members_stay_none(client_workspace, host, workspace, tab, observing, slots, m, a, (b - 1) as nat);
    }
}

fn member_for(
    client_workspace: WorkspaceId,
    host: HostId,
    workspace: WorkspaceId,
    tab: TabId,
    observing: bool,
    slot: SleepSlot,
    machine: &Machine,
) -> (member: Option<TabSleepMember>)
    ensures
        match member {
            Some(x) => member_of(client_workspace, host, workspace, tab, observing, slot, *machine) == Some(x@),
            None => member_of(client_workspace, host, workspace, tab, observing, slot, *machine) is None,
        },
{
    if slot.occurrences != 1 {
        return None;
    }
    let pane = match slot.pane {
        Some(p) => p,
        None => {
            return None;
        },
    };
    let (_, first) = records_of(&machine.panes, pane);
    let at = match first {
        Some(i) => i,
        None => {
            return None;
        },
    };
    if machine.panes[at].ssh_spec.is_some() {
        return None;
    }
    let live = ResumeTarget::from_live_machine(client_workspace, host, workspace, pane, machine);
    let is_live = live.is_some();
    let target = if observing {
        ResumeTarget::from_bound_machine(client_workspace, host, workspace, pane, machine)
    } else {
        match live {
            Some(t) => Some(t),
            None => ResumeTarget::from_machine(client_workspace, host, workspace, pane, machine),
        }
    };
    let target = match target {
        Some(t) => t,
        None => {
            return None;
        },
    };
    if target.tab != tab {
        return None;
    }
    if !observing && is_live && slot.exited {
        return None;
    }
    Some(TabSleepMember { target, entity: slot.entity, live: is_live })
}

/// The sleep plan for a whole tab (see `sleep_plan_of`). `matching_tabs`
/// is how many of the window's tabs carry the tab's id; `slots` are the
/// tab's pane slots in layout order.
pub fn tab_sleep_plan(
    client_workspace: WorkspaceId,
    host: HostId,
    workspace: WorkspaceId,
    tab: TabId,
    matching_tabs: usize,
    observing: bool,
    slots: &[SleepSlot],
    machine: &Machine,
) -> (plan: Option<TabSleepPlan>)
    ensures
        match plan {
            Some(p) => sleep_plan_of(client_workspace, host, workspace, tab, matching_tabs, observing, slots@, *machine)
                == Some(members_view(p.members@)),
            None => sleep_plan_of(client_workspace, host, workspace, tab, matching_tabs, observing, slots@, *machine) is None,
        },
{
    if matching_tabs != 1 {
        return None;
    }
    let mut members: Vec<TabSleepMember> = Vec::new();
    let mut i: usize = 0;
    while i < slots.len()
        invariant
            i <= slots@.len(),
            members_of(client_workspace, host, workspace, tab, observing, slots@, *machine, i as nat)
                == Some(members_view(members@)),
        decreases slots@.len() - i,
    {
        match member_for(client_workspace, host, workspace, tab, observing, slots[i], machine) {
            Some(x) => {
                let ghost before = members@;
                members.push(x);
                assert(members_view(members@) =~= members_view(before).push(x@));
            },
            None => {
                proof {
                    lemma_members_stay_none(
                        client_workspace,
                        host,
                        workspace,
                        tab,
                        observing,
                        slots@,
                        *machine,
                        (i + 1) as nat,
                        slots@.len(),
                    );
                }
                return None;
            },
        }
        i = i + 1;
    }
    if members.len() == 0 {
        return None;
    }
    let ids = members[0].target.root.pane_ids();
    let mut panes: Vec<u64> = Vec::new();
    let mut k: usize = 0;
    while k < members.len()
        invariant
            k <= members@.len(),
            panes@ == member_panes(members_view(members@)).take(k as int),
        decreases members@.len() - k,
    {
        panes.push(members[k].target.pane);
        assert(panes@ =~= member_panes(members_view(members@)).take(k + 1));
        k = k + 1;
    }
    assert(member_panes(members_view(members@)).take(members@.len() as int) =~= member_panes(
        members_view(members@),
    ));
    if !seq_eq(&ids, &panes) {
        return None;
    }
    Some(TabSleepPlan { members })
}

impl TabSleepPlan {
    /// Whether two plans have the same members: the same views drawing the
    /// same slots, in the same order.
    pub fn same_members(&self, other: &Self) -> (same: bool)
        ensures
            same == (self.members@.len() == other.members@.len() && forall|i: int|
                0 <= i < self.members@.len() ==> (#[trigger] self.members@[i]).entity
                    == other.members@[i].entity && same_slot_of(
                    self.members@[i].target@,
                    other.members@[i].target@,
                )),
    {
        if self.members.len() != other.members.len() {
            return false;
        }
        let mut i: usize = 0;
        while i < self.members.len()
            invariant
                self.members@.len() == other.members@.len(),
                i <= self.members@.len(),
                forall|j: int|
                    0 <= j < i ==> (#[trigger] self.members@[j]).entity == other.members@[j].entity
                        && same_slot_of(self.members@[j].target@, other.members@[j].target@),
            decreases self.members@.len() - i,
        {
            let a = &self.members[i];
            let b = &other.members[i];
            if !(a.entity == b.entity && a.target.same_slot(&b.target)) {
                return false;
            }
            i = i + 1;
        }
        true
    }

    /// The panes of the sleep request: each member's pane and session, in
    /// order.
    pub fn wire_members(&self) -> (wire: Vec<SleepTabPane>)
        ensures
            wire@.len() == self.members@.len(),
            forall|i: int|
                0 <= i < wire@.len() ==> (#[trigger] wire@[i]).pane == self.members@[i].target.pane
                    && wire@[i].identity@ == self.members@[i].target.identity@,
    {
        let mut wire: Vec<SleepTabPane> = Vec::new();
        let mut i: usize = 0;
        while i < self.members.len()
            invariant
                i <= self.members@.len(),
                wire@.len() == i,
                forall|j: int|
                    0 <= j < i ==> (#[trigger] wire@[j]).pane == self.members@[j].target.pane
                        && wire@[j].identity@ == self.members@[j].target.identity@,
            decreases self.members@.len() - i,
        {
            let t = &self.members[i].target;
            wire.push(
                SleepTabPane {
                    pane: t.pane,
                    identity: ResumeIdentity {
                        provider: t.identity.provider,
                        id: t.identity.id.clone(),
                        cwd: t.identity.cwd.clone(),
                    },
                },
            );
            i = i + 1;
        }
        wire
    }
}

// ------------------------------------------------------- resume requests

/// What a resume, output or refresh request asks of a stopped slot.
#[derive(Clone, Copy, Debug, PartialEq, Eq, Structural)]
pub enum RecoveryAction {
    Resume,
    Refresh,
    Output,
}

/// Whether a resume request may start.
#[derive(Clone, Copy, Debug, PartialEq, Eq, Structural)]
pub enum ResumeAdmission {
    /// The request is no longer the placeholder's: drop its presentation.
    Cancel,
    /// Another placeholder of the same tab is resuming from the same
    /// layout: drop this one and tell the user.
    Busy,
    /// No control link that can attach checked: the slot is unavailable.
    Unavailable,
    /// Acquire the workspace and go on.
    Proceed,
}

/// Whether a resume request may start: it must still be the placeholder's
/// current request, no other placeholder of its tab may be resuming, and
/// the host's control link must offer checked attachment.
pub fn resume_admission(
    still_current: bool,
    other_resume_in_tab: bool,
    has_link: bool,
    checked_attach: bool,
) -> (a: ResumeAdmission)
    ensures
        a == (if !still_current {
            ResumeAdmission::Cancel
        } else if other_resume_in_tab {
            ResumeAdmission::Busy
        } else if !has_link || !checked_attach {
            ResumeAdmission::Unavailable
        } else {
            ResumeAdmission::Proceed
        }),
{
    if !still_current {
        ResumeAdmission::Cancel
    } else if other_resume_in_tab {
        ResumeAdmission::Busy
    } else if !has_link || !checked_attach {
        ResumeAdmission::Unavailable
    } else {
        ResumeAdmission::Proceed
    }
}

/// What happens once the workspace lease came back.
#[derive(Clone, Copy, Debug, PartialEq, Eq, Structural)]
pub enum LeaseLanding {
    /// No lease: the slot is unavailable.
    Unavailable,
    /// Release the lease: the request, the link or the slot changed.
    Release,
    /// Keep the lease and replay the stopped pane's output.
    Output,
    /// Keep the lease and ask the daemon to resume (or refresh).
    Resume,
}

/// What happens once the workspace lease came back: the request must still
/// be current, on the same link, and (unless it only refreshes) the slot
/// the machine offers now must be the same slot.
pub fn lease_landing(
    acquired: bool,
    still_current: bool,
    same_link: bool,
    action: RecoveryAction,
    same_slot_now: bool,
) -> (l: LeaseLanding)
    ensures
        l == (if !acquired {
            LeaseLanding::Unavailable
        } else if !still_current || !same_link || (action != RecoveryAction::Refresh
            && !same_slot_now) {
            LeaseLanding::Release
        } else if action == RecoveryAction::Output {
            LeaseLanding::Output
        } else {
            LeaseLanding::Resume
        }),
{
    if !acquired {
        LeaseLanding::Unavailable
    } else if !still_current || !same_link || (action != RecoveryAction::Refresh && !same_slot_now) {
        LeaseLanding::Release
    } else if action == RecoveryAction::Output {
        LeaseLanding::Output
    } else {
        LeaseLanding::Resume
    }
}

/// The machine a resume fetched afterwards is accepted only when the pane
/// the daemon said it resumed into is the one that reconciles there.
pub open spec fn resumed_machine_matches_of(target: TargetKey, expected: Option<u64>, m: Machine) -> bool {
    match expected {
        None => true,
        Some(id) => match reconcile_of(target, m) {
            Some((i, _)) => m.panes@[i].id == id,
            None => false,
        },
    }
}

/// Whether the machine fetched after a resume is accepted (see
/// `resumed_machine_matches_of`).
pub fn resumed_machine_matches(target: &ResumeTarget, expected: Option<u64>, machine: &Machine) -> (ok: bool)
    ensures
        ok == resumed_machine_matches_of(target@, expected, *machine),
{
    match expected {
        None => true,
        Some(id) => match target.reconcile(machine) {
            Some((i, _, _)) => machine.panes[i].id == id,
            None => false,
        },
    }
}

/// The pane a resume worker expects the slot to hold afterwards: none for
/// a refresh, which asks nothing; else the pane an accepted resume reply
/// names. No reply, or a reply for another slot, ends the worker
/// (`None`): its outcome is unknown and is never retried.
pub open spec fn resume_expected_of(target: TargetKey, refresh: bool, reply: Option<ReplyOk>) -> Option<Option<u64>> {
    if refresh {
        Some(None)
    } else {
        match reply {
            Some(r) => match accepted_resume_of(target, r) {
                Some(p) => Some(Some(p)),
                None => None,
            },
            None => None,
        }
    }
}

/// Whether a stopped resume's worker hands its machine tree on: it has an
/// expectation (see `resume_expected_of`), the tree fetched afterwards
/// came back and agrees with it, and the workspace's attachment proof is
/// still the one the lease gave.
pub open spec fn stopped_resume_accepts_of(
    target: TargetKey,
    refresh: bool,
    reply: Option<ReplyOk>,
    machine: Option<Machine>,
    proof_unchanged: bool,
) -> bool {
    match (resume_expected_of(target, refresh, reply), machine) {
        (Some(expected), Some(m)) => resumed_machine_matches_of(target, expected, m) && proof_unchanged,
        _ => false,
    }
}

/// Whether a stopped resume's worker hands its machine tree on (see
/// `stopped_resume_accepts_of`); `reply` is the daemon's reply to the
/// resume (`None` for an error, and not asked for a refresh), `machine`
/// the tree fetched afterwards, and `proof_unchanged` whether the
/// workspace's attachment proof is the lease's.
pub fn stopped_resume_accepts(
    target: &ResumeTarget,
    refresh: bool,
    reply: Option<ReplyOk>,
    machine: Option<&Machine>,
    proof_unchanged: bool,
) -> (ok: bool)
    ensures
        ok == stopped_resume_accepts_of(target@, refresh, reply, machine_view(machine), proof_unchanged),
{
    let expected = if refresh {
        None
    } else {
        match reply {
            Some(r) => match accepted_resume_reply(target, r) {
                Some(p) => Some(p),
                None => {
                    return false;
                },
            },
            None => {
                return false;
            },
        }
    };
    let m = match machine {
        Some(m) => m,
        None => {
            return false;
        },
    };
    resumed_machine_matches(target, expected, m) && proof_unchanged
}

/// What a finished resume does to the placeholder.
#[derive(Clone, Copy, Debug, PartialEq, Eq, Structural)]
pub enum ResumeLanding {
    /// The slot is unavailable.
    Unavailable,
    /// The target pane is still the stopped one: mark the resume
    /// unavailable and keep the slot.
    Unchanged,
    /// The slot now holds `pane`: rearm the placeholder on it, stopped or
    /// connecting.
    Rearm { pane: u64, stopped: bool },
}

/// What a finished resume does with the reconciled record of the slot: the
/// target pane itself can only leave the slot as it was, and only when it
/// has exited; a successor pane rearms the placeholder on it.
pub fn resume_landing(target_pane: u64, facts: &PaneRecord) -> (l: ResumeLanding)
    ensures
        l == (if facts.id == target_pane {
            if facts.exit is None {
                ResumeLanding::Unavailable
            } else {
                ResumeLanding::Unchanged
            }
        } else {
            ResumeLanding::Rearm { pane: facts.id, stopped: facts.exit is Some }
        }),
{
    if facts.id == target_pane {
        if facts.exit.is_none() {
            ResumeLanding::Unavailable
        } else {
            ResumeLanding::Unchanged
        }
    } else {
        ResumeLanding::Rearm { pane: facts.id, stopped: facts.exit.is_some() }
    }
}

/// A geometry-free copy of a tree: every ratio made zero.
pub open spec fn without_geometry(n: PaneNode) -> PaneNode
    decreases n,
{
    match n {
        PaneNode::Leaf { pane } => PaneNode::Leaf { pane },
        PaneNode::Split { axis, a, b, .. } => PaneNode::Split {
            axis,
            ratio: 0,
            a: Box::new(without_geometry(*a)),
            b: Box::new(without_geometry(*b)),
        },
    }
}

/// A pane's slot is its tree without geometry: two trees match slot for
/// slot exactly when they are equal once every ratio is set aside.
pub proof fn lemma_slots_are_layout_without_geometry(x: PaneNode, y: PaneNode)
    ensures
        slots_match(x, y) == (without_geometry(x) == without_geometry(y)),
    decreases x,
{
    match (x, y) {
        (PaneNode::Split { a: a1, b: b1, .. }, PaneNode::Split { a: a2, b: b2, .. }) => {
            lemma_slots_are_layout_without_geometry(*a1, *a2);
            lemma_slots_are_layout_without_geometry(*b1, *b2);
        },
        _ => {},
    }
}

// ------------------------------------------------------- sleep and resume

/// A terminal view, as the sleep and resume affordances see it.
#[derive(Clone, Copy, Debug, PartialEq, Eq, Structural)]
pub struct ViewFacts {
    /// The view belongs to this window's workspace.
    pub owned_here: bool,
    /// Its process has exited.
    pub exited: bool,
    /// It runs an ssh session.
    pub ssh: bool,
    pub pane: u64,
    pub host: HostId,
}

/// The client store's record of the window's workspace: its host, and for a
/// workspace on another machine, the workspace there.
#[derive(Clone, Copy, Debug, PartialEq, Eq, Structural)]
pub struct WorkspaceRecord {
    pub host: HostId,
    pub remote: Option<WorkspaceId>,
}

/// The workspace the host knows a window's workspace by.
pub open spec fn host_workspace(client: WorkspaceId, r: WorkspaceRecord) -> WorkspaceId {
    match r.remote {
        Some(w) => w,
        None => client,
    }
}

/// The slot a running view can be put to sleep from: the view is this
/// workspace's, still running and no ssh session; the workspace is recorded
/// on the view's host, whose machine is known; the pane runs its bound
/// session there; and the view fills exactly one leaf of the window
/// (`occurrences` holds the tab of each leaf that shows it), in the
/// target's tab.
pub open spec fn live_sleep_target_of(
    v: ViewFacts,
    record: Option<WorkspaceRecord>,
    client: WorkspaceId,
    machine: Option<Machine>,
    occurrences: Seq<TabId>,
) -> Option<TargetKey> {
    if !v.owned_here || v.exited || v.ssh {
        None
    } else {
        match (record, machine) {
            (Some(r), Some(m)) => if r.host != v.host {
                None
            } else {
                match bound_target_of(client, r.host, host_workspace(client, r), v.pane, m) {
                    Some(k) => if runs_bound_session(bound_record(m, v.pane), k.identity)
                        && occurrences.len() == 1 && occurrences[0] == k.tab {
                        Some(k)
                    } else {
                        None
                    },
                    None => None,
                }
            },
            _ => None,
        }
    }
}

/// The slot a stopped view can be resumed into: the view is this
/// workspace's, exited and no ssh session; the workspace is recorded on the
/// view's host, whose machine is known; the pane stopped plainly there; and
/// exactly one tab of the window shows the view (`tabs` holds each tab that
/// does), the target's tab.
pub open spec fn retained_candidate_of(
    v: ViewFacts,
    record: Option<WorkspaceRecord>,
    client: WorkspaceId,
    machine: Option<Machine>,
    tabs: Seq<TabId>,
) -> Option<TargetKey> {
    if !v.owned_here || !v.exited || v.ssh {
        None
    } else {
        match (record, machine) {
            (Some(r), Some(m)) => match bound_target_of(client, r.host, host_workspace(client, r), v.pane, m) {
                Some(k) => if stopped_plainly(bound_record(m, v.pane)) && r.host == v.host
                    && tabs.len() == 1 && tabs[0] == k.tab {
                    Some(k)
                } else {
                    None
                },
                None => None,
            },
            _ => None,
        }
    }
}

/// A machine, if any, as a plain value.
pub open spec fn machine_view(m: Option<&Machine>) -> Option<Machine> {
    match m {
        Some(x) => Some(*x),
        None => None,
    }
}

/// The slot a running view can be put to sleep from (see
/// `live_sleep_target_of`).
pub fn live_sleep_target(
    v: ViewFacts,
    record: Option<WorkspaceRecord>,
    client: WorkspaceId,
    machine: Option<&Machine>,
    occurrences: &[TabId],
) -> (target: Option<ResumeTarget>)
    ensures
        match target {
            Some(t) => live_sleep_target_of(v, record, client, machine_view(machine), occurrences@) == Some(t@),
            None => live_sleep_target_of(v, record, client, machine_view(machine), occurrences@) is None,
        },
{
    if !v.owned_here || v.exited || v.ssh {
        return None;
    }
    let r = match record {
        Some(r) => r,
        None => {
            return None;
        },
    };
    if r.host != v.host {
        return None;
    }
    let m = match machine {
        Some(m) => m,
        None => {
            return None;
        },
    };
    let ws = match r.remote {
        Some(w) => w,
        None => client,
    };
    let t = match ResumeTarget::from_live_machine(client, r.host, ws, v.pane, m) {
        Some(t) => t,
        None => {
            return None;
        },
    };
    if occurrences.len() == 1 && occurrences[0] == t.tab {
        Some(t)
    } else {
        None
    }
}

/// The slot a stopped view can be resumed into (see
/// `retained_candidate_of`).
pub fn retained_candidate(
    v: ViewFacts,
    record: Option<WorkspaceRecord>,
    client: WorkspaceId,
    machine: Option<&Machine>,
    tabs: &[TabId],
) -> (target: Option<ResumeTarget>)
    ensures
        match target {
            Some(t) => retained_candidate_of(v, record, client, machine_view(machine), tabs@) == Some(t@),
            None => retained_candidate_of(v, record, client, machine_view(machine), tabs@) is None,
        },
{
    if !v.owned_here || !v.exited || v.ssh {
        return None;
    }
    let r = match record {
        Some(r) => r,
        None => {
            return None;
        },
    };
    let m = match machine {
        Some(m) => m,
        None => {
            return None;
        },
    };
    let ws = match r.remote {
        Some(w) => w,
        None => client,
    };
    let t = match ResumeTarget::from_machine(client, r.host, ws, v.pane, m) {
        Some(t) => t,
        None => {
            return None;
        },
    };
    if t.host == v.host && tabs.len() == 1 && tabs[0] == t.tab {
        Some(t)
    } else {
        None
    }
}

/// A sleep request is still this window's: the workspace view is the one
/// it was made in, it is the pending request, and what it sleeps is what
/// the window would sleep now: the same members for a whole tab, the same
/// slot for one session.
pub open spec fn sleep_scope_current_of(
    same_epoch: bool,
    same_generation: bool,
    members: Option<Seq<MemberKey>>,
    plan_now: Option<Seq<MemberKey>>,
    target: TargetKey,
    live_now: Option<TargetKey>,
) -> bool {
    same_epoch && same_generation && match members {
        Some(ms) => match plan_now {
            Some(now) => same_members_of(ms, now),
            None => false,
        },
        None => match live_now {
            Some(now) => same_slot_of(now, target),
            None => false,
        },
    }
}

/// Two member lists name the same views drawing the same slots, in order.
pub open spec fn same_members_of(a: Seq<MemberKey>, b: Seq<MemberKey>) -> bool {
    a.len() == b.len() && forall|i: int|
        0 <= i < a.len() ==> (#[trigger] a[i]).entity == b[i].entity && same_slot_of(a[i].target, b[i].target)
}

/// The members of a plan, if any, as plain values.
pub open spec fn plan_view(p: Option<&TabSleepPlan>) -> Option<Seq<MemberKey>> {
    match p {
        Some(x) => Some(members_view(x.members@)),
        None => None,
    }
}

/// A target, if any, as a plain value.
pub open spec fn target_view(t: Option<&ResumeTarget>) -> Option<TargetKey> {
    match t {
        Some(x) => Some(x@),
        None => None,
    }
}

/// Whether a sleep request is still this window's (see
/// `sleep_scope_current_of`).
pub fn sleep_scope_current(
    same_epoch: bool,
    same_generation: bool,
    members: Option<&TabSleepPlan>,
    plan_now: Option<&TabSleepPlan>,
    target: &ResumeTarget,
    live_now: Option<&ResumeTarget>,
) -> (current: bool)
    ensures
        current == sleep_scope_current_of(
            same_epoch,
            same_generation,
            plan_view(members),
            plan_view(plan_now),
            target@,
            target_view(live_now),
        ),
{
    if !same_epoch || !same_generation {
        return false;
    }
    match members {
        Some(plan) => match plan_now {
            Some(now) => {
                let same = plan.same_members(now);
                proof {
                    let a = members_view(plan.members@);
                    let b = members_view(now.members@);
                    assert forall|i: int| 0 <= i < a.len() implies (#[trigger] a[i]) == plan.members@[i]@ by {}
                    assert forall|i: int| 0 <= i < b.len() implies (#[trigger] b[i]) == now.members@[i]@ by {}
                    if same {
                        assert forall|i: int| 0 <= i < a.len() implies (#[trigger] a[i]).entity == b[i].entity
                            && same_slot_of(a[i].target, b[i].target) by {
                            assert(plan.members@[i].entity == now.members@[i].entity);
                        }
                    } else if same_members_of(a, b) {
                        assert forall|j: int| 0 <= j < plan.members@.len() implies (#[trigger] plan.members@[j]).entity
                            == now.members@[j].entity && same_slot_of(plan.members@[j].target@, now.members@[j].target@) by {
                            assert(a[j].entity == b[j].entity);
                        }
                    }
                }
                same
            },
            None => false,
        },
        None => match live_now {
            Some(now) => now.same_slot(target),
            None => false,
        },
    }
}

/// What happens once the workspace lease for a sleep came back.
#[derive(Clone, Copy, Debug, PartialEq, Eq, Structural)]
pub enum SleepLeaseLanding {
    /// No lease and the request is no longer this window's: nothing.
    Quiet,
    /// No lease: the request ends, refused.
    Refused,
    /// Release the lease: the request, the link or the plan changed; the
    /// request ends refused when it is still this window's.
    Release { refused: bool },
    /// Keep the lease and send the sleep.
    Submit,
}

/// What happens once the workspace lease for a sleep came back: `scoped`
/// says the request is still this window's on the same link, and
/// `members_same` that a whole-tab plan still has the same members (true
/// for a single session).
pub fn sleep_lease_landing(acquired: bool, scoped: bool, members_same: bool) -> (l: SleepLeaseLanding)
    ensures
        l == (if !acquired {
            if scoped {
                SleepLeaseLanding::Refused
            } else {
                SleepLeaseLanding::Quiet
            }
        } else if !(scoped && members_same) {
            SleepLeaseLanding::Release { refused: scoped }
        } else {
            SleepLeaseLanding::Submit
        }),
{
    if !acquired {
        if scoped {
            SleepLeaseLanding::Refused
        } else {
            SleepLeaseLanding::Quiet
        }
    } else if !(scoped && members_same) {
        SleepLeaseLanding::Release { refused: scoped }
    } else {
        SleepLeaseLanding::Submit
    }
}

/// The daemon's reply to a sleep request.
pub enum SleepReply {
    Unit,
    TabSleep(SleepTabReply),
    /// Any other reply.
    Other,
}

/// Whether a whole-tab reply is valid for the panes of a plan.
pub open spec fn tab_reply_valid(panes: Seq<u64>, r: SleepTabReply) -> bool {
    valid_tab_sleep_reply_of(
        panes,
        r.accepted@,
        r.already_stopped@,
        match r.failed {
            Some(f) => Some(f.pane),
            None => None,
        },
    )
}

/// Whether a sleep was accepted, and the whole-tab reply kept for display.
pub struct SleepOutcome {
    pub accepted: bool,
    pub details: Option<SleepTabReply>,
}

/// The panes of a plan, in order.
pub fn plan_panes(plan: &TabSleepPlan) -> (panes: Vec<u64>)
    ensures
        panes@ == member_panes(members_view(plan.members@)),
{
    let mut panes: Vec<u64> = Vec::new();
    let mut i: usize = 0;
    while i < plan.members.len()
        invariant
            i <= plan.members@.len(),
            panes@ == member_panes(members_view(plan.members@)).take(i as int),
        decreases plan.members@.len() - i,
    {
        panes.push(plan.members[i].target.pane);
        i = i + 1;
        assert(panes@ =~= member_panes(members_view(plan.members@)).take(i as int));
    }
    assert(panes@ =~= member_panes(members_view(plan.members@)));
    panes
}

/// What a sleep reply means: a single session's sleep is accepted on a
/// unit reply; a whole tab's on a valid tab reply without a failure, whose
/// reply is kept either way; anything else, or no reply, is refused.
pub fn sleep_reply_outcome(members: Option<&TabSleepPlan>, reply: Option<SleepReply>) -> (out: SleepOutcome)
    ensures
        match (members, reply) {
            (None, Some(SleepReply::Unit)) => out.accepted && out.details is None,
            (Some(p), Some(SleepReply::TabSleep(r))) => if tab_reply_valid(member_panes(members_view(p.members@)), r) {
                out.accepted == (r.failed is None) && out.details == Some(r)
            } else {
                !out.accepted && out.details is None
            },
            _ => !out.accepted && out.details is None,
        },
{
    match (members, reply) {
        (None, Some(SleepReply::Unit)) => SleepOutcome { accepted: true, details: None },
        (Some(p), Some(SleepReply::TabSleep(r))) => {
            let panes = plan_panes(p);
            if valid_tab_sleep_reply(panes.as_slice(), &r) {
                let accepted = r.failed.is_none();
                SleepOutcome { accepted, details: Some(r) }
            } else {
                SleepOutcome { accepted: false, details: None }
            }
        },
        _ => SleepOutcome { accepted: false, details: None },
    }
}

/// The slot a member or a single sleep names is still there on a fresh
/// machine tree: the bound slot of its pane is the same slot and its pane
/// runs its session (or, when `stopped_ok`, has stopped plainly).
pub open spec fn still_there(t: TargetKey, m: Machine, stopped_ok: bool) -> bool {
    match bound_target_of(t.client_workspace, t.host, t.workspace, t.pane, m) {
        Some(k) => (runs_bound_session(bound_record(m, t.pane), k.identity) || (stopped_ok
            && stopped_plainly(bound_record(m, t.pane)))) && same_slot_of(k, t),
        None => false,
    }
}

/// What a sleep's refresh found: a whole tab is still there when every
/// member's slot is (running or stopped plainly); a single session when
/// its slot still runs its session.
pub open spec fn sleep_still_live_of(target: TargetKey, members: Option<Seq<MemberKey>>, m: Option<Machine>) -> bool {
    match m {
        None => false,
        Some(m) => match members {
            Some(ms) => forall|i: int| 0 <= i < ms.len() ==> still_there(#[trigger] ms[i].target, m, true),
            None => still_there(target, m, false),
        },
    }
}

/// Whether a target's slot is still there on a fresh machine tree (see
/// `still_there`).
fn target_still_there(t: &ResumeTarget, m: &Machine, stopped_ok: bool) -> (there: bool)
    ensures
        there == still_there(t@, *m, stopped_ok),
{
    let now = match ResumeTarget::from_live_machine(t.client_workspace, t.host, t.workspace, t.pane, m) {
        Some(now) => Some(now),
        None => if stopped_ok {
            ResumeTarget::from_machine(t.client_workspace, t.host, t.workspace, t.pane, m)
        } else {
            None
        },
    };
    match now {
        Some(now) => now.same_slot(t),
        None => false,
    }
}

/// What a sleep's refresh found (see `sleep_still_live_of`).
pub fn sleep_still_live(target: &ResumeTarget, members: Option<&TabSleepPlan>, machine: Option<&Machine>) -> (live: bool)
    ensures
        live == sleep_still_live_of(target@, plan_view(members), machine_view(machine)),
{
    let m = match machine {
        Some(m) => m,
        None => {
            return false;
        },
    };
    match members {
        None => target_still_there(target, m, false),
        Some(plan) => {
            let ghost ms = members_view(plan.members@);
            let mut i: usize = 0;
            while i < plan.members.len()
                invariant
                    i <= plan.members@.len(),
                    ms == members_view(plan.members@),
                    members == Some(plan),
                    machine == Some(m),
                    forall|j: int| 0 <= j < i ==> still_there(#[trigger] ms[j].target, *m, true),
                decreases plan.members@.len() - i,
            {
                assert(ms[i as int] == plan.members@[i as int]@);
                assert(ms[i as int].target == plan.members@[i as int].target@);
                if !target_still_there(&plan.members[i].target, m, true) {
                    return false;
                }
                i = i + 1;
            }
            true
        },
    }
}

/// What a finished sleep refresh does.
#[derive(Clone, Copy, Debug, PartialEq, Eq, Structural)]
pub enum SleepRefreshLanding {
    /// The request is no longer this window's, or the link changed.
    Ignore,
    /// The slot still runs: the sleep did not happen; drop the request.
    Clear,
    /// End the request refused and refresh the machine's mirror.
    Refused,
}

/// What a finished sleep refresh does.
pub fn sleep_refresh_landing(scoped_and_linked: bool, still_live: bool) -> (l: SleepRefreshLanding)
    ensures
        l == (if !scoped_and_linked {
            SleepRefreshLanding::Ignore
        } else if still_live {
            SleepRefreshLanding::Clear
        } else {
            SleepRefreshLanding::Refused
        }),
{
    if !scoped_and_linked {
        SleepRefreshLanding::Ignore
    } else if still_live {
        SleepRefreshLanding::Clear
    } else {
        SleepRefreshLanding::Refused
    }
}

/// What a pending sleep shows.
#[derive(Clone, Copy, Debug, PartialEq, Eq, Structural)]
pub enum SleepStatus {
    Working,
    AwaitingExit,
    Unknown,
    /// A whole tab's sleep stopped part way: how many panes it put to sleep
    /// and how many were already stopped.
    Partial { accepted: usize, stopped: usize },
}

/// What a pending sleep shows: a whole tab's failed reply, once no longer
/// busy, as a partial sleep; else working while busy, awaiting the exit
/// once accepted, and unknown otherwise.
pub fn sleep_status(busy: bool, accepted: bool, tab_reply: Option<&SleepTabReply>) -> (st: SleepStatus)
    ensures
        st == (match tab_reply {
            Some(r) if r.failed is Some && !busy => SleepStatus::Partial {
                accepted: r.accepted@.len() as usize,
                stopped: r.already_stopped@.len() as usize,
            },
            _ => if busy {
                SleepStatus::Working
            } else if accepted {
                SleepStatus::AwaitingExit
            } else {
                SleepStatus::Unknown
            },
        }),
{
    match tab_reply {
        Some(r) => {
            if r.failed.is_some() && !busy {
                return SleepStatus::Partial { accepted: r.accepted.len(), stopped: r.already_stopped.len() };
            }
        },
        None => {},
    }
    if busy {
        SleepStatus::Working
    } else if accepted {
        SleepStatus::AwaitingExit
    } else {
        SleepStatus::Unknown
    }
}

/// A sleep under way that is still this window's, on the same link.
#[derive(Clone, Copy, Debug, PartialEq, Eq, Structural)]
pub struct PendingSleep {
    pub busy: bool,
    /// It sleeps a whole tab.
    pub whole_tab: bool,
    /// It is about what the button is for: this tab, or this slot.
    pub ours: bool,
}

/// A sleep button: whether it refreshes the pending sleep (rather than
/// starting one), and whether it is disabled.
#[derive(Clone, Copy, Debug, PartialEq, Eq, Structural)]
pub struct SleepButton {
    pub refresh: bool,
    pub disabled: bool,
}

/// The whole-tab sleep button: it refreshes this tab's own pending sleep;
/// it is disabled while a sleep is busy or another one is pending, or when
/// there is nothing to refresh and no plan with a running member.
pub fn tab_sleep_button(plan_ready: bool, pending: Option<PendingSleep>) -> (b: SleepButton)
    ensures
        b.refresh == (pending matches Some(p) && p.whole_tab && p.ours),
        b.disabled == ((pending matches Some(p) && (p.busy || !(p.whole_tab && p.ours))) || (!b.refresh
            && !plan_ready)),
{
    let own = match pending {
        Some(p) => p.whole_tab && p.ours,
        None => false,
    };
    let busy_or_foreign = match pending {
        Some(p) => p.busy || !own,
        None => false,
    };
    SleepButton { refresh: own, disabled: busy_or_foreign || (!own && !plan_ready) }
}

/// The single-session sleep button: hidden while a whole tab's sleep is
/// pending; it refreshes the pending sleep of this slot, and is disabled
/// while a sleep is busy or one of another slot is pending.
pub fn session_sleep_button(pending: Option<PendingSleep>) -> (b: Option<SleepButton>)
    ensures
        match pending {
            Some(p) if p.whole_tab => b is None,
            Some(p) => b == Some(SleepButton { refresh: p.ours, disabled: p.busy || !p.ours }),
            None => b == Some(SleepButton { refresh: false, disabled: false }),
        },
{
    match pending {
        Some(p) => if p.whole_tab {
            None
        } else {
            Some(SleepButton { refresh: p.ours, disabled: p.busy || !p.ours })
        },
        None => Some(SleepButton { refresh: false, disabled: false }),
    }
}

/// A resume under way on a stopped placeholder.
#[derive(Clone, Copy, Debug, PartialEq, Eq, Structural)]
pub struct ResumeUiState {
    pub generation: u64,
    pub action: RecoveryAction,
    pub busy: bool,
}

/// The recovery state of a stopped pane's placeholder.
#[derive(Clone, Copy, Debug, PartialEq, Eq, Structural)]
pub struct Placeholder {
    pub resume: Option<ResumeUiState>,
    pub resume_unavailable: bool,
    pub output_unavailable: bool,
}

impl Placeholder {
    /// The request of generation `generation` could not be carried out:
    /// an output replay ends and marks the output unavailable; a resume or
    /// refresh stays, no longer busy. A placeholder whose request is of
    /// another generation is left as it is.
    pub fn unavailable(&mut self, generation: u64)
        ensures
            match old(self).resume {
                Some(s) if s.generation == generation => if s.action == RecoveryAction::Output {
                    *final(self) == Placeholder {
                        resume: None,
                        output_unavailable: true,
                        ..*old(self)
                    }
                } else {
                    *final(self) == Placeholder {
                        resume: Some(ResumeUiState { busy: false, ..s }),
                        ..*old(self)
                    }
                },
                _ => *final(self) == *old(self),
            },
    {
        match self.resume {
            Some(s) => if s.generation == generation {
                if s.action == RecoveryAction::Output {
                    self.resume = None;
                    self.output_unavailable = true;
                } else {
                    self.resume = Some(ResumeUiState { busy: false, ..s });
                }
            },
            None => {},
        }
    }

    /// The request of generation `generation` is withdrawn: the resume ends
    /// and is marked unavailable. A placeholder whose request is of another
    /// generation is left as it is.
    pub fn cancel_presentation(&mut self, generation: u64)
        ensures
            match old(self).resume {
                Some(s) if s.generation == generation => *final(self) == Placeholder {
                    resume: None,
                    resume_unavailable: true,
                    ..*old(self)
                },
                _ => *final(self) == *old(self),
            },
    {
        match self.resume {
            Some(s) => if s.generation == generation {
                self.resume = None;
                self.resume_unavailable = true;
            },
            None => {},
        }
    }
}

} // verus!
