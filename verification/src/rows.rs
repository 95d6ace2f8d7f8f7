//! Rows of the session navigator and the decisions taken on them: which
//! rows are one session, which live row an activation focuses, whether a
//! captured close token still names the same carrier, and how a reorder of
//! the list's units is checked.
use vstd::prelude::*;
use vstd::string::*;

use std::collections::HashSet;

use crate::ids::NavigatorRowId;
use crate::nav::{
    units_view, SessionNavigatorScope, SessionReorderUnit, SessionRefreshIntent,
    SessionViewportProjection,
};
use crate::seqs::{
    concat_all, first_index, first_where, lemma_first_index_absent, lemma_first_index_found, lemma_first_index_meaning,
    lemma_first_where_absent, lemma_first_where_found, lemma_first_where_meaning,
};
use crate::strip::{trim, trim_chars};
use crate::text::{chars_of, str_eq};
use crate::tray::CliAgent;

verus! {

/// Who a session is: a provider's own session id, or, before the provider
/// has named it, the durable id of the container that runs it.
#[derive(Debug, PartialEq, Eq)]
pub enum SessionIdentity {
    Provider { provider: String, session_id: String },
    Durable(String),
}

/// A session identity as plain values.
pub enum IdentityView {
    Provider(Seq<char>, Seq<char>),
    Durable(Seq<char>),
}

impl View for SessionIdentity {
    type V = IdentityView;

    open spec fn view(&self) -> IdentityView {
        match self {
            SessionIdentity::Provider { provider, session_id } => IdentityView::Provider(
                provider@,
                session_id@,
            ),
            SessionIdentity::Durable(id) => IdentityView::Durable(id@),
        }
    }
}

impl Clone for SessionIdentity {
    fn clone(&self) -> (copy: Self)
        ensures
            copy == *self,
    {
        match self {
            SessionIdentity::Provider { provider, session_id } => SessionIdentity::Provider {
                provider: provider.clone(),
                session_id: session_id.clone(),
            },
            SessionIdentity::Durable(id) => SessionIdentity::Durable(id.clone()),
        }
    }
}

pub fn same_identity(a: &SessionIdentity, b: &SessionIdentity) -> (same: bool)
    ensures
        same == (a@ == b@),
{
    match (a, b) {
        (
            SessionIdentity::Provider { provider: p1, session_id: s1 },
            SessionIdentity::Provider { provider: p2, session_id: s2 },
        ) => str_eq(p1.as_str(), p2.as_str()) && str_eq(s1.as_str(), s2.as_str()),
        (SessionIdentity::Durable(a), SessionIdentity::Durable(b)) => str_eq(a.as_str(), b.as_str()),
        _ => false,
    }
}

/// An optional string as plain values.
pub open spec fn opt_view(o: Option<String>) -> Option<Seq<char>> {
    match o {
        Some(s) => Some(s@),
        None => None,
    }
}

pub fn clone_opt(o: &Option<String>) -> (copy: Option<String>)
    ensures
        copy == *o,
{
    match o {
        Some(s) => Some(s.clone()),
        None => None,
    }
}

pub fn same_opt(a: &Option<String>, b: &Option<String>) -> (same: bool)
    ensures
        same == (opt_view(*a) == opt_view(*b)),
{
    match (a, b) {
        (Some(x), Some(y)) => str_eq(x.as_str(), y.as_str()),
        (None, None) => true,
        _ => false,
    }
}

/// Where a live session runs: its container, and the tab and pane that hold it.
#[derive(Debug, PartialEq, Eq)]
pub struct LiveCarrier {
    pub container_id: String,
    pub tab_id: Option<String>,
    pub pane_id: Option<u64>,
}

/// A carrier as plain values.
pub struct CarrierView {
    pub container_id: Seq<char>,
    pub tab_id: Option<Seq<char>>,
    pub pane_id: Option<u64>,
}

impl View for LiveCarrier {
    type V = CarrierView;

    open spec fn view(&self) -> CarrierView {
        CarrierView { container_id: self.container_id@, tab_id: opt_view(self.tab_id), pane_id: self.pane_id }
    }
}

impl Clone for LiveCarrier {
    fn clone(&self) -> (copy: Self)
        ensures
            copy == *self,
    {
        LiveCarrier {
            container_id: self.container_id.clone(),
            tab_id: clone_opt(&self.tab_id),
            pane_id: self.pane_id,
        }
    }
}

pub fn same_carrier(a: &LiveCarrier, b: &LiveCarrier) -> (same: bool)
    ensures
        same == (a@ == b@),
{
    str_eq(a.container_id.as_str(), b.container_id.as_str()) && same_opt(&a.tab_id, &b.tab_id)
        && a.pane_id == b.pane_id
}

/// An optional carrier as plain values.
pub open spec fn carrier_opt_view(o: Option<LiveCarrier>) -> Option<CarrierView> {
    match o {
        Some(c) => Some(c@),
        None => None,
    }
}

/// Where a row is in its life: only known from history, being restored, or
/// running in a pane.
#[derive(Clone, Copy, Debug, PartialEq, Eq, Structural)]
pub enum RowLifecycle {
    Virtual,
    Restoring,
    Live,
}

/// One row of the session navigator, as far as these decisions read it.
#[derive(Debug, PartialEq, Eq)]
pub struct NavigatorRow {
    pub row_id: NavigatorRowId,
    pub identity: SessionIdentity,
    pub agent: CliAgent,
    pub session_id: Option<String>,
    pub lifecycle: RowLifecycle,
    pub carrier: Option<LiveCarrier>,
}

impl Clone for NavigatorRow {
    fn clone(&self) -> (copy: Self)
        ensures
            copy == *self,
    {
        NavigatorRow {
            row_id: self.row_id,
            identity: self.identity.clone(),
            agent: self.agent,
            session_id: clone_opt(&self.session_id),
            lifecycle: self.lifecycle,
            carrier: match &self.carrier {
                Some(c) => Some(c.clone()),
                None => None,
            },
        }
    }
}

/// Two rows are one session when they are the same row, carry the same
/// identity, or name the same provider session of the same agent.
pub open spec fn share_session(a: NavigatorRow, b: NavigatorRow) -> bool {
    a.row_id == b.row_id || a.identity@ == b.identity@ || (a.session_id is Some
        && b.session_id is Some && opt_view(a.session_id) == opt_view(b.session_id) && a.agent
        == b.agent)
}

pub fn navigator_rows_share_session(a: &NavigatorRow, b: &NavigatorRow) -> (same: bool)
    ensures
        same == share_session(*a, *b),
{
    if a.row_id == b.row_id || same_identity(&a.identity, &b.identity) {
        return true;
    }
    match (&a.session_id, &b.session_id) {
        (Some(x), Some(y)) => str_eq(x.as_str(), y.as_str()) && a.agent == b.agent,
        _ => false,
    }
}

/// A live row, in a pane, of the same session as `target`.
pub open spec fn live_twin(row: NavigatorRow, target: NavigatorRow) -> bool {
    row.lifecycle == RowLifecycle::Live && row.carrier is Some && share_session(row, target)
}

/// The first live row of `target`'s session.
pub open spec fn first_live_twin(rows: Seq<NavigatorRow>, target: NavigatorRow) -> Option<int> {
    first_where(rows, |r: NavigatorRow| live_twin(r, target))
}

/// The live row an activation of `target` focuses instead of restoring it:
/// only a row without a carrier of its own is redirected, and then to the
/// first live row of its session.
pub fn live_carrier_row_for_activation<'a>(rows: &'a [NavigatorRow], target: &NavigatorRow) -> (live:
    Option<&'a NavigatorRow>)
    ensures
        target.carrier is Some ==> live is None,
        target.carrier is None ==> match first_live_twin(rows@, *target) {
            Some(i) => live matches Some(r) && *r == rows@[i],
            None => live is None,
        },
{
    if target.carrier.is_some() {
        return None;
    }
    let mut i: usize = 0;
    while i < rows.len()
        invariant
            i <= rows@.len(),
            target.carrier is None,
            forall|j: int| 0 <= j < i ==> !live_twin(#[trigger] rows@[j], *target),
        decreases rows@.len() - i,
    {
        let row = &rows[i];
        if row.lifecycle == RowLifecycle::Live && row.carrier.is_some()
            && navigator_rows_share_session(row, target) {
            proof {
                lemma_first_where_found(rows@, |r: NavigatorRow| live_twin(r, *target), i as int);
            }
            return Some(row);
        }
        i = i + 1;
    }
    proof {
        lemma_first_where_absent(rows@, |r: NavigatorRow| live_twin(r, *target));
    }
    None
}

/// The first row named `id`.
pub open spec fn row_named(rows: Seq<NavigatorRow>, id: NavigatorRowId) -> Option<int> {
    first_where(rows, |r: NavigatorRow| r.row_id == id)
}

/// The position of the row named `id`.
pub fn find_row(rows: &[NavigatorRow], id: NavigatorRowId) -> (at: Option<usize>)
    ensures
        at matches Some(i) ==> row_named(rows@, id) == Some(i as int),
        at is None ==> row_named(rows@, id) is None,
{
    let mut i: usize = 0;
    while i < rows.len()
        invariant
            i <= rows@.len(),
            forall|j: int| 0 <= j < i ==> (#[trigger] rows@[j]).row_id != id,
        decreases rows@.len() - i,
    {
        if rows[i].row_id == id {
            proof {
                lemma_first_where_found(rows@, |r: NavigatorRow| r.row_id == id, i as int);
            }
            return Some(i);
        }
        i = i + 1;
    }
    proof {
        lemma_first_where_absent(rows@, |r: NavigatorRow| r.row_id == id);
    }
    None
}

/// The row a lookup by id finds is in the list and has that id.
pub proof fn lemma_row_named(rows: Seq<NavigatorRow>, id: NavigatorRowId)
    ensures
        row_named(rows, id) matches Some(i) ==> 0 <= i < rows.len() && rows[i].row_id == id,
{
    lemma_first_where_meaning(rows, |r: NavigatorRow| r.row_id == id);
}

// ------------------------------------------------------------ close tokens

/// What a Close or Close-and-Delete captured before asking the user: the
/// scope, the row, its identity and the carrier that was going to close.
#[derive(Debug, PartialEq, Eq)]
pub struct CarrierCloseToken {
    pub scope: SessionNavigatorScope,
    pub row_id: NavigatorRowId,
    pub identity: SessionIdentity,
    pub carrier: LiveCarrier,
}

/// A token for `row` under `scope`: only a row in a carrier has one.
pub fn carrier_token_for_row(row: &NavigatorRow, scope: SessionNavigatorScope) -> (token: Option<
    CarrierCloseToken,
>)
    ensures
        row.carrier is None ==> token is None,
        row.carrier matches Some(c) ==> (token matches Some(t) && t.scope@ == scope@ && t.row_id
            == row.row_id && t.identity == row.identity && t.carrier == c),
{
    match &row.carrier {
        Some(carrier) => Some(
            CarrierCloseToken {
                scope,
                row_id: row.row_id,
                identity: row.identity.clone(),
                carrier: carrier.clone(),
            },
        ),
        None => None,
    }
}

/// A token still holds when its scope is still the window's scope and its
/// row still carries the same identity in the same carrier.
pub open spec fn token_current(token: CarrierCloseToken, scope_current: bool, rows: Seq<NavigatorRow>) -> bool {
    scope_current && match row_named(rows, token.row_id) {
        Some(i) => rows[i].identity@ == token.identity@ && carrier_opt_view(rows[i].carrier) == Some(
            token.carrier@,
        ),
        None => false,
    }
}

/// Whether a captured token may still act. `scope_current` says whether the
/// token's scope is the window's current scope.
pub fn carrier_token_is_current(token: &CarrierCloseToken, scope_current: bool, rows: &[NavigatorRow]) -> (current:
    bool)
    ensures
        current == token_current(*token, scope_current, rows@),
{
    if !scope_current {
        return false;
    }
    proof {
        lemma_row_named(rows@, token.row_id);
    }
    match find_row(rows, token.row_id) {
        Some(i) => {
            let row = &rows[i];
            same_identity(&row.identity, &token.identity) && match &row.carrier {
                Some(c) => same_carrier(c, &token.carrier),
                None => false,
            }
        },
        None => false,
    }
}

/// The token a soft Close captures: only for a row that is live or being
/// restored, and that has a carrier.
pub fn soft_close_token(rows: &[NavigatorRow], row_id: NavigatorRowId, scope: SessionNavigatorScope) -> (token:
    Option<CarrierCloseToken>)
    ensures
        match row_named(rows@, row_id) {
            Some(i) => {
                let row = rows@[i];
                if (row.lifecycle == RowLifecycle::Live || row.lifecycle == RowLifecycle::Restoring)
                    && row.carrier is Some {
                    token matches Some(t) && t.scope@ == scope@ && t.row_id == row_id && t.identity
                        == row.identity && Some(t.carrier) == row.carrier
                } else {
                    token is None
                }
            },
            None => token is None,
        },
{
    proof {
        lemma_row_named(rows@, row_id);
    }
    let i = match find_row(rows, row_id) {
        Some(i) => i,
        None => return None,
    };
    let row = &rows[i];
    if row.lifecycle != RowLifecycle::Live && row.lifecycle != RowLifecycle::Restoring {
        return None;
    }
    carrier_token_for_row(row, scope)
}

/// How closing a carrier went.
#[derive(Clone, Copy, Debug, PartialEq, Eq, Structural)]
pub enum CarrierCloseOutcome {
    NeedsSshConfirmation,
    Stale,
    Missing,
    Closed,
}

/// What a pending Close or Close-and-Delete does next.
#[derive(Clone, Copy, Debug, PartialEq, Eq, Structural)]
pub enum CarrierStep {
    /// The token no longer names the carrier: tell the user, change nothing.
    NotifyStale,
    /// The pane is on an SSH host: keep the action pending until confirmed.
    AwaitSshConfirmation,
    /// Closed: hand the row off and rescan passively.
    HandOffThenRefresh,
    /// Closed: hand the row off and run the captured delete.
    HandOffThenDelete,
}

/// The next step of a pending carrier action. A stale token never reaches
/// the close; `outcome` is what closing the carrier reported.
pub open spec fn carrier_step_of(token_current: bool, outcome: CarrierCloseOutcome, and_delete: bool) -> CarrierStep {
    if !token_current {
        CarrierStep::NotifyStale
    } else {
        match outcome {
            CarrierCloseOutcome::NeedsSshConfirmation => CarrierStep::AwaitSshConfirmation,
            CarrierCloseOutcome::Stale | CarrierCloseOutcome::Missing => CarrierStep::NotifyStale,
            CarrierCloseOutcome::Closed => if and_delete {
                CarrierStep::HandOffThenDelete
            } else {
                CarrierStep::HandOffThenRefresh
            },
        }
    }
}

pub fn pending_carrier_step(token_current: bool, outcome: CarrierCloseOutcome, and_delete: bool) -> (step:
    CarrierStep)
    ensures
        step == carrier_step_of(token_current, outcome, and_delete),
{
    if !token_current {
        return CarrierStep::NotifyStale;
    }
    match outcome {
        CarrierCloseOutcome::NeedsSshConfirmation => CarrierStep::AwaitSshConfirmation,
        CarrierCloseOutcome::Stale | CarrierCloseOutcome::Missing => CarrierStep::NotifyStale,
        CarrierCloseOutcome::Closed => if and_delete {
            CarrierStep::HandOffThenDelete
        } else {
            CarrierStep::HandOffThenRefresh
        },
    }
}

/// A stale token never closes or deletes anything, whatever the close
/// would have reported.
pub proof fn lemma_stale_token_never_mutates(outcome: CarrierCloseOutcome, and_delete: bool)
    ensures
        carrier_step_of(false, outcome, and_delete) == CarrierStep::NotifyStale,
{
}

// -------------------------------------------------------------- activation

/// What activating a row does.
#[derive(Clone, Copy, Debug, PartialEq, Eq, Structural)]
pub enum ActivationStep {
    /// Focus the tab at this position.
    FocusTab(usize),
    /// The row's carrier tab is gone: tell the user.
    CarrierMissing,
    /// Restore the activated row into a new tab.
    Restore,
}

/// The row to select and what to do after an activation.
#[derive(Clone, Copy, Debug, PartialEq, Eq, Structural)]
pub struct ActivationPlan {
    pub selected: NavigatorRowId,
    pub step: ActivationStep,
}

/// The tab ids as plain values.
pub open spec fn strings_view(strings: Seq<String>) -> Seq<Seq<char>> {
    strings.map_values(|s: String| s@)
}

/// The position of `tab`, when there is one, among the window's tabs.
pub open spec fn tab_position(tabs: Seq<Seq<char>>, tab: Option<Seq<char>>) -> Option<int> {
    match tab {
        Some(t) => first_index(tabs, t),
        None => None,
    }
}

/// What activating `row_id` does in a window whose tabs have the ids `tabs`.
/// A row in a carrier focuses its tab, or reports the tab missing. A row
/// without one focuses the tab of a live row of the same session when it
/// can, selecting that row; otherwise the activated row is restored.
pub open spec fn activation_of(rows: Seq<NavigatorRow>, row_id: NavigatorRowId, tabs: Seq<Seq<char>>) -> Option<
    ActivationPlan,
> {
    match row_named(rows, row_id) {
        None => None,
        Some(i) => {
            let row = rows[i];
            match row.carrier {
                Some(c) => Some(
                    match tab_position(tabs, opt_view(c.tab_id)) {
                        Some(k) => ActivationPlan { selected: row_id, step: ActivationStep::FocusTab(k as usize) },
                        None => ActivationPlan { selected: row_id, step: ActivationStep::CarrierMissing },
                    },
                ),
                None => {
                    let live = match first_live_twin(rows, row) {
                        Some(j) => match rows[j].carrier {
                            Some(c) => match c.tab_id {
                                Some(t) => Some((rows[j].row_id, t@)),
                                None => None,
                            },
                            None => None,
                        },
                        None => None,
                    };
                    Some(
                        match live {
                            Some((live_id, t)) => match first_index(tabs, t) {
                                Some(k) => ActivationPlan { selected: live_id, step: ActivationStep::FocusTab(k as usize) },
                                None => ActivationPlan { selected: live_id, step: ActivationStep::Restore },
                            },
                            None => ActivationPlan { selected: row_id, step: ActivationStep::Restore },
                        },
                    )
                },
            }
        },
    }
}

/// `row` sits in a carrier whose tab has the id `tab`.
pub open spec fn carries_tab(row: NavigatorRow, tab: Seq<char>) -> bool {
    match row.carrier {
        Some(c) => match c.tab_id {
            Some(t) => t@ == tab,
            None => false,
        },
        None => false,
    }
}

/// Some tab of `tabs` is the one `row` sits in.
pub open spec fn tab_among(row: NavigatorRow, tabs: Seq<Seq<char>>) -> bool {
    exists|m: int| 0 <= m < tabs.len() && carries_tab(row, #[trigger] tabs[m])
}

/// What an activation of `row_id` must come to, read against the rows and
/// tabs it was made from. There is a plan exactly when some row has the
/// activated id. Focusing the tab at `k` means that tab is the first with
/// the id of the tab that a row named by the selection sits in. For the
/// activated row (the first with its id): in a carrier, it stays selected
/// and its tab is focused, or reported missing when no tab is the one it
/// sits in; not in a carrier, it is never reported missing, and the first
/// live row of its session in a tab is selected instead, its tab focused
/// when present and the activated row restored when not; with no such live
/// row the activated row is restored.
pub open spec fn activation_follows_the_rows(
    rows: Seq<NavigatorRow>,
    row_id: NavigatorRowId,
    tabs: Seq<Seq<char>>,
    plan: Option<ActivationPlan>,
) -> bool {
    &&& plan is None <==> forall|j: int| 0 <= j < rows.len() ==> (#[trigger] rows[j]).row_id != row_id
    &&& plan matches Some(p) ==> match p.step {
        ActivationStep::FocusTab(k) => {
            &&& k < tabs.len()
            &&& exists|j: int|
                0 <= j < rows.len() && (#[trigger] rows[j]).row_id == p.selected && carries_tab(rows[j], tabs[k as int])
            &&& forall|m: int| 0 <= m < k ==> #[trigger] tabs[m] != tabs[k as int]
        },
        ActivationStep::CarrierMissing => p.selected == row_id,
        ActivationStep::Restore => true,
    }
    &&& plan matches Some(p) ==> match row_named(rows, row_id) {
        Some(i) => match rows[i].carrier {
            Some(_) => {
                &&& p.selected == row_id
                &&& (p.step is FocusTab <==> tab_among(rows[i], tabs))
                &&& (p.step is CarrierMissing <==> !tab_among(rows[i], tabs))
            },
            None => match first_live_twin(rows, rows[i]) {
                Some(j) => {
                    &&& rows[j].lifecycle == RowLifecycle::Live
                    &&& share_session(rows[j], rows[i])
                    &&& !(p.step is CarrierMissing)
                    &&& (p.step is FocusTab <==> tab_among(rows[j], tabs))
                    &&& (rows[j].carrier matches Some(c) && c.tab_id is Some ==> p.selected == rows[j].row_id)
                    &&& (rows[j].carrier matches Some(c) && c.tab_id is None ==> p.selected == row_id)
                },
                None => p == ActivationPlan { selected: row_id, step: ActivationStep::Restore },
            },
        },
        None => false,
    }
}

/// Every activation follows the rows and tabs it was made from, as
/// `activation_follows_the_rows` spells out: in particular, a focused tab is
/// always the tab that the selected row sits in.
pub proof fn lemma_activation_focuses_the_selected_rows_tab(
    rows: Seq<NavigatorRow>,
    row_id: NavigatorRowId,
    tabs: Seq<Seq<char>>,
)
    requires
        tabs.len() <= usize::MAX,
    ensures
        activation_follows_the_rows(rows, row_id, tabs, activation_of(rows, row_id, tabs)),
{
    lemma_first_where_meaning(rows, |r: NavigatorRow| r.row_id == row_id);
    match row_named(rows, row_id) {
        None => {},
        Some(i) => {
            let row = rows[i];
            match row.carrier {
                Some(c) => {
                    match c.tab_id {
                        Some(t) => {
                            lemma_first_index_meaning(tabs, t@);
                            match first_index(tabs, t@) {
                                Some(k) => {
                                    assert((k as usize) as int == k);
                                    assert(carries_tab(rows[i], tabs[k]));
                                },
                                None => {
                                    assert forall|m: int| 0 <= m < tabs.len() implies !carries_tab(
                                        rows[i],
                                        #[trigger] tabs[m],
                                    ) by {
                                        if tabs[m] == t@ {
                                            assert(tabs.contains(t@));
                                        }
                                    }
                                },
                            }
                        },
                        None => {},
                    }
                },
                None => {
                    lemma_first_where_meaning(rows, |r: NavigatorRow| live_twin(r, row));
                    match first_live_twin(rows, row) {
                        Some(j) => {
                            match rows[j].carrier {
                                Some(c) => match c.tab_id {
                                    Some(t) => {
                                        lemma_first_index_meaning(tabs, t@);
                                        match first_index(tabs, t@) {
                                            Some(k) => {
                                                assert((k as usize) as int == k);
                                                assert(carries_tab(rows[j], tabs[k]));
                                            },
                                            None => {
                                                assert forall|m: int| 0 <= m < tabs.len() implies !carries_tab(
                                                    rows[j],
                                                    #[trigger] tabs[m],
                                                ) by {
                                                    if tabs[m] == t@ {
                                                        assert(tabs.contains(t@));
                                                    }
                                                }
                                            },
                                        }
                                    },
                                    None => {},
                                },
                                None => {},
                            }
                        },
                        None => {},
                    }
                },
            }
        },
    }
}

/// The position of `t` among `tabs`.
pub fn position_str(tabs: &[String], t: &str) -> (at: Option<usize>)
    ensures
        at matches Some(i) ==> first_index(strings_view(tabs@), t@) == Some(i as int),
        at is None ==> first_index(strings_view(tabs@), t@) is None,
{
    let ghost v = strings_view(tabs@);
    let mut i: usize = 0;
    while i < tabs.len()
        invariant
            i <= tabs@.len(),
            v == strings_view(tabs@),
            v.len() == tabs@.len(),
            forall|j: int| 0 <= j < i ==> #[trigger] v[j] != t@,
        decreases tabs@.len() - i,
    {
        assert(v[i as int] == tabs@[i as int]@);
        if str_eq(tabs[i].as_str(), t) {
            proof {
                lemma_first_index_found(v, t@, i as int);
            }
            return Some(i);
        }
        i = i + 1;
    }
    proof {
        assert forall|j: int| 0 <= j < v.len() implies #[trigger] v[j] != t@ by {}
        if v.contains(t@) {
            let j = choose|j: int| 0 <= j < v.len() && v[j] == t@;
            assert(v[j] != t@);
        }
        lemma_first_index_absent(v, t@);
    }
    None
}

fn tab_position_exec(tabs: &[String], tab: &Option<String>) -> (at: Option<usize>)
    ensures
        at matches Some(i) ==> tab_position(strings_view(tabs@), opt_view(*tab)) == Some(i as int),
        at is None ==> tab_position(strings_view(tabs@), opt_view(*tab)) is None,
{
    match tab {
        Some(t) => position_str(tabs, t.as_str()),
        None => None,
    }
}

/// What activating `row_id` does; `tabs` are the ids of the window's tabs.
pub fn activation_plan(rows: &[NavigatorRow], row_id: NavigatorRowId, tabs: &[String]) -> (plan: Option<
    ActivationPlan,
>)
    ensures
        plan == activation_of(rows@, row_id, strings_view(tabs@)),
        activation_follows_the_rows(rows@, row_id, strings_view(tabs@), plan),
{
    let tab_count: usize = tabs.len();
    proof {
        lemma_row_named(rows@, row_id);
        assert(strings_view(tabs@).len() == tab_count);
        lemma_activation_focuses_the_selected_rows_tab(rows@, row_id, strings_view(tabs@));
    }
    let i = match find_row(rows, row_id) {
        Some(i) => i,
        None => return None,
    };
    let row = &rows[i];
    match &row.carrier {
        Some(c) => {
            match tab_position_exec(tabs, &c.tab_id) {
                Some(k) => Some(ActivationPlan { selected: row_id, step: ActivationStep::FocusTab(k) }),
                None => Some(ActivationPlan { selected: row_id, step: ActivationStep::CarrierMissing }),
            }
        },
        None => {
            proof {
                lemma_first_where_meaning(rows@, |r: NavigatorRow| live_twin(r, rows@[i as int]));
            }
            let live = live_carrier_row_for_activation(rows, row);
            let twin: Option<(NavigatorRowId, &String)> = match live {
                Some(l) => match &l.carrier {
                    Some(c) => match &c.tab_id {
                        Some(t) => Some((l.row_id, t)),
                        None => None,
                    },
                    None => None,
                },
                None => None,
            };
            match twin {
                Some((live_id, t)) => match position_str(tabs, t.as_str()) {
                    Some(k) => Some(ActivationPlan { selected: live_id, step: ActivationStep::FocusTab(k) }),
                    None => Some(ActivationPlan { selected: live_id, step: ActivationStep::Restore }),
                },
                None => Some(ActivationPlan { selected: row_id, step: ActivationStep::Restore }),
            }
        },
    }
}

// ------------------------------------------------------------------ reorder

/// A drag-reorder of the list's units: a permutation of their positions
/// that moves something.
pub open spec fn valid_unit_order(order: Seq<usize>, n: nat) -> bool {
    &&& order.len() == n
    &&& forall|k: int| 0 <= k < n ==> #[trigger] order[k] < n
    &&& order.no_duplicates()
    &&& !(forall|k: int| 0 <= k < n ==> #[trigger] order[k] == k)
}

/// The rows in the order the reorder asks for, unit after unit.
pub open spec fn reordered_rows_of(order: Seq<usize>, units: Seq<Seq<NavigatorRowId>>) -> Seq<NavigatorRowId> {
    concat_all(Seq::new(order.len(), |k: int| units[order[k] as int]))
}

/// The row order a drag asks for, or `None` when the order is not a
/// permutation of the units or moves nothing.
pub fn reorder_rows_for(order: &[usize], units: &Vec<SessionReorderUnit>) -> (rows: Option<Vec<NavigatorRowId>>)
    ensures
        valid_unit_order(order@, units@.len()) ==> (rows matches Some(r) && r@ == reordered_rows_of(
            order@,
            units_view(units@),
        )),
        !valid_unit_order(order@, units@.len()) ==> rows is None,
{
    let n = units.len();
    if order.len() != n {
        return None;
    }
    let mut k: usize = 0;
    let mut moved = false;
    while k < n
        invariant
            order@.len() == n,
            k <= n,
            forall|j: int| 0 <= j < k ==> #[trigger] order@[j] < n,
            moved == exists|j: int| 0 <= j < k && #[trigger] order@[j] != j,
        decreases n - k,
    {
        if order[k] >= n {
            return None;
        }
        if order[k] != k {
            moved = true;
        }
        k = k + 1;
    }
    if !moved {
        return None;
    }
    let mut seen: HashSet<usize> = HashSet::new();
    let mut k: usize = 0;
    while k < n
        invariant
            order@.len() == n,
            k <= n,
            forall|j: int| 0 <= j < n ==> #[trigger] order@[j] < n,
            forall|x: usize| #[trigger] seen@.contains(x) <==> exists|j: int| 0 <= j < k && order@[j] == x,
            forall|a: int, b: int| 0 <= a < k && 0 <= b < k && a != b ==> order@[a] != order@[b],
        decreases n - k,
    {
        broadcast use vstd::std_specs::hash::group_hash_axioms;

        let x = order[k];
        if !seen.insert(x) {
            proof {
                let j = choose|j: int| 0 <= j < k && order@[j] == x;
                assert(order@[j] == order@[k as int]);
            }
            return None;
        }
        assert forall|y: usize| #[trigger] seen@.contains(y) <==> exists|j: int| 0 <= j < k + 1 && order@[j] == y by {
            if y == x {
                assert(order@[k as int] == y);
            }
        }
        k = k + 1;
    }
    let ghost uv = units_view(units@);
    let mut out: Vec<NavigatorRowId> = Vec::new();
    let mut k: usize = 0;
    while k < n
        invariant
            order@.len() == n,
            n == units@.len(),
            uv == units_view(units@),
            k <= n,
            forall|j: int| 0 <= j < n ==> #[trigger] order@[j] < n,
            out@ == concat_all(Seq::new(k as nat, |j: int| uv[order@[j] as int])),
        decreases n - k,
    {
        let unit = &units[order[k]];
        assert(uv[order@[k as int] as int] == unit@);
        let ghost before = out@;
        let mut t: usize = 0;
        while t < unit.row_ids.len()
            invariant
                t <= unit@.len(),
                out@ == before + unit@.take(t as int),
            decreases unit@.len() - t,
        {
            out.push(unit.row_ids[t]);
            t = t + 1;
            assert(out@ =~= before + unit@.take(t as int));
        }
        assert(unit@.take(unit@.len() as int) =~= unit@);
        let ghost s_next = Seq::new((k + 1) as nat, |j: int| uv[order@[j] as int]);
        assert(s_next.drop_last() =~= Seq::new(k as nat, |j: int| uv[order@[j] as int]));
        k = k + 1;
    }
    proof {
        assert(Seq::new(n as nat, |j: int| uv[order@[j] as int]) =~= Seq::new(order@.len(), |j: int| uv[order@[j] as int]));
    }
    Some(out)
}

/// The row order a drag of the navigator's units persists: none while the
/// sidebar's search, trimmed, is not empty (a filtered list is never
/// reordered); else the order `reorder_rows_for` gives.
pub fn apply_session_reorder(search: &str, order: &[usize], units: &Vec<SessionReorderUnit>) -> (rows: Option<
    Vec<NavigatorRowId>,
>)
    ensures
        trim(search@).len() > 0 ==> rows is None,
        trim(search@).len() == 0 && valid_unit_order(order@, units@.len()) ==> (rows matches Some(r) && r@
            == reordered_rows_of(order@, units_view(units@))),
        trim(search@).len() == 0 && !valid_unit_order(order@, units@.len()) ==> rows is None,
{
    let text = chars_of(search);
    let trimmed = trim_chars(text.as_slice());
    if trimmed.len() > 0 {
        return None;
    }
    reorder_rows_for(order, units)
}

impl SessionViewportProjection {
    /// The navigator rows of the unit at `index`, looked up by identity in
    /// `rows`; `None` when there is no such unit or one of its rows is gone.
    pub fn rows_for_unit(&self, index: usize, rows: &[NavigatorRow]) -> (found: Option<Vec<NavigatorRow>>)
        ensures
            index >= self@.len() ==> found is None,
            index < self@.len() ==> ({
                let unit = self@[index as int];
                if forall|k: int| 0 <= k < unit.len() ==> (#[trigger] row_named(rows@, unit[k])) is Some {
                    found matches Some(v) && v@ == Seq::new(unit.len(), |k: int| rows@[row_named(rows@, unit[k]).unwrap()])
                } else {
                    found is None
                }
            }),
    {
        let unit = match self.unit(index) {
            Some(u) => u,
            None => return None,
        };
        let ghost uv = unit@;
        let mut out: Vec<NavigatorRow> = Vec::new();
        let mut k: usize = 0;
        while k < unit.row_ids.len()
            invariant
                uv == unit@,
                index < self@.len(),
                self@[index as int] == uv,
                k <= uv.len(),
                forall|j: int| 0 <= j < k ==> (#[trigger] row_named(rows@, uv[j])) is Some,
                out@ == Seq::new(k as nat, |j: int| rows@[row_named(rows@, uv[j]).unwrap()]),
            decreases uv.len() - k,
        {
            let id = unit.row_ids[k];
            proof {
                lemma_row_named(rows@, id);
            }
            match find_row(rows, id) {
                Some(i) => {
                    out.push(rows[i].clone());
                    k = k + 1;
                    assert(out@ =~= Seq::new(k as nat, |j: int| rows@[row_named(rows@, uv[j]).unwrap()]));
                },
                None => {
                    assert(uv[k as int] == id);
                    assert(row_named(rows@, uv[k as int]) is None);
                    return None;
                },
            }
        }
        Some(out)
    }
}

// ------------------------------------------------------------ search ids

/// The identity of a session in the cross-window search: a row id alone is
/// only unique within one environment.
#[derive(Debug, PartialEq, Eq, Hash)]
pub struct SessionSearchDocumentId {
    environment: String,
    row_id: NavigatorRowId,
}

impl SessionSearchDocumentId {
    pub fn new(environment: String, row_id: NavigatorRowId) -> (id: Self)
        ensures
            id.environment_view() == environment@,
            id.row_id_view() == row_id,
    {
        SessionSearchDocumentId { environment, row_id }
    }

    pub closed spec fn environment_view(&self) -> Seq<char> {
        self.environment@
    }

    pub closed spec fn row_id_view(&self) -> NavigatorRowId {
        self.row_id
    }

    pub fn environment(&self) -> (environment: &String)
        ensures
            environment@ == self.environment_view(),
    {
        &self.environment
    }

    pub fn row_id(&self) -> (row_id: &NavigatorRowId)
        ensures
            *row_id == self.row_id_view(),
    {
        &self.row_id
    }
}

// ----------------------------------------------------------- scan kick-off

/// What painting the navigator asks of discovery.
#[derive(Clone, Copy, Debug, PartialEq, Eq, Structural)]
pub enum ScanKick {
    /// Nothing to start.
    Idle,
    /// The first scan, now that the target is ready.
    Initial,
    /// The last scan failed and the host can now be reached: clear the
    /// error and rescan.
    RetryAfterError,
}

impl ScanKick {
    /// The refresh intent a kick asks for.
    pub fn intent(self) -> (intent: Option<SessionRefreshIntent>)
        ensures
            self == ScanKick::Idle ==> intent is None,
            self == ScanKick::Initial ==> intent == Some(SessionRefreshIntent::InitialTargetReady),
            self == ScanKick::RetryAfterError ==> intent == Some(SessionRefreshIntent::RemoteLinkUp),
    {
        match self {
            ScanKick::Idle => None,
            ScanKick::Initial => Some(SessionRefreshIntent::InitialTargetReady),
            ScanKick::RetryAfterError => Some(SessionRefreshIntent::RemoteLinkUp),
        }
    }
}

/// Before the first scan, start one once remote discovery is ready. After
/// a failed scan, and with no scan running, retry once the host's session
/// context resolves again.
pub open spec fn scan_kick_of(
    scan_started: bool,
    discovery_ready: bool,
    scan_failed: bool,
    inflight: bool,
    context_resolves: bool,
) -> ScanKick {
    if !scan_started {
        if discovery_ready {
            ScanKick::Initial
        } else {
            ScanKick::Idle
        }
    } else if !scan_failed || inflight || !context_resolves {
        ScanKick::Idle
    } else {
        ScanKick::RetryAfterError
    }
}

pub fn ensure_scan_step(
    scan_started: bool,
    discovery_ready: bool,
    scan_failed: bool,
    inflight: bool,
    context_resolves: bool,
) -> (kick: ScanKick)
    ensures
        kick == scan_kick_of(scan_started, discovery_ready, scan_failed, inflight, context_resolves),
{
    if !scan_started {
        if !discovery_ready {
            return ScanKick::Idle;
        }
        return ScanKick::Initial;
    }
    if !scan_failed || inflight {
        return ScanKick::Idle;
    }
    if !context_resolves {
        return ScanKick::Idle;
    }
    ScanKick::RetryAfterError
}

/// The navigator is rebuilt only when the fingerprint of its inputs changed.
/// The search query is not one of those inputs: filtering only changes what
/// the viewport shows.
pub fn needs_rebuild(previous: Option<u64>, fingerprint: u64) -> (rebuild: bool)
    ensures
        rebuild == (previous != Some(fingerprint)),
{
    previous != Some(fingerprint)
}

// ------------------------------------------------------------ live rows

/// The typed title evidence a live binding carries: the provider's own
/// title and the first message the user typed.
pub struct TitleCandidates {
    pub provider: Option<String>,
    pub first_user: Option<String>,
}

/// The title the evidence resolves to: the provider's title first, then
/// the first user message.
pub open spec fn resolved_title(c: TitleCandidates) -> Option<Seq<char>> {
    match c.provider {
        Some(p) => Some(p@),
        None => opt_view(c.first_user),
    }
}

impl TitleCandidates {
    /// The title the evidence resolves to.
    pub fn resolved(&self) -> (title: Option<String>)
        ensures
            opt_view(title) == resolved_title(*self),
    {
        match &self.provider {
            Some(p) => Some(p.clone()),
            None => clone_opt(&self.first_user),
        }
    }
}

/// What one pane slot of a tab tells about the agent in it: the agent its
/// binding names and the agent seen running, the session id seen and the
/// one bound, the binding's container and title evidence, the tab's name
/// and the terminal's title, the working directory, the pane, and the
/// launch arguments seen and bound.
pub struct LiveSlot {
    pub binding_agent: Option<CliAgent>,
    pub observed_agent: Option<CliAgent>,
    pub seen_session_id: Option<String>,
    pub binding_session_id: Option<String>,
    pub container_id: String,
    pub candidates: TitleCandidates,
    pub tab_name: Option<String>,
    pub terminal_title: Option<String>,
    pub cwd: Option<String>,
    pub pane_id: Option<u64>,
    pub seen_argv: Option<Vec<String>>,
    pub binding_argv: Vec<String>,
}

/// A live agent session as the navigator receives it.
pub struct LiveSession {
    pub identity: SessionIdentity,
    pub agent: CliAgent,
    pub session_id: Option<String>,
    pub title: Option<String>,
    pub cwd: Option<String>,
    pub launch_argv: Vec<String>,
    pub carrier: LiveCarrier,
}

/// The session id of a slot: the one seen, else the one bound.
pub open spec fn slot_session_id(slot: LiveSlot) -> Option<Seq<char>> {
    match slot.seen_session_id {
        Some(s) => Some(s@),
        None => opt_view(slot.binding_session_id),
    }
}

/// The live session a slot publishes, `slug` naming its agent's provider:
/// none without an agent. Its identity is the provider session when an id
/// is known, else the binding's container; its title comes only from the
/// binding's typed evidence, never from the tab's name or the terminal's
/// title; its launch arguments are the ones seen when there are any, else
/// the bound ones; it is carried by the binding's container in the tab and
/// pane given.
pub open spec fn live_session_matches(slot: LiveSlot, tab_id: Seq<char>, slug: Seq<char>, live: LiveSession) -> bool {
    &&& live.agent == (match slot.binding_agent {
        Some(a) => a,
        None => slot.observed_agent.unwrap(),
    })
    &&& opt_view(live.session_id) == slot_session_id(slot)
    &&& live.identity@ == match slot_session_id(slot) {
        Some(id) => IdentityView::Provider(slug, id),
        None => IdentityView::Durable(slot.container_id@),
    }
    &&& opt_view(live.title) == resolved_title(slot.candidates)
    &&& opt_view(live.cwd) == opt_view(slot.cwd)
    &&& strings_view(live.launch_argv@) == match slot.seen_argv {
        Some(v) => if v@.len() > 0 {
            strings_view(v@)
        } else {
            strings_view(slot.binding_argv@)
        },
        None => strings_view(slot.binding_argv@),
    }
    &&& live.carrier@ == CarrierView {
        container_id: slot.container_id@,
        tab_id: Some(tab_id),
        pane_id: slot.pane_id,
    }
}

fn clone_strings(v: &Vec<String>) -> (copy: Vec<String>)
    ensures
        strings_view(copy@) == strings_view(v@),
{
    let mut out: Vec<String> = Vec::new();
    let mut i: usize = 0;
    while i < v.len()
        invariant
            i <= v@.len(),
            strings_view(out@) == strings_view(v@).take(i as int),
        decreases v@.len() - i,
    {
        let ghost before = out@;
        out.push(v[i].clone());
        assert(strings_view(out@) =~= strings_view(v@).take(i + 1)) by {
            assert(strings_view(out@) =~= strings_view(before).push(v@[i as int]@));
        }
        i = i + 1;
    }
    assert(strings_view(v@).take(v@.len() as int) =~= strings_view(v@));
    out
}

/// The live session one pane slot publishes (see `live_session_matches`).
pub fn live_session_of(slot: &LiveSlot, tab_id: &str, slug: &str) -> (live: Option<LiveSession>)
    ensures
        (slot.binding_agent is None && slot.observed_agent is None) ==> live is None,
        !(slot.binding_agent is None && slot.observed_agent is None) ==> (live matches Some(l)
            && live_session_matches(*slot, tab_id@, slug@, l)),
{
    let agent = match slot.binding_agent {
        Some(a) => a,
        None => match slot.observed_agent {
            Some(a) => a,
            None => {
                return None;
            },
        },
    };
    let session_id = match &slot.seen_session_id {
        Some(s) => Some(s.clone()),
        None => clone_opt(&slot.binding_session_id),
    };
    let identity = match &session_id {
        Some(id) => SessionIdentity::Provider {
            provider: crate::text::owned(slug),
            session_id: id.clone(),
        },
        None => SessionIdentity::Durable(slot.container_id.clone()),
    };
    let launch_argv = match &slot.seen_argv {
        Some(v) => if v.len() > 0 {
            clone_strings(v)
        } else {
            clone_strings(&slot.binding_argv)
        },
        None => clone_strings(&slot.binding_argv),
    };
    Some(
        LiveSession {
            identity,
            agent,
            session_id,
            title: slot.candidates.resolved(),
            cwd: clone_opt(&slot.cwd),
            launch_argv,
            carrier: LiveCarrier {
                container_id: slot.container_id.clone(),
                tab_id: Some(crate::text::owned(tab_id)),
                pane_id: slot.pane_id,
            },
        },
    )
}

// ------------------------------------------------------------ alias edits

/// What the alias editor opens with: the row's current display title,
/// selected whole so that one keystroke replaces it.
pub struct AliasEditSeed {
    pub row_id: NavigatorRowId,
    pub text: String,
    pub select_all: bool,
}

/// A row's display title: its alias, else its title, else the fallback.
pub open spec fn display_title_of(alias: Option<Seq<char>>, title: Option<Seq<char>>, fallback: Seq<char>) -> Seq<char> {
    match alias {
        Some(a) => a,
        None => match title {
            Some(t) => t,
            None => fallback,
        },
    }
}

/// A row's display title: its alias, else its title, else the fallback.
pub fn display_title(alias: &Option<String>, title: &Option<String>, fallback: &str) -> (shown: String)
    ensures
        shown@ == display_title_of(opt_view(*alias), opt_view(*title), fallback@),
{
    match alias {
        Some(a) => a.clone(),
        None => match title {
            Some(t) => t.clone(),
            None => crate::text::owned(fallback),
        },
    }
}

/// The alias editor's opening state for a row with this alias and title:
/// the display title with an empty fallback (so that an untitled row opens
/// empty, and an empty alias clears it), all of it selected.
pub fn begin_session_alias_edit(row_id: NavigatorRowId, alias: &Option<String>, title: &Option<String>) -> (seed: AliasEditSeed)
    ensures
        seed.row_id == row_id,
        seed.text@ == display_title_of(opt_view(*alias), opt_view(*title), Seq::empty()),
        seed.select_all,
{
    let text = display_title(alias, title, "");
    proof {
        reveal_strlit("");
    }
    AliasEditSeed { row_id, text, select_all: true }
}

// ------------------------------------------------------- captured deletes

/// Where a session's provider source stands when a delete is planned.
#[derive(Clone, Copy, Debug, PartialEq, Eq, Structural)]
pub enum SourcePlan {
    /// The provider's source of the session was found.
    Found,
    /// The provider holds no source for the session.
    Missing,
    /// Planning failed.
    Failed,
}

/// How a captured Close-and-Delete removes the session.
#[derive(Clone, Copy, Debug, PartialEq, Eq, Structural)]
pub enum DeleteRoute {
    /// Delete the provider source and tombstone the row in one transaction.
    Transaction,
    /// No provider source exists: only tombstone the row in the user state.
    UserStateOnly,
    /// Planning failed: tell the user, delete nothing.
    NotifyFailed,
}

/// How a captured delete proceeds: a source captured before the prompt is
/// used as it is; otherwise it is planned now, and a missing source is no
/// failure.
pub fn captured_delete_route(captured_source: bool, planned: SourcePlan) -> (route: DeleteRoute)
    ensures
        route == (if captured_source {
            DeleteRoute::Transaction
        } else {
            match planned {
                SourcePlan::Found => DeleteRoute::Transaction,
                SourcePlan::Missing => DeleteRoute::UserStateOnly,
                SourcePlan::Failed => DeleteRoute::NotifyFailed,
            }
        }),
{
    if captured_source {
        return DeleteRoute::Transaction;
    }
    match planned {
        SourcePlan::Found => DeleteRoute::Transaction,
        SourcePlan::Missing => DeleteRoute::UserStateOnly,
        SourcePlan::Failed => DeleteRoute::NotifyFailed,
    }
}

/// What a delete's result does when it lands.
#[derive(Clone, Copy, Debug, PartialEq, Eq, Structural)]
pub enum DeleteLanding {
    /// The navigator was rebound since: change nothing.
    Ignore,
    /// Commit the delete, drop the history record, save, rebuild and
    /// rescan passively.
    Commit,
    /// Tell the user the delete failed.
    NotifyFailed,
}

/// What a delete's result does when it lands: nothing once the scope it
/// was captured under is no longer current.
pub fn delete_landing(scope_current: bool, succeeded: bool) -> (landing: DeleteLanding)
    ensures
        !scope_current ==> landing == DeleteLanding::Ignore,
        scope_current && succeeded ==> landing == DeleteLanding::Commit,
        scope_current && !succeeded ==> landing == DeleteLanding::NotifyFailed,
{
    if !scope_current {
        DeleteLanding::Ignore
    } else if succeeded {
        DeleteLanding::Commit
    } else {
        DeleteLanding::NotifyFailed
    }
}

/// Whether a history record survives a committed delete: only the deleted
/// session (same provider, same session id) goes.
pub fn keeps_history_record(provider: &str, session_id: &str, deleted_provider: &str, deleted_session: &Option<String>) -> (keep: bool)
    ensures
        keep == (provider@ != deleted_provider@ || opt_view(*deleted_session) != Some(session_id@)),
{
    if !str_eq(provider, deleted_provider) {
        return true;
    }
    match deleted_session {
        Some(s) => !str_eq(s.as_str(), session_id),
        None => true,
    }
}

} // verus!
