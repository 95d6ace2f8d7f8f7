//! The session navigator's state machines: which refresh a request starts,
//! which completion is still wanted, where the keyboard cursor sits, what
//! the filtered viewport shows, and which rows a session-scoped action is
//! allowed to touch.
use vstd::prelude::*;
use vstd::string::*;

use crate::ids::{HostId, NavigatorRowId, WorkspaceId};
use crate::seqs::{
    concat_all, first_index, first_where, lemma_first_index_absent, lemma_first_index_found,
    lemma_first_index_meaning, lemma_first_where_absent, lemma_first_where_found,
};
use crate::rows::strings_view;
use crate::text::{
    ascii_lower, ascii_lowercase, chars_of, contains_chars, contains_seq, decimal, decimal_string, join,
    join_chars, owned, runs_view, string_of,
};

verus! {

// ------------------------------------------------------------ refresh intent

/// Why the navigator is asked to rescan the agents' session history.
#[derive(Clone, Copy, Debug, PartialEq, Eq, Structural)]
pub enum SessionRefreshIntent {
    Explicit,
    InitialTargetReady,
    RemoteLinkUp,
    ProviderSourceMutation,
    AgentCarrierClosed,
    GenericTerminalEvent,
    LayoutOnly,
}

/// Whether an intent asks for an explicit scan (`Some(true)`), a passive one
/// (`Some(false)`), or no scan at all (`None`).
pub open spec fn intent_explicit(intent: SessionRefreshIntent) -> Option<bool> {
    match intent {
        SessionRefreshIntent::Explicit => Some(true),
        SessionRefreshIntent::InitialTargetReady | SessionRefreshIntent::RemoteLinkUp
        | SessionRefreshIntent::ProviderSourceMutation
        | SessionRefreshIntent::AgentCarrierClosed => Some(false),
        SessionRefreshIntent::GenericTerminalEvent | SessionRefreshIntent::LayoutOnly => None,
    }
}

impl SessionRefreshIntent {
    pub fn explicit(self) -> (kind: Option<bool>)
        ensures
            kind == intent_explicit(self),
    {
        match self {
            SessionRefreshIntent::Explicit => Some(true),
            SessionRefreshIntent::InitialTargetReady | SessionRefreshIntent::RemoteLinkUp
            | SessionRefreshIntent::ProviderSourceMutation
            | SessionRefreshIntent::AgentCarrierClosed => Some(false),
            SessionRefreshIntent::GenericTerminalEvent | SessionRefreshIntent::LayoutOnly => None,
        }
    }
}

// ------------------------------------------------------------------- scope

/// The authority a scan was started under: a generation alone cannot tell a
/// completion for a rebound workspace from one for the current workspace.
#[derive(Debug, PartialEq, Eq)]
pub struct SessionNavigatorScope {
    pub workspace: WorkspaceId,
    pub host: HostId,
    pub environment: String,
    pub alias_path: String,
}

/// A scope as plain values.
pub struct ScopeView {
    pub workspace: WorkspaceId,
    pub host: HostId,
    pub environment: Seq<char>,
    pub alias_path: Seq<char>,
}

impl View for SessionNavigatorScope {
    type V = ScopeView;

    open spec fn view(&self) -> ScopeView {
        ScopeView {
            workspace: self.workspace,
            host: self.host,
            environment: self.environment@,
            alias_path: self.alias_path@,
        }
    }
}

impl Clone for SessionNavigatorScope {
    fn clone(&self) -> (copy: Self)
        ensures
            copy@ == self@,
    {
        SessionNavigatorScope {
            workspace: self.workspace,
            host: self.host,
            environment: self.environment.clone(),
            alias_path: self.alias_path.clone(),
        }
    }
}

impl SessionNavigatorScope {
    pub fn new(workspace: WorkspaceId, host: HostId, environment: String, alias_path: String) -> (scope:
        Self)
        ensures
            scope@ == (ScopeView {
                workspace,
                host,
                environment: environment@,
                alias_path: alias_path@,
            }),
    {
        SessionNavigatorScope { workspace, host, environment, alias_path }
    }

    /// Whether this scope is exactly the given workspace, host, environment
    /// and alias path.
    pub fn matches(&self, workspace: WorkspaceId, host: HostId, environment: &str, alias_path: &str) -> (same:
        bool)
        ensures
            same == (self@ == ScopeView {
                workspace,
                host,
                environment: environment@,
                alias_path: alias_path@,
            }),
    {
        self.workspace == workspace && self.host == host && crate::text::str_eq(
            self.environment.as_str(),
            environment,
        ) && crate::text::str_eq(self.alias_path.as_str(), alias_path)
    }

    /// Whether two scopes are the same authority.
    pub fn same(&self, other: &Self) -> (same: bool)
        ensures
            same == (self@ == other@),
    {
        self.matches(other.workspace, other.host, other.environment.as_str(), other.alias_path.as_str())
    }
}

// ------------------------------------------------------------ refresh state

/// What a refresh request did.
#[derive(Clone, Copy, Debug, PartialEq, Eq, Structural)]
pub enum SessionRefreshRequest {
    /// Start a scan with this generation.
    Start(u64),
    /// A scan is running; this passive request rides on a rescan after it.
    Coalesced,
}

/// Which scan generation the navigator still wants, whether a passive
/// request is waiting behind it, and the scope it was bound to.
#[derive(Debug, PartialEq, Eq)]
pub struct SessionRefreshState {
    requested: u64,
    inflight: Option<u64>,
    pending_passive: bool,
    scope: Option<SessionNavigatorScope>,
}

/// The refresh state as plain values.
pub struct RefreshView {
    pub requested: u64,
    pub inflight: Option<u64>,
    pub pending_passive: bool,
    pub scope: Option<ScopeView>,
}

/// `n + 1`, stopping at the largest `u64`.
pub open spec fn bump(n: u64) -> u64 {
    if n < u64::MAX {
        (n + 1) as u64
    } else {
        n
    }
}

/// A request, as a transition of the refresh state.
pub open spec fn request_step(v: RefreshView, explicit: bool) -> (RefreshView, SessionRefreshRequest) {
    let generation = bump(v.requested);
    if explicit {
        (
            RefreshView {
                requested: generation,
                inflight: Some(generation),
                pending_passive: false,
                scope: None,
            },
            SessionRefreshRequest::Start(generation),
        )
    } else if v.inflight is Some {
        (RefreshView { requested: generation, pending_passive: true, ..v }, SessionRefreshRequest::Coalesced)
    } else {
        (
            RefreshView { requested: generation, inflight: Some(generation), scope: None, ..v },
            SessionRefreshRequest::Start(generation),
        )
    }
}

/// A finished scan, as a transition: the rescan it starts, if any.
pub open spec fn finish_step(v: RefreshView, generation: u64) -> (RefreshView, Option<u64>) {
    if v.inflight != Some(generation) {
        (v, None)
    } else if v.pending_passive {
        let next = bump(v.requested);
        (
            RefreshView { requested: next, inflight: Some(next), pending_passive: false, scope: None },
            Some(next),
        )
    } else {
        (RefreshView { inflight: None, scope: None, ..v }, None)
    }
}

/// An invalidation before a rebind, as a transition.
pub open spec fn invalidate_step(v: RefreshView) -> RefreshView {
    RefreshView { requested: bump(v.requested), inflight: None, pending_passive: false, scope: None }
}

/// Dropping a generation whose scan could not start, as a transition.
pub open spec fn abandon_step(v: RefreshView, generation: u64) -> RefreshView {
    if v.inflight == Some(generation) {
        RefreshView { inflight: None, pending_passive: false, scope: None, ..v }
    } else {
        v
    }
}

/// Whether a completion of `generation` is still wanted.
pub open spec fn accepts_of(v: RefreshView, generation: u64) -> bool {
    v.inflight == Some(generation)
}

fn scope_is(slot: &Option<SessionNavigatorScope>, scope: &SessionNavigatorScope) -> (same: bool)
    ensures
        same == (slot matches Some(s) && s@ == scope@),
{
    match slot {
        Some(s) => s.same(scope),
        None => false,
    }
}

impl View for SessionRefreshState {
    type V = RefreshView;

    closed spec fn view(&self) -> RefreshView {
        RefreshView {
            requested: self.requested,
            inflight: self.inflight,
            pending_passive: self.pending_passive,
            scope: match self.scope {
                Some(s) => Some(s@),
                None => None,
            },
        }
    }
}

impl Default for SessionRefreshState {
    fn default() -> (state: Self)
        ensures
            state@ == (RefreshView {
                requested: 0,
                inflight: None,
                pending_passive: false,
                scope: None,
            }),
    {
        SessionRefreshState { requested: 0, inflight: None, pending_passive: false, scope: None }
    }
}

impl SessionRefreshState {
    /// Asks for a scan. An explicit request always starts a new generation
    /// and supersedes whatever is running; a passive one starts only when
    /// nothing is running, and otherwise waits for the running scan.
    pub fn request(&mut self, explicit: bool) -> (outcome: SessionRefreshRequest)
        ensures
            (final(self)@, outcome) == request_step(old(self)@, explicit),
    {
        self.requested = self.requested.saturating_add(1);
        let generation = self.requested;
        if explicit {
            self.inflight = Some(generation);
            self.pending_passive = false;
            self.scope = None;
            SessionRefreshRequest::Start(generation)
        } else if self.inflight.is_some() {
            self.pending_passive = true;
            SessionRefreshRequest::Coalesced
        } else {
            self.inflight = Some(generation);
            self.scope = None;
            SessionRefreshRequest::Start(generation)
        }
    }

    /// Asks for the scan an intent calls for, if any, and returns the
    /// generation to start.
    pub fn request_for(&mut self, intent: SessionRefreshIntent) -> (start: Option<u64>)
        ensures
            intent_explicit(intent) is None ==> final(self)@ == old(self)@ && start is None,
            intent_explicit(intent) matches Some(explicit) ==> ({
                let (next, outcome) = request_step(old(self)@, explicit);
                &&& final(self)@ == next
                &&& start == match outcome {
                    SessionRefreshRequest::Start(g) => Some(g),
                    SessionRefreshRequest::Coalesced => None,
                }
            }),
    {
        let explicit = match intent.explicit() {
            Some(explicit) => explicit,
            None => return None,
        };
        match self.request(explicit) {
            SessionRefreshRequest::Start(generation) => Some(generation),
            SessionRefreshRequest::Coalesced => None,
        }
    }

    /// Binds the running generation to the scope it scans. A generation that
    /// is no longer running is refused.
    pub fn bind_scope(&mut self, generation: u64, scope: SessionNavigatorScope) -> (bound: bool)
        ensures
            (final(self)@, bound) == bind_step(old(self)@, generation, scope@),
            bound == (old(self)@.inflight == Some(generation)),
            bound ==> final(self)@ == (RefreshView { scope: Some(scope@), ..old(self)@ }),
            !bound ==> final(self)@ == old(self)@,
    {
        if self.inflight != Some(generation) {
            return false;
        }
        self.scope = Some(scope);
        true
    }

    /// Ends the running generation. When passive requests came in while it
    /// ran, a rescan starts with a fresh generation, which is returned.
    pub fn finish(&mut self, generation: u64) -> (next: Option<u64>)
        ensures
            (final(self)@, next) == finish_step(old(self)@, generation),
    {
        if self.inflight != Some(generation) {
            return None;
        }
        self.inflight = None;
        self.scope = None;
        if self.pending_passive {
            self.pending_passive = false;
            self.requested = self.requested.saturating_add(1);
            self.inflight = Some(self.requested);
            Some(self.requested)
        } else {
            None
        }
    }

    /// Whether a completion of `generation` is still wanted.
    pub fn accepts(&self, generation: u64) -> (wanted: bool)
        ensures
            wanted == accepts_of(self@, generation),
    {
        self.inflight == Some(generation)
    }

    /// Whether a completion of `generation` under `scope` is still wanted.
    pub fn accepts_scope(&self, generation: u64, scope: &SessionNavigatorScope) -> (wanted: bool)
        ensures
            wanted == (self@.inflight == Some(generation) && self@.scope == Some(scope@)),
            wanted == accepts_scope_of(self@, generation, scope@),
    {
        self.inflight == Some(generation) && scope_is(&self.scope, scope)
    }

    /// Drops the running generation when its scan could not even start.
    pub fn abandon(&mut self, generation: u64)
        ensures
            final(self)@ == abandon_step(old(self)@, generation),
            old(self)@.inflight == Some(generation) ==> final(self)@ == (RefreshView {
                inflight: None,
                pending_passive: false,
                scope: None,
                ..old(self)@
            }),
            old(self)@.inflight != Some(generation) ==> final(self)@ == old(self)@,
    {
        if self.inflight == Some(generation) {
            self.inflight = None;
            self.pending_passive = false;
            self.scope = None;
        }
    }

    /// Refuses every completion in flight before a workspace or environment
    /// rebind, and moves the generation counter on so that no earlier
    /// generation can be issued again.
    pub fn invalidate(&mut self)
        ensures
            final(self)@ == invalidate_step(old(self)@),
    {
        self.requested = self.requested.saturating_add(1);
        self.inflight = None;
        self.pending_passive = false;
        self.scope = None;
    }

    pub fn is_inflight(&self) -> (running: bool)
        ensures
            running == (self@.inflight is Some),
    {
        self.inflight.is_some()
    }
}

/// An explicit request supersedes the running scan: the generation it starts
/// is the only one whose completion is still wanted.
pub proof fn lemma_explicit_supersedes(v: RefreshView)
    ensures
        ({
            let (next, outcome) = request_step(v, true);
            &&& outcome == SessionRefreshRequest::Start(next.requested)
            &&& accepts_of(next, next.requested)
            &&& forall|g: u64| g != next.requested ==> !accepts_of(next, g)
        }),
{
}

/// Passive requests during a scan coalesce: the running generation stays
/// wanted, and finishing it starts exactly one rescan with a newer generation.
pub proof fn lemma_passive_requests_coalesce(v: RefreshView, g: u64)
    requires
        v.inflight == Some(g),
        g <= v.requested,
        v.requested < u64::MAX - 1,
    ensures
        ({
            let (after, outcome) = request_step(v, false);
            let (done, next) = finish_step(after, g);
            &&& outcome == SessionRefreshRequest::Coalesced
            &&& accepts_of(after, g)
            &&& next == Some(done.requested)
            &&& done.requested > v.requested
            &&& accepts_of(done, done.requested)
            &&& !accepts_of(done, g)
        }),
{
}

/// After an invalidation no completion is wanted, and the next scan gets a
/// generation newer than every one issued before (until the counter is spent).
pub proof fn lemma_invalidate_rejects_stale(v: RefreshView, explicit: bool)
    requires
        v.requested < u64::MAX - 1,
        v.inflight matches Some(g) ==> g <= v.requested,
    ensures
        ({
            let cleared = invalidate_step(v);
            let (next, outcome) = request_step(cleared, explicit);
            &&& forall|g: u64| !accepts_of(cleared, g)
            &&& outcome == SessionRefreshRequest::Start(next.requested)
            &&& next.requested > v.requested
        }),
{
}

/// A generation that is not running cannot finish anything: the state is
/// unchanged and no rescan starts.
pub proof fn lemma_stale_finish_is_inert(v: RefreshView, g: u64)
    requires
        !accepts_of(v, g),
    ensures
        finish_step(v, g) == (v, None::<u64>),
{
}

/// The generation counter never goes back, so a generation is never reissued
/// while the counter has room.
pub proof fn lemma_generations_only_grow(v: RefreshView, explicit: bool, g: u64)
    ensures
        request_step(v, explicit).0.requested >= v.requested,
        finish_step(v, g).0.requested >= v.requested,
        invalidate_step(v).requested >= v.requested,
        v.requested < u64::MAX ==> request_step(v, explicit).0.requested == v.requested + 1,
{
}

/// Binding a generation to a scope, as a transition, and whether it took.
pub open spec fn bind_step(v: RefreshView, generation: u64, scope: ScopeView) -> (RefreshView, bool) {
    if v.inflight == Some(generation) {
        (RefreshView { scope: Some(scope), ..v }, true)
    } else {
        (v, false)
    }
}

/// Whether a completion of `generation` under `scope` is still wanted.
pub open spec fn accepts_scope_of(v: RefreshView, generation: u64, scope: ScopeView) -> bool {
    v.inflight == Some(generation) && v.scope == Some(scope)
}

/// The state after `n` passive requests.
pub open spec fn passive_requests(v: RefreshView, n: nat) -> RefreshView
    decreases n,
{
    if n == 0 {
        v
    } else {
        request_step(passive_requests(v, (n - 1) as nat), false).0
    }
}

proof fn lemma_passive_requests_keep_scan(v: RefreshView, n: nat)
    requires
        v.inflight is Some,
    ensures
        passive_requests(v, n).inflight == v.inflight,
        passive_requests(v, n).scope == v.scope,
        n > 0 ==> request_step(passive_requests(v, (n - 1) as nat), false).1 == SessionRefreshRequest::Coalesced,
    decreases n,
{
    if n > 0 {
        lemma_passive_requests_keep_scan(v, (n - 1) as nat);
    }
}

/// A completion is accepted only in the scope its generation was bound to:
/// a bind takes exactly when the generation is running (and changes
/// nothing otherwise); once it took, and across any number of passive
/// requests (which, with the scan running, all coalesce and start none),
/// a completion of that generation is wanted exactly in that scope, and no
/// completion of another generation is wanted in any scope.
pub proof fn lemma_scope_bound_until_the_scan_ends(v: RefreshView, g: u64, sc: ScopeView, n: nat)
    ensures
        bind_step(v, g, sc).1 == accepts_of(v, g),
        !bind_step(v, g, sc).1 ==> bind_step(v, g, sc).0 == v,
        bind_step(v, g, sc).1 ==> ({
            let w = passive_requests(bind_step(v, g, sc).0, n);
            &&& forall|t: ScopeView| accepts_scope_of(w, g, t) <==> t == sc
            &&& forall|x: u64, t: ScopeView| x != g ==> !accepts_scope_of(w, x, t)
        }),
{
    if bind_step(v, g, sc).1 {
        lemma_passive_requests_keep_scan(bind_step(v, g, sc).0, n);
    }
}

// ------------------------------------------------------- discovery timeout

#[verifier::external_type_specification]
#[verifier::external_body]
pub struct ExIoError(std::io::Error);

/// The kinds of I/O error the navigator tells apart.
#[derive(Clone, Copy, Debug, PartialEq, Eq, Structural)]
pub enum IoErrorKind {
    TimedOut,
    Other,
}

/// The kind std reports for an I/O error (`io::Error::kind`), as the
/// navigator tells kinds apart: a timeout, or any other kind. The kind is
/// part of the error's value.
pub uninterp spec fn io_kind_of(error: std::io::Error) -> IoErrorKind;

/// The kind of an I/O error (std's `io::Error::kind`), a timeout or not.
#[verifier::external_body]
fn io_error_kind(error: &std::io::Error) -> (kind: IoErrorKind)
    ensures
        kind == io_kind_of(*error),
{
    match error.kind() {
        std::io::ErrorKind::TimedOut => IoErrorKind::TimedOut,
        _ => IoErrorKind::Other,
    }
}

/// The message of an I/O error (its `Display` text, through `to_string`).
#[verifier::external_body]
fn io_error_message(error: &std::io::Error) -> String {
    error.to_string()
}

/// A failed scan counts as a timeout when its kind says so, or when its
/// message, ASCII-lowercased, says "timed out" (a transport may report a
/// timeout under another kind).
pub open spec fn timeout_report(kind: IoErrorKind, message: Seq<char>) -> bool {
    kind == IoErrorKind::TimedOut || contains_seq(message.map_values(|c: char| ascii_lower(c)), "timed out"@)
}

pub fn is_timeout_report(kind: IoErrorKind, message: &str) -> (timeout: bool)
    ensures
        timeout == timeout_report(kind, message@),
{
    if kind == IoErrorKind::TimedOut {
        return true;
    }
    let text = chars_of(message);
    let lower = ascii_lowercase(text.as_slice());
    let needle = chars_of("timed out");
    contains_chars(lower.as_slice(), needle.as_slice())
}

/// Whether a scan failed by timing out, so that the navigator shows its own
/// message instead of leaving a spinner with a raw transport error. The
/// decision over the error's kind and message is `is_timeout_report`; what
/// kind and message an `io::Error` reports is std's: an error of the
/// timeout kind is always a timeout, and what its message says (which for
/// an operating system error comes from the C library and its locale) is
/// not stated here.
pub fn is_discovery_timeout(error: &std::io::Error) -> (timeout: bool)
    ensures
        io_kind_of(*error) == IoErrorKind::TimedOut ==> timeout,
{
    let kind = io_error_kind(error);
    let message = io_error_message(error);
    is_timeout_report(kind, message.as_str())
}

/// What the navigator says of a failed scan: its own timeout message, or
/// the error's message.
pub enum ScanError {
    TimedOut,
    Message(String),
}

/// What the navigator says of a failed scan, as a relation between the
/// error's kind and message and the note.
pub open spec fn error_note_says(kind: IoErrorKind, message: Seq<char>, note: ScanError) -> bool {
    if timeout_report(kind, message) {
        note is TimedOut
    } else {
        note matches ScanError::Message(m) && m@ == message
    }
}

/// What the navigator says of a scan that failed with an error of this kind
/// and message: a timeout (see `timeout_report`) as its own message, any
/// other error by the error's message.
pub fn scan_error_note(kind: IoErrorKind, message: &str) -> (note: ScanError)
    ensures
        timeout_report(kind, message@) ==> note is TimedOut,
        !timeout_report(kind, message@) ==> (note matches ScanError::Message(m) && m@ == message@),
        error_note_says(kind, message@, note),
{
    if is_timeout_report(kind, message) {
        ScanError::TimedOut
    } else {
        ScanError::Message(owned(message))
    }
}

/// What the navigator says of a scan that failed with `error` (see
/// `scan_error_note`; what kind and message an `io::Error` reports is std's
/// and is not stated beyond its kind). An error of the timeout kind reads
/// as a timeout, and an error message passed on never itself reads as a
/// timeout.
pub fn scan_error_message(error: &std::io::Error) -> (note: ScanError)
    ensures
        io_kind_of(*error) == IoErrorKind::TimedOut ==> note is TimedOut,
        note matches ScanError::Message(m) ==> !timeout_report(IoErrorKind::Other, m@),
{
    let kind = io_error_kind(error);
    let message = io_error_message(error);
    scan_error_note(kind, message.as_str())
}

/// How a session discovery ended.
pub enum DiscoveryOutcome {
    Complete,
    Failed { message: String },
    /// A session source the scan needs is missing.
    SourceMissing { source: String },
    /// Some providers could not be scanned.
    Partial { failed_providers: Vec<String> },
    Cancelled,
    /// A source holds more than the scan takes.
    SourceLimitExceeded { source: String, limit: u64 },
}

/// What the navigator says when a discovery ends: one message each, with
/// the failed providers joined by a comma and a space, and the limit in
/// decimal.
pub enum ScanNote {
    Completed,
    Failed(String),
    SourceMissing { source: String },
    Incomplete { failed: String },
    Cancelled,
    SourceLimit { source: String, limit: String },
}

/// What the navigator says when a discovery ends.
pub fn discovery_message(outcome: &DiscoveryOutcome) -> (note: ScanNote)
    ensures
        note_says(*outcome, note),
{
    discovery_note(outcome)
}

/// What the navigator says when a discovery ends, as a relation between the
/// outcome and the note.
pub open spec fn note_says(outcome: DiscoveryOutcome, note: ScanNote) -> bool {
    match outcome {
        DiscoveryOutcome::Complete => note is Completed,
        DiscoveryOutcome::Failed { message } => note matches ScanNote::Failed(m) && m@ == message@,
        DiscoveryOutcome::SourceMissing { source } => note matches ScanNote::SourceMissing { source: s } && s@
            == source@,
        DiscoveryOutcome::Partial { failed_providers } => note matches ScanNote::Incomplete { failed } && failed@
            == join(strings_view(failed_providers@), ", "@),
        DiscoveryOutcome::Cancelled => note is Cancelled,
        DiscoveryOutcome::SourceLimitExceeded { source, limit } => note matches ScanNote::SourceLimit {
            source: s,
            limit: l,
        } && s@ == source@ && l@ == decimal(limit as nat),
    }
}

fn discovery_note(outcome: &DiscoveryOutcome) -> (note: ScanNote)
    ensures
        match outcome {
            DiscoveryOutcome::Complete => note is Completed,
            DiscoveryOutcome::Failed { message } => note matches ScanNote::Failed(m) && m@ == message@,
            DiscoveryOutcome::SourceMissing { source } => note matches ScanNote::SourceMissing { source: s }
                && s@ == source@,
            DiscoveryOutcome::Partial { failed_providers } => note matches ScanNote::Incomplete { failed }
                && failed@ == join(strings_view(failed_providers@), ", "@),
            DiscoveryOutcome::Cancelled => note is Cancelled,
            DiscoveryOutcome::SourceLimitExceeded { source, limit } => note matches ScanNote::SourceLimit {
                source: s,
                limit: l,
            } && s@ == source@ && l@ == decimal(*limit as nat),
        },
{
    match outcome {
        DiscoveryOutcome::Complete => ScanNote::Completed,
        DiscoveryOutcome::Failed { message } => ScanNote::Failed(owned(message.as_str())),
        DiscoveryOutcome::SourceMissing { source } => ScanNote::SourceMissing { source: owned(source.as_str()) },
        DiscoveryOutcome::Partial { failed_providers } => {
            let mut runs: Vec<Vec<char>> = Vec::new();
            let mut i: usize = 0;
            while i < failed_providers.len()
                invariant
                    i <= failed_providers@.len(),
                    runs_view(runs@) == strings_view(failed_providers@).take(i as int),
                decreases failed_providers@.len() - i,
            {
                let c = chars_of(failed_providers[i].as_str());
                let ghost before = runs@;
                runs.push(c);
                proof {
                    let sv = strings_view(failed_providers@);
                    assert(runs_view(before).len() == before.len());
                    assert(sv.take(i as int).len() == i);
                    assert(before.len() == i);
                    assert(runs@ == before.push(c));
                    assert(sv[i as int] == failed_providers@[i as int]@);
                    assert forall|j: int| 0 <= j < i + 1 implies #[trigger] runs_view(runs@)[j] == sv.take(i + 1)[j] by {
                        if j < i {
                            assert(runs@[j] == before[j]);
                            assert(runs_view(before)[j] == sv.take(i as int)[j]);
                        }
                    }
                    assert(runs_view(runs@) =~= sv.take(i + 1));
                }
                i = i + 1;
            }
            assert(strings_view(failed_providers@).take(failed_providers@.len() as int) =~= strings_view(
                failed_providers@,
            ));
            let sep = chars_of(", ");
            let joined = join_chars(runs.as_slice(), sep.as_slice());
            ScanNote::Incomplete { failed: string_of(joined.as_slice()) }
        },
        DiscoveryOutcome::Cancelled => ScanNote::Cancelled,
        DiscoveryOutcome::SourceLimitExceeded { source, limit } => ScanNote::SourceLimit {
            source: owned(source.as_str()),
            limit: decimal_string(*limit),
        },
    }
}

/// What a scan handed back: how the discovery ended, with whether the
/// user's session state (aliases, pins, order) loaded; or the error the
/// scan failed with.
pub enum ScanResult {
    Outcome { outcome: DiscoveryOutcome, aliases_loaded: bool },
    Error { kind: IoErrorKind, message: String },
}

/// What a landed scan does to the navigator: take the discovered history
/// (and the loaded session state, when it loaded) and clear the error; or
/// show a note or an error message.
pub enum ScanReport {
    History { adopt_aliases: bool },
    Note(ScanNote),
    Error(ScanError),
}

/// What a scan's completion comes to.
pub enum ScanLanding {
    /// The result is stale or from another scope: dropped, its generation
    /// abandoned.
    Dropped,
    /// The result lands; the scan ends, and a rescan starts with `rescan`
    /// when passive requests came in meanwhile.
    Landed { report: ScanReport, rescan: Option<u64> },
}

/// What a landed scan's result says (see `note_says` and
/// `error_note_says`).
pub open spec fn report_says(result: ScanResult, report: ScanReport) -> bool {
    match result {
        ScanResult::Outcome { outcome, aliases_loaded } => match outcome {
            DiscoveryOutcome::Complete => report == ScanReport::History { adopt_aliases: aliases_loaded },
            _ => report matches ScanReport::Note(n) && note_says(outcome, n),
        },
        ScanResult::Error { kind, message } => report matches ScanReport::Error(e) && error_note_says(
            kind,
            message@,
            e,
        ),
    }
}

impl SessionRefreshState {
    /// A scan of `generation` in `scope` came back with `result`;
    /// `scope_current` says whether that scope is still the window's. A
    /// result the state no longer wants in that scope, or from a scope that
    /// is no longer the window's, is dropped and its generation abandoned;
    /// otherwise it lands and the scan ends (see `finish`).
    pub fn land_scan(
        &mut self,
        generation: u64,
        scope: &SessionNavigatorScope,
        scope_current: bool,
        result: &ScanResult,
    ) -> (landing: ScanLanding)
        ensures
            !(accepts_scope_of(old(self)@, generation, scope@) && scope_current) ==> landing is Dropped
                && final(self)@ == abandon_step(old(self)@, generation),
            accepts_scope_of(old(self)@, generation, scope@) && scope_current ==> (landing matches ScanLanding::Landed {
                report,
                rescan,
            } && (final(self)@, rescan) == finish_step(old(self)@, generation) && report_says(*result, report)),
    {
        if !(self.accepts_scope(generation, scope) && scope_current) {
            self.abandon(generation);
            return ScanLanding::Dropped;
        }
        let report = match result {
            ScanResult::Outcome { outcome, aliases_loaded } => match outcome {
                DiscoveryOutcome::Complete => ScanReport::History { adopt_aliases: *aliases_loaded },
                _ => ScanReport::Note(discovery_message(outcome)),
            },
            ScanResult::Error { kind, message } => ScanReport::Error(scan_error_note(*kind, message.as_str())),
        };
        let rescan = self.finish(generation);
        ScanLanding::Landed { report, rescan }
    }
}

// ------------------------------------------------ per-environment stash

/// The stashed navigators, environment by environment, in stash order.
pub open spec fn stash_map<T>(s: Seq<(String, T)>) -> Map<Seq<char>, T>
    decreases s.len(),
{
    if s.len() == 0 {
        Map::empty()
    } else {
        stash_map(s.drop_last()).insert(s.last().0@, s.last().1)
    }
}

/// No environment is stashed twice.
pub open spec fn stash_keys_distinct<T>(s: Seq<(String, T)>) -> bool {
    forall|i: int, j: int| #![trigger s[i], s[j]] 0 <= i < j < s.len() ==> s[i].0@ != s[j].0@
}

proof fn lemma_stash_map_has<T>(s: Seq<(String, T)>)
    requires
        stash_keys_distinct(s),
    ensures
        forall|k: Seq<char>| #[trigger] stash_map(s).contains_key(k) <==> exists|i: int| 0 <= i < s.len() && s[i].0@ == k,
        forall|i: int| 0 <= i < s.len() ==> #[trigger] stash_map(s)[s[i].0@] == s[i].1,
    decreases s.len(),
{
    if s.len() > 0 {
        let d = s.drop_last();
        assert forall|i: int, j: int| #![trigger d[i], d[j]] 0 <= i < j < d.len() implies d[i].0@ != d[j].0@ by {
            assert(d[i] == s[i] && d[j] == s[j]);
        }
        lemma_stash_map_has(d);
        assert forall|k: Seq<char>| #[trigger] stash_map(s).contains_key(k) <==> exists|i: int| 0 <= i < s.len() && s[i].0@ == k by {
            let n = s.len() - 1;
            assert(s[n] == s.last());
            if stash_map(s).contains_key(k) {
                if k == s.last().0@ {
                    assert(s[n].0@ == k);
                } else {
                    assert(stash_map(d).contains_key(k));
                    let i = choose|i: int| 0 <= i < d.len() && d[i].0@ == k;
                    assert(s[i] == d[i]);
                }
            }
            if exists|i: int| 0 <= i < s.len() && s[i].0@ == k {
                let i = choose|i: int| 0 <= i < s.len() && s[i].0@ == k;
                if i < d.len() {
                    assert(d[i] == s[i]);
                    assert(stash_map(d).contains_key(k));
                }
            }
        }
        assert forall|i: int| 0 <= i < s.len() implies #[trigger] stash_map(s)[s[i].0@] == s[i].1 by {
            if i < d.len() {
                assert(d[i] == s[i]);
                assert(s[i].0@ != s[s.len() - 1].0@);
                assert(stash_map(d)[d[i].0@] == d[i].1);
            }
        }
    }
}

proof fn lemma_stash_map_remove<T>(s: Seq<(String, T)>, i: int)
    requires
        stash_keys_distinct(s),
        0 <= i < s.len(),
    ensures
        stash_map(s.remove(i)) == stash_map(s).remove(s[i].0@),
        stash_keys_distinct(s.remove(i)),
    decreases s.len(),
{
    let d = s.drop_last();
    let r = s.remove(i);
    assert forall|a: int, b: int| #![trigger r[a], r[b]] 0 <= a < b < r.len() implies r[a].0@ != r[b].0@ by {
        let a0 = if a < i { a } else { a + 1 };
        let b0 = if b < i { b } else { b + 1 };
        assert(r[a] == s[a0] && r[b] == s[b0]);
    }
    assert forall|a: int, b: int| #![trigger d[a], d[b]] 0 <= a < b < d.len() implies d[a].0@ != d[b].0@ by {
        assert(d[a] == s[a] && d[b] == s[b]);
    }
    if i == s.len() - 1 {
        assert(r =~= d);
        lemma_stash_map_has(d);
        assert(!stash_map(d).contains_key(s.last().0@)) by {
            if stash_map(d).contains_key(s.last().0@) {
                let j = choose|j: int| 0 <= j < d.len() && d[j].0@ == s.last().0@;
                assert(s[j] == d[j]);
            }
        }
        assert(stash_map(s).remove(s[i].0@) =~= stash_map(d));
    } else {
        lemma_stash_map_remove(d, i);
        assert(d[i] == s[i]);
        assert(r =~= d.remove(i).push(s.last()));
        assert(r.drop_last() =~= d.remove(i));
        assert(s[i].0@ != s[s.len() - 1].0@);
        assert(stash_map(r) =~= stash_map(s).remove(s[i].0@));
    }
}

/// The navigators stashed per environment, so that switching back to an
/// environment restores what it had.
pub struct NavigatorStash<T> {
    entries: Vec<(String, T)>,
}

impl<T> View for NavigatorStash<T> {
    type V = Map<Seq<char>, T>;

    closed spec fn view(&self) -> Map<Seq<char>, T> {
        stash_map(self.entries@)
    }
}

impl<T> NavigatorStash<T> {
    /// No environment is stashed twice.
    pub closed spec fn wf(&self) -> bool {
        stash_keys_distinct(self.entries@)
    }

    /// An empty stash.
    pub fn new() -> (stash: Self)
        ensures
            stash.wf(),
            stash@ == Map::<Seq<char>, T>::empty(),
    {
        NavigatorStash { entries: Vec::new() }
    }

    fn find(&self, environment: &str) -> (at: Option<usize>)
        requires
            self.wf(),
        ensures
            match at {
                Some(i) => i < self.entries@.len() && self.entries@[i as int].0@ == environment@,
                None => forall|i: int| 0 <= i < self.entries@.len() ==> self.entries@[i].0@ != environment@,
            },
    {
        let mut i: usize = 0;
        while i < self.entries.len()
            invariant
                i <= self.entries@.len(),
                forall|j: int| 0 <= j < i ==> self.entries@[j].0@ != environment@,
            decreases self.entries@.len() - i,
        {
            if crate::text::str_eq(self.entries[i].0.as_str(), environment) {
                return Some(i);
            }
            i = i + 1;
        }
        None
    }

    /// Stashes an environment's navigator, replacing what was stashed for
    /// it; a navigator that never scanned and holds no history is not
    /// stashed.
    pub fn stash(&mut self, environment: String, scan_started: bool, history_empty: bool, navigator: T)
        requires
            old(self).wf(),
        ensures
            final(self).wf(),
            !scan_started && history_empty ==> final(self)@ == old(self)@,
            !(!scan_started && history_empty) ==> final(self)@ == old(self)@.insert(environment@, navigator),
    {
        if !scan_started && history_empty {
            return;
        }
        let ghost start = self.entries@;
        match self.find(environment.as_str()) {
            Some(i) => {
                proof {
                    lemma_stash_map_remove(start, i as int);
                }
                let _ = self.entries.remove(i);
            },
            None => {},
        }
        let ghost mid = self.entries@;
        assert(forall|j: int| 0 <= j < mid.len() ==> mid[j].0@ != environment@) by {
            assert forall|j: int| 0 <= j < mid.len() implies mid[j].0@ != environment@ by {
                if mid.len() < start.len() {
                    let i = choose|i: int| 0 <= i < start.len() && start[i].0@ == environment@ && mid == start.remove(i);
                    let j0 = if j < i { j } else { j + 1 };
                    assert(mid[j] == start[j0]);
                    assert(start[i] == start[i]);
                    if j0 != i {
                        assert(start[i].0@ != start[j0].0@ || i == j0);
                    }
                }
            }
        }
        let ghost key = environment@;
        self.entries.push((environment, navigator));
        assert(self.entries@.drop_last() =~= mid);
        assert forall|a: int, b: int| #![trigger self.entries@[a], self.entries@[b]] 0 <= a < b < self.entries@.len()
            implies self.entries@[a].0@ != self.entries@[b].0@ by {
            if b < mid.len() {
                assert(self.entries@[a] == mid[a] && self.entries@[b] == mid[b]);
            } else {
                assert(self.entries@[a] == mid[a]);
            }
        }
        assert(stash_map(self.entries@) =~= old(self)@.insert(key, navigator));
    }

    /// Takes an environment's stashed navigator out, if there is one.
    pub fn restore(&mut self, environment: &str) -> (navigator: Option<T>)
        requires
            old(self).wf(),
        ensures
            final(self).wf(),
            final(self)@ == old(self)@.remove(environment@),
            old(self)@.contains_key(environment@) ==> navigator == Some(old(self)@[environment@]),
            !old(self)@.contains_key(environment@) ==> navigator is None,
    {
        let ghost start = self.entries@;
        proof {
            lemma_stash_map_has(start);
        }
        match self.find(environment) {
            Some(i) => {
                proof {
                    lemma_stash_map_remove(start, i as int);
                }
                let (_, navigator) = self.entries.remove(i);
                Some(navigator)
            },
            None => {
                assert(!stash_map(start).contains_key(environment@));
                assert(stash_map(start).remove(environment@) =~= stash_map(start));
                None
            },
        }
    }
}

/// Restoring an environment gives back what was last stashed for it, and
/// leaves the other environments' stashes as they were.
pub proof fn lemma_restore_gives_back_the_stash<T>(m: Map<Seq<char>, T>, environment: Seq<char>, navigator: T)
    ensures
        m.insert(environment, navigator).contains_key(environment),
        m.insert(environment, navigator)[environment] == navigator,
        m.insert(environment, navigator).remove(environment) == m.remove(environment),
{
    assert(m.insert(environment, navigator).remove(environment) =~= m.remove(environment));
}

// -------------------------------------------------------- keyboard cursor

/// The position of `id` in `ids`, if it is there.
pub fn position_of(ids: &[NavigatorRowId], id: NavigatorRowId) -> (at: Option<usize>)
    ensures
        at matches Some(i) ==> first_index(ids@, id) == Some(i as int),
        at is None ==> first_index(ids@, id) is None,
{
    let mut i: usize = 0;
    while i < ids.len()
        invariant
            i <= ids@.len(),
            forall|j: int| 0 <= j < i ==> ids@[j] != id,
        decreases ids@.len() - i,
    {
        if ids[i] == id {
            proof {
                lemma_first_index_found(ids@, id, i as int);
            }
            return Some(i);
        }
        i = i + 1;
    }
    proof {
        lemma_first_index_absent(ids@, id);
    }
    None
}

/// `i` held inside `lo..=hi`.
pub open spec fn clamp(i: int, lo: int, hi: int) -> int {
    if i < lo {
        lo
    } else if i > hi {
        hi
    } else {
        i
    }
}

/// Where a move by `delta` lands among the (non-empty) visible rows: `delta`
/// rows on from the cursor's row, held to the list's ends; from no row (or a
/// row no longer visible), the last row when moving up and the first when
/// moving down.
pub open spec fn move_target(visible: Seq<NavigatorRowId>, current: Option<NavigatorRowId>, delta: int) -> int {
    let at = match current {
        Some(c) => first_index(visible, c),
        None => None,
    };
    match at {
        Some(i) => clamp(i + delta, 0, visible.len() - 1),
        None => if delta < 0 {
            visible.len() - 1
        } else {
            0
        },
    }
}

/// A move by `delta` from the row at position `i` (its first position in
/// the list) lands `delta` rows on, at position `i + delta`, when there is
/// such a row; past either end it stops at the first or the last row. So
/// Down from any row but the last lands on the very next row, and Up from
/// any row but the first on the row just above.
pub proof fn lemma_move_lands_delta_rows_on(visible: Seq<NavigatorRowId>, i: int, delta: int)
    requires
        0 <= i < visible.len(),
        forall|k: int| 0 <= k < i ==> visible[k] != visible[i],
    ensures
        0 <= i + delta < visible.len() ==> move_target(visible, Some(visible[i]), delta) == i + delta,
        i + delta < 0 ==> move_target(visible, Some(visible[i]), delta) == 0,
        i + delta >= visible.len() ==> move_target(visible, Some(visible[i]), delta) == visible.len() - 1,
        0 <= move_target(visible, Some(visible[i]), delta) < visible.len(),
{
    lemma_first_index_found(visible, visible[i], i);
}

/// With no cursor, or a cursor on a row that is not visible, a move enters
/// the list at an end: Up lands on the last row, Down on the first.
pub proof fn lemma_move_from_nowhere_enters_at_an_end(
    visible: Seq<NavigatorRowId>,
    current: Option<NavigatorRowId>,
    delta: int,
)
    requires
        visible.len() > 0,
        current matches Some(c) ==> !visible.contains(c),
    ensures
        move_target(visible, current, delta) == if delta < 0 {
            visible.len() - 1
        } else {
            0
        },
{
    if let Some(c) = current {
        lemma_first_index_meaning(visible, c);
        if let Some(i) = first_index(visible, c) {
            assert(visible.contains(c));
        }
    }
}

/// The keyboard cursor of the session list. It holds a row's identity, never
/// a position, so reordering or filtering cannot move it to another row.
#[derive(Clone, Copy, Debug, Default, PartialEq, Eq, Structural)]
pub struct SessionKeyboardCursor {
    pub row_id: Option<NavigatorRowId>,
}

impl SessionKeyboardCursor {
    pub fn current(&self) -> (row: Option<&NavigatorRowId>)
        ensures
            row matches Some(r) ==> self.row_id == Some(*r),
            row is None ==> self.row_id is None,
    {
        self.row_id.as_ref()
    }

    /// Drops the cursor when its row is no longer visible.
    pub fn normalize(&mut self, visible: &[NavigatorRowId])
        ensures
            final(self).row_id == match old(self).row_id {
                Some(c) => if visible@.contains(c) {
                    Some(c)
                } else {
                    None
                },
                None => None,
            },
    {
        if let Some(current) = self.row_id {
            let at = position_of(visible, current);
            proof {
                lemma_first_index_meaning(visible@, current);
            }
            if at.is_none() {
                self.row_id = None;
            }
        }
    }

    /// Moves the cursor by `delta` visible rows and returns where it landed.
    /// With nothing visible the cursor is cleared.
    pub fn move_by(&mut self, visible: &[NavigatorRowId], delta: isize) -> (landed: Option<NavigatorRowId>)
        ensures
            match old(self).row_id {
                Some(c) => match first_index(visible@, c) {
                    Some(i) => {
                        &&& (0 <= i + delta < visible@.len() ==> landed == Some(visible@[i + delta]))
                        &&& (i + delta < 0 ==> landed == Some(visible@[0]))
                        &&& (i + delta >= visible@.len() ==> landed == Some(visible@[visible@.len() - 1]))
                    },
                    None => visible@.len() > 0 ==> landed == Some(
                        visible@[if delta < 0 { visible@.len() - 1 } else { 0 }],
                    ),
                },
                None => visible@.len() > 0 ==> landed == Some(
                    visible@[if delta < 0 { visible@.len() - 1 } else { 0 }],
                ),
            },
            visible@.len() == 0 ==> final(self).row_id is None && landed is None,
            visible@.len() > 0 ==> ({
                let next = move_target(visible@, old(self).row_id, delta as int);
                &&& 0 <= next < visible@.len()
                &&& final(self).row_id == Some(visible@[next])
                &&& landed == Some(visible@[next])
            }),
    {
        proof {
            if let Some(c) = old(self).row_id {
                lemma_first_index_meaning(visible@, c);
                if let Some(i) = first_index(visible@, c) {
                    lemma_move_lands_delta_rows_on(visible@, i, delta as int);
                } else if visible@.len() > 0 {
                    lemma_move_from_nowhere_enters_at_an_end(visible@, old(self).row_id, delta as int);
                }
            } else if visible@.len() > 0 {
                lemma_move_from_nowhere_enters_at_an_end(visible@, old(self).row_id, delta as int);
            }
        }
        if visible.len() == 0 {
            self.row_id = None;
            return None;
        }
        let at = match self.row_id {
            Some(current) => position_of(visible, current),
            None => None,
        };
        let last = visible.len() - 1;
        let next: usize = match at {
            Some(index) => {
                let target: i128 = index as i128 + delta as i128;
                if target < 0 {
                    0
                } else if target > last as i128 {
                    last
                } else {
                    target as usize
                }
            },
            None => if delta < 0 {
                last
            } else {
                0
            },
        };
        self.row_id = Some(visible[next]);
        self.row_id
    }

    /// The row Enter activates: the cursor's row if it is still visible.
    pub fn activation_target(&mut self, visible: &[NavigatorRowId]) -> (target: Option<NavigatorRowId>)
        ensures
            final(self).row_id == match old(self).row_id {
                Some(c) => if visible@.contains(c) {
                    Some(c)
                } else {
                    None
                },
                None => None,
            },
            target == final(self).row_id,
    {
        self.normalize(visible);
        self.row_id
    }

    pub fn clear(&mut self)
        ensures
            final(self).row_id is None,
    {
        self.row_id = None;
    }
}

/// A cursor that moved over a non-empty list sits on a visible row.
pub proof fn lemma_moved_cursor_is_visible(visible: Seq<NavigatorRowId>, current: Option<NavigatorRowId>, delta: int)
    requires
        visible.len() > 0,
    ensures
        0 <= move_target(visible, current, delta) < visible.len(),
{
    if let Some(c) = current {
        lemma_first_index_meaning(visible, c);
    }
}

// ------------------------------------------------------- viewport projection

/// The rows that reorder together: the panes of one split tab move as one.
#[derive(Debug, PartialEq, Eq)]
pub struct SessionReorderUnit {
    pub row_ids: Vec<NavigatorRowId>,
}

impl View for SessionReorderUnit {
    type V = Seq<NavigatorRowId>;

    open spec fn view(&self) -> Seq<NavigatorRowId> {
        self.row_ids@
    }
}

/// A copy of a list of row ids.
pub fn copy_ids(ids: &[NavigatorRowId]) -> (copy: Vec<NavigatorRowId>)
    ensures
        copy@ == ids@,
{
    let mut copy: Vec<NavigatorRowId> = Vec::new();
    let mut i: usize = 0;
    while i < ids.len()
        invariant
            i <= ids@.len(),
            copy@ == ids@.take(i as int),
        decreases ids@.len() - i,
    {
        copy.push(ids[i]);
        i = i + 1;
        assert(copy@ =~= ids@.take(i as int));
    }
    assert(copy@ =~= ids@);
    copy
}

/// Whether two lists of row ids are equal.
pub fn ids_eq(a: &[NavigatorRowId], b: &[NavigatorRowId]) -> (same: bool)
    ensures
        same == (a@ == b@),
{
    if a.len() != b.len() {
        return false;
    }
    let mut i: usize = 0;
    while i < a.len()
        invariant
            a@.len() == b@.len(),
            i <= a@.len(),
            forall|k: int| 0 <= k < i ==> a@[k] == b@[k],
        decreases a@.len() - i,
    {
        if a[i] != b[i] {
            return false;
        }
        i = i + 1;
    }
    assert(a@ =~= b@);
    true
}

impl Clone for SessionReorderUnit {
    fn clone(&self) -> (copy: Self)
        ensures
            copy@ == self@,
    {
        SessionReorderUnit { row_ids: copy_ids(self.row_ids.as_slice()) }
    }
}

/// The units of a list, as plain values.
pub open spec fn units_view(units: Seq<SessionReorderUnit>) -> Seq<Seq<NavigatorRowId>> {
    units.map_values(|u: SessionReorderUnit| u@)
}

proof fn lemma_units_view_index(units: Seq<SessionReorderUnit>, k: int)
    requires
        0 <= k < units.len(),
    ensures
        units_view(units).len() == units.len(),
        units_view(units)[k] == units[k]@,
{
}

/// A unit is shown when one of its rows matches the filter.
pub open spec fn unit_matches(unit: Seq<NavigatorRowId>, matched: Seq<NavigatorRowId>) -> bool {
    exists|k: int| 0 <= k < unit.len() && matched.contains(#[trigger] unit[k])
}

/// Whether `id` is one of `ids`.
pub fn contains_id(ids: &[NavigatorRowId], id: NavigatorRowId) -> (found: bool)
    ensures
        found == ids@.contains(id),
{
    let at = position_of(ids, id);
    proof {
        lemma_first_index_meaning(ids@, id);
    }
    at.is_some()
}

fn unit_matches_exec(unit: &SessionReorderUnit, matched: &[NavigatorRowId]) -> (shown: bool)
    ensures
        shown == unit_matches(unit@, matched@),
{
    let mut k: usize = 0;
    while k < unit.row_ids.len()
        invariant
            k <= unit@.len(),
            forall|j: int| 0 <= j < k ==> !matched@.contains(#[trigger] unit@[j]),
        decreases unit@.len() - k,
    {
        if contains_id(matched, unit.row_ids[k]) {
            return true;
        }
        k = k + 1;
    }
    false
}

/// The units the session list shows, in canonical order. Indices into it are
/// positions on screen only; rows are always named by their identity.
#[derive(Debug, Default, PartialEq, Eq)]
pub struct SessionViewportProjection {
    units: Vec<SessionReorderUnit>,
}

impl View for SessionViewportProjection {
    type V = Seq<Seq<NavigatorRowId>>;

    closed spec fn view(&self) -> Seq<Seq<NavigatorRowId>> {
        units_view(self.units@)
    }
}

/// The longest run the two lists start with in common.
pub open spec fn common_prefix_len(a: Seq<Seq<NavigatorRowId>>, b: Seq<Seq<NavigatorRowId>>) -> nat
    decreases a.len(),
{
    if a.len() == 0 || b.len() == 0 || a[0] != b[0] {
        0
    } else {
        1 + common_prefix_len(a.drop_first(), b.drop_first())
    }
}

/// The longest run the two lists end with in common.
pub open spec fn common_suffix_len(a: Seq<Seq<NavigatorRowId>>, b: Seq<Seq<NavigatorRowId>>) -> nat
    decreases a.len(),
{
    if a.len() == 0 || b.len() == 0 || a.last() != b.last() {
        0
    } else {
        1 + common_suffix_len(a.drop_last(), b.drop_last())
    }
}

proof fn lemma_common_prefix(a: Seq<Seq<NavigatorRowId>>, b: Seq<Seq<NavigatorRowId>>, i: int)
    requires
        0 <= i <= a.len(),
        i <= b.len(),
        forall|k: int| 0 <= k < i ==> a[k] == b[k],
        i == a.len() || i == b.len() || a[i] != b[i],
    ensures
        common_prefix_len(a, b) == i,
    decreases i,
{
    if i > 0 {
        let (ta, tb) = (a.drop_first(), b.drop_first());
        assert forall|k: int| 0 <= k < i - 1 implies ta[k] == tb[k] by {
            assert(ta[k] == a[k + 1]);
            assert(tb[k] == b[k + 1]);
        }
        if i < a.len() && i < b.len() {
            assert(ta[i - 1] == a[i]);
            assert(tb[i - 1] == b[i]);
        }
        lemma_common_prefix(ta, tb, i - 1);
    }
}

/// The `k`-th element from the end (`k` counts from one).
pub open spec fn back<T>(s: Seq<T>, k: int) -> T {
    s[s.len() - k]
}

proof fn lemma_common_suffix(a: Seq<Seq<NavigatorRowId>>, b: Seq<Seq<NavigatorRowId>>, i: int)
    requires
        0 <= i <= a.len(),
        i <= b.len(),
        forall|k: int| 1 <= k <= i ==> #[trigger] back(a, k) == back(b, k),
        i == a.len() || i == b.len() || a[a.len() - i - 1] != b[b.len() - i - 1],
    ensures
        common_suffix_len(a, b) == i,
    decreases i,
{
    if i > 0 {
        let (ta, tb) = (a.drop_last(), b.drop_last());
        assert forall|k: int| 1 <= k <= i - 1 implies #[trigger] back(ta, k) == back(tb, k) by {
            assert(back(ta, k) == back(a, k + 1));
            assert(back(tb, k) == back(b, k + 1));
        }
        assert(a.last() == b.last()) by {
            assert(back(a, 1) == back(b, 1));
        }
        if i < a.len() && i < b.len() {
            assert(ta[ta.len() - i] == a[a.len() - i - 1]);
            assert(tb[tb.len() - i] == b[b.len() - i - 1]);
        }
        lemma_common_suffix(ta, tb, i - 1);
    }
}

/// The first position of a unit holding `id`.
pub open spec fn unit_index_of(units: Seq<Seq<NavigatorRowId>>, id: NavigatorRowId) -> Option<int> {
    first_where(units, |u: Seq<NavigatorRowId>| u.contains(id))
}

proof fn lemma_unit_index_found(units: Seq<Seq<NavigatorRowId>>, id: NavigatorRowId, i: int)
    requires
        0 <= i < units.len(),
        units[i].contains(id),
        forall|j: int| 0 <= j < i ==> !(#[trigger] units[j]).contains(id),
    ensures
        unit_index_of(units, id) == Some(i),
{
    lemma_first_where_found(units, |u: Seq<NavigatorRowId>| u.contains(id), i);
}

proof fn lemma_unit_index_absent(units: Seq<Seq<NavigatorRowId>>, id: NavigatorRowId)
    requires
        forall|j: int| 0 <= j < units.len() ==> !(#[trigger] units[j]).contains(id),
    ensures
        unit_index_of(units, id) is None,
{
    lemma_first_where_absent(units, |u: Seq<NavigatorRowId>| u.contains(id));
}

impl SessionViewportProjection {
    /// The units of `units` (the navigator's reorder units, in order) that
    /// hold at least one row of `matched` (the rows the search matches).
    pub fn new(units: &Vec<SessionReorderUnit>, matched: &[NavigatorRowId]) -> (projection: Self)
        ensures
            projection@ == units_view(units@).filter(|u: Seq<NavigatorRowId>| unit_matches(u, matched@)),
    {
        let ghost pred = |u: Seq<NavigatorRowId>| unit_matches(u, matched@);
        let mut kept: Vec<SessionReorderUnit> = Vec::new();
        let mut i: usize = 0;
        while i < units.len()
            invariant
                i <= units@.len(),
                pred == (|u: Seq<NavigatorRowId>| unit_matches(u, matched@)),
                units_view(kept@) == units_view(units@).take(i as int).filter(pred),
            decreases units@.len() - i,
        {
            proof {
                reveal(Seq::filter);
                assert(units_view(units@).take(i + 1).drop_last() =~= units_view(units@).take(
                    i as int,
                ));
            }
            if unit_matches_exec(&units[i], matched) {
                kept.push(units[i].clone());
            }
            i = i + 1;
            proof {
                assert(units_view(kept@) =~= units_view(units@).take(i as int).filter(pred));
            }
        }
        assert(units_view(units@).take(units@.len() as int) =~= units_view(units@));
        SessionViewportProjection { units: kept }
    }

    pub fn len(&self) -> (n: usize)
        ensures
            n == self@.len(),
    {
        self.units.len()
    }

    pub fn is_empty(&self) -> (empty: bool)
        ensures
            empty == (self@.len() == 0),
    {
        self.units.len() == 0
    }

    pub fn unit(&self, index: usize) -> (unit: Option<&SessionReorderUnit>)
        ensures
            index < self@.len() ==> (unit matches Some(u) && u@ == self@[index as int]),
            index >= self@.len() ==> unit is None,
    {
        if index < self.units.len() {
            Some(&self.units[index])
        } else {
            None
        }
    }

    /// The first `limit` units.
    pub fn truncated(&self, limit: usize) -> (first: Self)
        ensures
            first@ == self@.take(if limit < self@.len() {
                limit as int
            } else {
                self@.len() as int
            }),
    {
        let n = if limit < self.units.len() {
            limit
        } else {
            self.units.len()
        };
        let mut kept: Vec<SessionReorderUnit> = Vec::new();
        let mut i: usize = 0;
        while i < n
            invariant
                n <= self.units@.len(),
                i <= n,
                kept@.len() == i,
                forall|k: int| 0 <= k < i ==> (#[trigger] kept@[k])@ == self.units@[k]@,
            decreases n - i,
        {
            let unit = self.units[i].clone();
            kept.push(unit);
            i = i + 1;
        }
        proof {
            assert forall|k: int| 0 <= k < n implies #[trigger] units_view(kept@)[k] == units_view(
                self.units@,
            ).take(n as int)[k] by {
                lemma_units_view_index(kept@, k);
                lemma_units_view_index(self.units@, k);
            }
            assert(units_view(kept@) =~= units_view(self.units@).take(n as int));
        }
        SessionViewportProjection { units: kept }
    }

    /// The position of the unit holding `row_id`.
    pub fn unit_index_for_row(&self, row_id: &NavigatorRowId) -> (at: Option<usize>)
        ensures
            at matches Some(i) ==> unit_index_of(self@, *row_id) == Some(i as int),
            at is None ==> unit_index_of(self@, *row_id) is None,
    {
        let id = *row_id;
        let mut i: usize = 0;
        while i < self.units.len()
            invariant
                i <= self@.len(),
                self@ == units_view(self.units@),
                id == *row_id,
                forall|j: int| 0 <= j < i ==> !(#[trigger] self@[j]).contains(id),
            decreases self@.len() - i,
        {
            proof {
                lemma_units_view_index(self.units@, i as int);
            }
            if contains_id(self.units[i].row_ids.as_slice(), id) {
                proof {
                    lemma_units_view_index(self.units@, i as int);
                    lemma_unit_index_found(self@, id, i as int);
                }
                return Some(i);
            }
            i = i + 1;
        }
        proof {
            lemma_unit_index_absent(self@, id);
        }
        None
    }

    /// Every shown row id, unit after unit.
    pub fn row_ids(&self) -> (ids: Vec<NavigatorRowId>)
        ensures
            ids@ == concat_all(self@),
    {
        let mut ids: Vec<NavigatorRowId> = Vec::new();
        let mut i: usize = 0;
        while i < self.units.len()
            invariant
                i <= self@.len(),
                self@ == units_view(self.units@),
                ids@ == concat_all(self@.take(i as int)),
            decreases self@.len() - i,
        {
            let unit = &self.units[i];
            let mut k: usize = 0;
            let ghost before = ids@;
            while k < unit.row_ids.len()
                invariant
                    k <= unit@.len(),
                    ids@ == before + unit@.take(k as int),
                decreases unit@.len() - k,
            {
                ids.push(unit.row_ids[k]);
                k = k + 1;
                assert(ids@ =~= before + unit@.take(k as int));
            }
            assert(self@.take(i + 1).drop_last() =~= self@.take(i as int));
            assert(unit@.take(unit@.len() as int) =~= unit@);
            i = i + 1;
        }
        assert(self@.take(self@.len() as int) =~= self@);
        ids
    }

    /// What changed since `previous`: the units of `previous` in
    /// `range.start..range.end` were replaced by `count` units of `self`,
    /// starting at the same position. Everything before the range is the
    /// longest common prefix and everything after it the longest common
    /// suffix of what follows that prefix.
    pub fn splice_delta(&self, previous: &Self) -> (delta: (std::ops::Range<usize>, usize))
        ensures
            ({
                let prefix = common_prefix_len(previous@, self@);
                let suffix = common_suffix_len(
                    previous@.skip(prefix as int),
                    self@.skip(prefix as int),
                );
                &&& delta.0.start == prefix
                &&& delta.0.end == previous@.len() - suffix
                &&& delta.1 == self@.len() - prefix - suffix
            }),
            delta.0.start <= delta.0.end <= previous@.len(),
            delta.0.start + delta.1 <= self@.len(),
            self@ == previous@.take(delta.0.start as int) + self@.subrange(
                delta.0.start as int,
                delta.0.start + delta.1,
            ) + previous@.skip(delta.0.end as int),
    {
        let (old_units, new_units) = (&previous.units, &self.units);
        let ghost (a, b) = (previous@, self@);
        let mut prefix: usize = 0;
        while prefix < old_units.len() && prefix < new_units.len() && ids_eq(
            old_units[prefix].row_ids.as_slice(),
            new_units[prefix].row_ids.as_slice(),
        )
            invariant
                a == units_view(old_units@),
                b == units_view(new_units@),
                prefix <= a.len(),
                prefix <= b.len(),
                forall|k: int| 0 <= k < prefix ==> a[k] == b[k],
            decreases a.len() - prefix,
        {
            prefix = prefix + 1;
        }
        proof {
            lemma_common_prefix(a, b, prefix as int);
        }
        let ghost (ra, rb) = (a.skip(prefix as int), b.skip(prefix as int));
        let mut suffix: usize = 0;
        while suffix < old_units.len() - prefix && suffix < new_units.len() - prefix && ids_eq(
            old_units[old_units.len() - 1 - suffix].row_ids.as_slice(),
            new_units[new_units.len() - 1 - suffix].row_ids.as_slice(),
        )
            invariant
                a == units_view(old_units@),
                b == units_view(new_units@),
                prefix <= a.len(),
                prefix <= b.len(),
                ra == a.skip(prefix as int),
                rb == b.skip(prefix as int),
                suffix <= ra.len(),
                suffix <= rb.len(),
                forall|k: int| 1 <= k <= suffix ==> #[trigger] back(ra, k) == back(rb, k),
            decreases ra.len() - suffix,
        {
            assert(back(ra, suffix + 1) == a[a.len() - 1 - suffix]);
            assert(back(rb, suffix + 1) == b[b.len() - 1 - suffix]);
            suffix = suffix + 1;
        }
        proof {
            if suffix < ra.len() && suffix < rb.len() {
                assert(ra[ra.len() - suffix - 1] == a[a.len() - 1 - suffix]);
                assert(rb[rb.len() - suffix - 1] == b[b.len() - 1 - suffix]);
            }
            lemma_common_suffix(ra, rb, suffix as int);
            let end = a.len() - suffix;
            let count = b.len() - prefix - suffix;
            assert(b =~= a.take(prefix as int) + b.subrange(prefix as int, prefix + count) + a.skip(end)) by {
                assert forall|k: int| 0 <= k < b.len() implies #[trigger] b[k] == (a.take(prefix as int) + b.subrange(prefix as int, prefix + count) + a.skip(end))[k] by {
                    if k >= prefix + count {
                        let j = b.len() - k;
                        assert(1 <= j <= suffix);
                        assert(back(ra, j) == back(rb, j));
                        assert(back(ra, j) == a[a.len() - j]);
                        assert(back(rb, j) == b[b.len() - j]);
                    }
                }
            }
        }
        (
            std::ops::Range { start: prefix, end: old_units.len() - suffix },
            new_units.len() - (prefix + suffix),
        )
    }
}

} // verus!
