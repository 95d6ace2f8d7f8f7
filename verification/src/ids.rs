//! Opaque identities the views pass around. Each is compared only for
//! equality, so each is held as the integer behind it.
use vstd::prelude::*;

verus! {

/// A workspace (a UUID, held as its 128 bits).
#[derive(Clone, Copy, Debug, PartialEq, Eq, Hash, Structural)]
pub struct WorkspaceId(pub u128);

/// A tab of a machine's tree (a UUID, held as its 128 bits).
#[derive(Clone, Copy, Debug, PartialEq, Eq, Hash, Structural)]
pub struct TabId(pub u128);

/// A connected host; `HostId(0)` is this computer.
#[derive(Clone, Copy, Debug, PartialEq, Eq, Hash, Structural)]
pub struct HostId(pub u64);

/// The stable identity of one row of the session navigator.
#[derive(Clone, Copy, Debug, PartialEq, Eq, Hash, Structural)]
pub struct NavigatorRowId(pub u64);

} // verus!
