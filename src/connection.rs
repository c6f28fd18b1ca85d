//! Connection roles of a client session.
use vstd::prelude::*;

verus! {

/// What a client connection is used for: a player's primary link, a
/// backup link, or one not yet associated with a player.
#[derive(Clone, Copy, Debug, PartialEq, Eq, Hash, Structural)]
pub enum ConnectionType {
    Primary,
    Backup,
    Inactive,
}

} // verus!
