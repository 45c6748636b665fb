//! Room/session engine for synchronizing randomized item placements across
//! multiple cooperating game instances ("worlds").
//!
//! The crate models the three core components:
//!
//! * the wire protocol: the message sets exchanged between clients and the
//!   server, with a canonical binary encoding proved to round-trip;
//! * the transport handshake: version negotiation and the decision whether a
//!   connection must be upgraded to transport encryption;
//! * the room engine: the authoritative per-room state machine with its
//!   client registry, world assignments, item queues and broadcast rules.
//!
//! State transitions are pure: instead of writing to sockets, each transition
//! returns the list of messages it wants delivered, so that the delivery
//! loop (which performs the actual I/O) stays outside the verified core.

use vstd::prelude::*;

pub mod codec;
pub mod proto;
pub mod room;
pub mod client;
pub mod handshake;
pub mod handle;
pub mod plugin;

verus! {

/// IPv4 address of the default public endpoint, as its four octets.
pub const ADDRESS_V4: [u8; 4] = [37, 252, 122, 84];

/// IPv6 address of the default public endpoint, as its eight segments.
pub const ADDRESS_V6: [u16; 8] = [0x2a02, 0x2770, 0x8, 0, 0x21a, 0x4aff, 0xfee1, 0xf281];

/// TCP port of the default public endpoint.
pub const PORT: u16 = 24809;

/// Protocol version exchanged during the transport handshake.
pub const VERSION: u8 = 1;

/// The item kind that marks an item as shared: it is delivered to every
/// world except the finder, not to a single target world.
pub const TRIFORCE_PIECE: u16 = 0xca;

/// Name bytes of a player that has not set a name yet: eight padding
/// characters of the fixed in-game charset.
pub const DEFAULT_NAME: [u8; 8] = [0xdf, 0xdf, 0xdf, 0xdf, 0xdf, 0xdf, 0xdf, 0xdf];

/// A player: a claimed world slot together with the display name bytes.
///
/// A world is an opaque positive integer; zero is reserved and never valid.
#[derive(Clone, Copy, Debug, PartialEq, Eq)]
pub struct Player {
    pub world: u8,
    pub name: [u8; 8],
}

impl Player {
    /// A freshly claimed world starts out with the default (unset) name.
    pub fn new(world: u8) -> (p: Player)
        requires
            world != 0,
        ensures
            p.world == world,
            p.name == DEFAULT_NAME,
            p.name@ == DEFAULT_NAME@,
            p.wf(),
    {
        Player { world, name: DEFAULT_NAME }
    }

    /// A player is well-formed when it does not claim the reserved world zero.
    pub open spec fn wf(self) -> bool {
        self.world != 0
    }
}

/// An item found by one world, identified by the pair of its source world
/// and a per-source key; the kind is interpreted by the game client.
#[derive(Clone, Copy, Debug, PartialEq, Eq, Structural)]
pub struct Item {
    pub source: u8,
    pub key: u32,
    pub kind: u16,
}

} // verus!
