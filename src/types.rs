//! Plain data shared by the live room and the replay verifier.
use vstd::prelude::*;

verus! {

/// Rows of the board: a cake is spawned at a row below this.
pub const BOARD_ROWS: usize = 14;

/// Columns of the board: a cake is spawned at a column below this.
pub const BOARD_COLS: usize = 21;

/// The most players a room holds.
pub const CAPACITY: usize = 4;

/// Minimum time between two accepted actions of one player, in milliseconds.
pub const MOVE_INTERVAL_MS: u64 = 300;

/// Age at which an uneaten cake is missed, in milliseconds.
pub const CAKE_LIFETIME_MS: u64 = 4000;

/// Number of cakes in a match: the match ends when this many are consumed.
pub const CAKE_TARGET: usize = 10;

/// How long a joinable room waits for players before it starts anyway, in milliseconds.
pub const WAITING_TIME_MS: u64 = 120_000;

/// Seconds before the first spawner run of a room created with all its players.
pub const FIRST_SPAWN_DELAY_PROVISIONED: u64 = 20;

/// Seconds before the first spawner run of a room that players join one by one.
pub const FIRST_SPAWN_DELAY_JOINABLE: u64 = 10;

/// Seconds between two later spawner runs.
pub const SPAWN_PERIOD: u64 = 5;

/// A chain account: a 160-bit address, held as its high 128 bits and its low 32 bits.
#[derive(Clone, Copy, Debug, PartialEq, Eq, Structural)]
pub struct Address {
    pub high: u128,
    pub low: u32,
}

/// A transport peer: a 160-bit identifier, held as its high 128 bits and its low 32 bits.
#[derive(Clone, Copy, Debug, PartialEq, Eq, Structural)]
pub struct PeerId {
    pub high: u128,
    pub low: u32,
}

/// A cell of the board, or any pair of coordinates a move names.
#[derive(Clone, Copy, Debug, PartialEq, Eq, Structural)]
pub struct Position {
    pub row: u64,
    pub col: u64,
}

/// A player that asks to take part in a room: its peer and its account.
#[derive(Clone, Copy, Debug, PartialEq, Eq, Structural)]
pub struct Player {
    pub peer: PeerId,
    pub account: Address,
}

/// The state of one player inside a room.
#[derive(Clone, Copy, Debug, PartialEq, Eq, Structural)]
pub struct GamePlayer {
    /// Row and column the player stands on.
    pub position: Position,
    /// Cakes eaten so far.
    pub score: u32,
    /// Time of the last accepted action, in milliseconds.
    pub timeout: u64,
}

/// A registered member of a room.
#[derive(Clone, Copy, Debug, PartialEq, Eq, Structural)]
pub struct Member {
    pub peer: PeerId,
    pub account: Address,
    pub player: GamePlayer,
}

/// A collectible cake.
#[derive(Clone, Copy, Debug, PartialEq, Eq, Structural)]
pub struct Cake {
    /// Position in spawn order, starting at 1.
    pub index: u32,
    /// Row and column.
    pub position: Position,
    /// Spawn time, in milliseconds.
    pub timeout: u64,
}

/// One entry of the operation log.
#[derive(Clone, Copy, Debug, PartialEq, Eq, Structural)]
pub enum Operation {
    /// A player's account moved to a row and a column.
    Move(Address, u64, u64),
    /// A cake of the given index appeared at a row and a column.
    CakeCreated(u32, u64, u64),
    /// The cake of the given index expired uneaten.
    CakeMissed(u32),
}

/// A message that a room sends to its peers.
#[derive(Clone, Copy, Debug, PartialEq, Eq, Structural)]
pub enum Broadcast {
    /// `moved`: an account's new row and column.
    Moved(Address, u64, u64),
    /// `cake`: a cake's index, row and column.
    Cake(u32, u64, u64),
    /// `eaten`: a cake's index, who ate it and their new score; `None` and
    /// zero when it expired uneaten.
    Eaten(u32, Option<Address>, u32),
    /// `started`: the room left its joining phase.
    Started,
    /// `over`: the match reached its end.
    Over,
}

/// Why a call into a room was refused. A refused call changes nothing.
#[derive(Clone, Copy, Debug, PartialEq, Eq, Structural)]
pub enum GameError {
    /// The player acted too soon after its last accepted action, or the match is over.
    Timeout,
    /// The peer is not a member of the room.
    NoPlayer,
    /// The method or its parameters are not understood.
    Params,
}

/// Life cycle of a room.
#[derive(Clone, Copy, Debug, PartialEq, Eq, Structural)]
pub enum Phase {
    /// Players may still join.
    Forming,
    /// The match runs.
    Started,
    /// The match ended; nothing changes any more.
    Over,
}

/// How the players of a room were gathered.
#[derive(Clone, Copy, Debug, PartialEq, Eq, Structural)]
pub enum Hosting {
    /// All players were known when the room was created.
    Provisioned,
    /// Players joined one by one.
    Joinable,
}

/// The order of accounts used to break ties: by their 160-bit value.
pub open spec fn address_lt(a: Address, b: Address) -> bool {
    a.high < b.high || (a.high == b.high && a.low < b.low)
}

/// Whether `a` comes before `b` in the account order.
pub fn address_before(a: Address, b: Address) -> (r: bool)
    ensures
        r == address_lt(a, b),
{
    a.high < b.high || (a.high == b.high && a.low < b.low)
}

/// The start position of the `i`-th player of a room.
pub open spec fn start_position(i: int) -> Position {
    if i == 0 {
        Position { row: 0, col: 0 }
    } else if i == 1 {
        Position { row: 13, col: 0 }
    } else if i == 2 {
        Position { row: 0, col: 20 }
    } else {
        Position { row: 13, col: 20 }
    }
}

/// The start position of the `i`-th player of a room: the four corners of the board.
pub fn init_position(i: usize) -> (r: Position)
    requires
        i < CAPACITY,
    ensures
        r == start_position(i as int),
{
    if i == 0 {
        Position { row: 0, col: 0 }
    } else if i == 1 {
        Position { row: 13, col: 0 }
    } else if i == 2 {
        Position { row: 0, col: 20 }
    } else {
        Position { row: 13, col: 20 }
    }
}

/// Milliseconds from `since` to `now`, zero when `now` is earlier.
pub open spec fn elapsed(since: u64, now: u64) -> int {
    if now >= since {
        now - since
    } else {
        0
    }
}

/// Milliseconds from `since` to `now`, zero when `now` is earlier.
pub fn elapsed_ms(since: u64, now: u64) -> (r: u64)
    ensures
        r == elapsed(since, now),
{
    if now >= since {
        now - since
    } else {
        0
    }
}

} // verus!
