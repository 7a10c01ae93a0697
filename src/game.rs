use vstd::prelude::*;

verus! {

/// A client's transport endpoint, held as plain values: the IP address as a
/// 128-bit number (IPv4 in its low 32 bits), the port, and the address family.
#[derive(Clone, Copy, Debug, PartialEq, Eq, Structural, Hash)]
pub struct Endpoint {
    pub ip: u128,
    pub port: u16,
    pub v6: bool,
}

/// Health a player starts with.
pub const START_HEALTH: i32 = 100;

/// A player's session state.
pub struct Player {
    pub player_name: String,
    pub id: u32,
    pub health: i32,
    /// When the last packet from this player arrived, in milliseconds of a
    /// monotonic clock.
    pub last_active: u64,
}

impl Default for Player {
    fn default() -> (r: Self)
        ensures
            r.player_name@ == Seq::<char>::empty(),
            r.id == 0,
            r.health == START_HEALTH,
            r.last_active == 0,
    {
        Player { player_name: String::new(), id: 0, health: START_HEALTH, last_active: 0 }
    }
}

impl Player {
    /// A player with the given id and default state.
    pub fn new(id: u32) -> (r: Self)
        ensures
            r.player_name@ == Seq::<char>::empty(),
            r.id == id,
            r.health == START_HEALTH,
            r.last_active == 0,
    {
        let mut player = Player::default();
        player.id = id;
        player
    }
}

/// A room member: the address it joined from and its player id.
#[derive(Clone, Copy, Debug, PartialEq, Eq, Structural)]
pub struct Member {
    pub addr: Endpoint,
    pub player_id: u32,
}

/// No two members share an address.
pub open spec fn members_distinct(ms: Seq<Member>) -> bool {
    forall|i: int, j: int| 0 <= i < ms.len() && 0 <= j < ms.len() && i != j ==> ms[i].addr != ms[j].addr
}

/// A named, password-protected group of players.
pub struct Room {
    pub id: u32,
    pub room_name: String,
    pub room_pass: String,
    pub players: Vec<Member>,
}

impl Room {
    pub fn new(id: u32, room_name: String, room_pass: String, players: Vec<Member>) -> (r: Self)
        ensures
            r.id == id,
            r.room_name == room_name,
            r.room_pass == room_pass,
            r.players == players,
    {
        Room { id, room_name, room_pass, players }
    }
}

} // verus!
