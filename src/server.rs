use crate::game::{members_distinct, Endpoint, Member, Player, Room, START_HEALTH};
use crate::ids::{allocated, IdPool};
use crate::message::{
    decode, encode, le32, push_bytes, push_u32, DecodeError, Message, MessageModel, CREATE_ROOM,
    JOIN_ROOM,
};
use vstd::prelude::*;
use vstd::utf8::*;

verus! {

/// A registered client: the address it talks from and its player state.
pub struct Session {
    pub addr: Endpoint,
    pub player: Player,
}

/// Why a request from a client was refused.
#[derive(Clone, Copy, Debug, PartialEq, Eq, Structural)]
pub enum ServerError {
    /// The sender has no session.
    NotRegistered,
    /// No room has the requested id.
    RoomNotFound,
    /// The room's password differs from the one given.
    PasswordMismatch,
    /// Every nonzero id is in use.
    IdsExhausted,
    /// The packet is not a request this server answers.
    NotACommand,
}

/// An outbound packet for every session but the excluded one.
#[derive(Debug)]
pub struct BroadcastMessage {
    pub msg: Vec<u8>,
    pub excluded_client: Option<Endpoint>,
}

/// What the server sends after handling a packet.
#[derive(Debug)]
pub enum Outbound {
    /// A packet for the sender alone.
    Reply(Vec<u8>),
    /// A packet for every known session but the excluded one.
    Broadcast(BroadcastMessage),
}

/// The mathematical state of a server: sessions in order of arrival, rooms in
/// order of creation, and both id pools.
pub struct ServerModel {
    pub sessions: Seq<Session>,
    pub rooms: Seq<Room>,
    pub player_ids: Set<u32>,
    pub player_cursor: u32,
    pub room_ids: Set<u32>,
    pub room_cursor: u32,
}

/// Whether some session talks from `a`.
pub open spec fn has_session(s: Seq<Session>, a: Endpoint) -> bool {
    exists|i: int| 0 <= i < s.len() && s[i].addr == a
}

/// The position of the session that talks from `a`.
pub open spec fn session_of(s: Seq<Session>, a: Endpoint) -> int {
    choose|i: int| 0 <= i < s.len() && s[i].addr == a
}

/// Whether some room has id `id`.
pub open spec fn has_room(r: Seq<Room>, id: u32) -> bool {
    exists|i: int| 0 <= i < r.len() && r[i].id == id
}

/// The position of the room with id `id`.
pub open spec fn room_of(r: Seq<Room>, id: u32) -> int {
    choose|i: int| 0 <= i < r.len() && r[i].id == id
}

/// Whether some member joined from `a`.
pub open spec fn has_member(ms: Seq<Member>, a: Endpoint) -> bool {
    exists|i: int| 0 <= i < ms.len() && ms[i].addr == a
}

/// The position of the member that joined from `a`.
pub open spec fn member_of(ms: Seq<Member>, a: Endpoint) -> int {
    choose|i: int| 0 <= i < ms.len() && ms[i].addr == a
}

/// The members after `m` joins: an existing entry for its address is
/// overwritten, else `m` is added at the end.
pub open spec fn joined(ms: Seq<Member>, m: Member) -> Seq<Member> {
    if has_member(ms, m.addr) {
        ms.update(member_of(ms, m.addr), m)
    } else {
        ms.push(m)
    }
}

/// A room's name fits the `u32` length of the join reply.
pub open spec fn name_fits(t: Seq<char>) -> bool {
    encode_utf8(t).len() <= u32::MAX
}

impl ServerModel {
    pub open spec fn wf(self) -> bool {
        &&& self.player_cursor != 0
        &&& !self.player_ids.contains(0)
        &&& self.player_ids.finite()
        &&& self.room_cursor != 0
        &&& !self.room_ids.contains(0)
        &&& self.room_ids.finite()
        &&& forall|i: int, j: int|
            #![trigger self.sessions[i], self.sessions[j]]
            0 <= i < self.sessions.len() && 0 <= j < self.sessions.len() && i != j
                ==> self.sessions[i].addr != self.sessions[j].addr && self.sessions[i].player.id
                != self.sessions[j].player.id
        &&& forall|i: int|
            0 <= i < self.sessions.len() ==> self.player_ids.contains(#[trigger] self.sessions[i].player.id)
        &&& forall|i: int, j: int|
            #![trigger self.rooms[i], self.rooms[j]]
            0 <= i < self.rooms.len() && 0 <= j < self.rooms.len() && i != j ==> self.rooms[i].id
                != self.rooms[j].id
        &&& forall|i: int|
            0 <= i < self.rooms.len() ==> self.room_ids.contains(#[trigger] self.rooms[i].id)
        &&& forall|i: int|
            0 <= i < self.rooms.len() ==> members_distinct(#[trigger] self.rooms[i].players@)
        &&& forall|i: int| 0 <= i < self.rooms.len() ==> name_fits(#[trigger] self.rooms[i].room_name@)
    }

    /// The sessions and rooms are those of `other`; only the id pools may differ.
    pub open spec fn same_registries(self, other: ServerModel) -> bool {
        self.sessions == other.sessions && self.rooms == other.rooms
    }

    pub open spec fn same_player_pool(self, other: ServerModel) -> bool {
        self.player_ids == other.player_ids && self.player_cursor == other.player_cursor
    }

    pub open spec fn same_room_pool(self, other: ServerModel) -> bool {
        self.room_ids == other.room_ids && self.room_cursor == other.room_cursor
    }
}

/// `t` holds the address of every session but the excluded one, and no other.
pub open spec fn targets_of(s: Seq<Session>, excluded: Option<Endpoint>, t: Seq<Endpoint>) -> bool {
    forall|x: Endpoint| #[trigger] t.contains(x) <==> has_session(s, x) && excluded != Some(x)
}

/// The sessions after a packet from `a` arrives at time `now`: that session,
/// if any, is marked active at `now`.
pub open spec fn touched(m: ServerModel, a: Endpoint, now: u64) -> ServerModel {
    ServerModel {
        sessions: Seq::new(
            m.sessions.len(),
            |i: int|
                if m.sessions[i].addr == a {
                    Session {
                        addr: m.sessions[i].addr,
                        player: Player {
                            player_name: m.sessions[i].player.player_name,
                            id: m.sessions[i].player.id,
                            health: m.sessions[i].player.health,
                            last_active: now,
                        },
                    }
                } else {
                    m.sessions[i]
                },
        ),
        ..m
    }
}

/// The outcome of a handshake from `a` that took state `m` to `m2`.
pub open spec fn accept_result(m: ServerModel, m2: ServerModel, a: Endpoint) -> Result<u32, ServerError> {
    if has_session(m.sessions, a) {
        Ok(m.sessions[session_of(m.sessions, a)].player.id)
    } else if m.player_ids.len() >= u32::MAX {
        Err(ServerError::IdsExhausted)
    } else {
        Ok(m2.sessions.last().player.id)
    }
}

/// The outcome of a room creation by `a` that took state `m` to `m2`.
pub open spec fn create_result(m: ServerModel, m2: ServerModel, a: Endpoint) -> Result<u32, ServerError> {
    if !has_session(m.sessions, a) {
        Err(ServerError::NotRegistered)
    } else if m.room_ids.len() >= u32::MAX {
        Err(ServerError::IdsExhausted)
    } else {
        Ok(m2.rooms.last().id)
    }
}

/// What a handshake from `a` with name `name` at time `now` does.
pub open spec fn accepted(m: ServerModel, m2: ServerModel, a: Endpoint, name: Seq<char>, now: u64, r: Result<u32, ServerError>) -> bool {
    if has_session(m.sessions, a) {
        m2 == m && r == Ok::<u32, ServerError>(m.sessions[session_of(m.sessions, a)].player.id)
    } else if m.player_ids.len() >= u32::MAX {
        m2 == m && r == Err::<u32, ServerError>(ServerError::IdsExhausted)
    } else {
        match r {
            Ok(id) => {
                &&& allocated(m.player_cursor, m.player_ids, m2.player_cursor, m2.player_ids, id)
                &&& m2.same_room_pool(m)
                &&& m2.rooms == m.rooms
                &&& m2.sessions.len() == m.sessions.len() + 1
                &&& m2.sessions.drop_last() == m.sessions
                &&& m2.sessions.last().addr == a
                &&& m2.sessions.last().player.player_name@ == name
                &&& m2.sessions.last().player.id == id
                &&& m2.sessions.last().player.health == START_HEALTH
                &&& m2.sessions.last().player.last_active == now
            },
            Err(_) => false,
        }
    }
}

/// What a leave from `a` does: its session is removed and its id freed.
pub open spec fn dropped(m: ServerModel, m2: ServerModel, a: Endpoint) -> bool {
    if has_session(m.sessions, a) {
        let i = session_of(m.sessions, a);
        &&& m2.sessions == m.sessions.remove(i)
        &&& m2.player_ids == m.player_ids.remove(m.sessions[i].player.id)
        &&& m2.player_cursor == m.player_cursor
        &&& m2.rooms == m.rooms
        &&& m2.same_room_pool(m)
    } else {
        m2 == m
    }
}

/// What a room creation by `a` does.
pub open spec fn created(m: ServerModel, m2: ServerModel, a: Endpoint, name: Seq<char>, pass: Seq<char>, r: Result<u32, ServerError>) -> bool {
    if !has_session(m.sessions, a) {
        m2 == m && r == Err::<u32, ServerError>(ServerError::NotRegistered)
    } else if m.room_ids.len() >= u32::MAX {
        m2 == m && r == Err::<u32, ServerError>(ServerError::IdsExhausted)
    } else {
        match r {
            Ok(id) => {
                &&& allocated(m.room_cursor, m.room_ids, m2.room_cursor, m2.room_ids, id)
                &&& m2.same_player_pool(m)
                &&& m2.sessions == m.sessions
                &&& m2.rooms.len() == m.rooms.len() + 1
                &&& m2.rooms.drop_last() == m.rooms
                &&& m2.rooms.last().id == id
                &&& m2.rooms.last().room_name@ == name
                &&& m2.rooms.last().room_pass@ == pass
                &&& m2.rooms.last().players@ == seq![
                    Member { addr: a, player_id: m.sessions[session_of(m.sessions, a)].player.id },
                ]
            },
            Err(_) => false,
        }
    }
}

/// The outcome of a join request by `a` for room `room` with password `pass`.
pub open spec fn join_outcome(m: ServerModel, a: Endpoint, room: u32, pass: Seq<char>) -> Result<(), ServerError> {
    if !has_session(m.sessions, a) {
        Err(ServerError::NotRegistered)
    } else if !has_room(m.rooms, room) {
        Err(ServerError::RoomNotFound)
    } else if m.rooms[room_of(m.rooms, room)].room_pass@ != pass {
        Err(ServerError::PasswordMismatch)
    } else {
        Ok(())
    }

}

/// What a join request does: on success the sender becomes a member of the
/// room; otherwise nothing changes.
pub open spec fn joined_room(m: ServerModel, m2: ServerModel, a: Endpoint, room: u32, pass: Seq<char>) -> bool {
    match join_outcome(m, a, room, pass) {
        Ok(()) => {
            let k = room_of(m.rooms, room);
            let member = Member { addr: a, player_id: m.sessions[session_of(m.sessions, a)].player.id };
            &&& m2.sessions == m.sessions
            &&& m2.same_player_pool(m)
            &&& m2.same_room_pool(m)
            &&& m2.rooms.len() == m.rooms.len()
            &&& forall|j: int| 0 <= j < m.rooms.len() && j != k ==> m2.rooms[j] == m.rooms[j]
            &&& m2.rooms[k].id == m.rooms[k].id
            &&& m2.rooms[k].room_name == m.rooms[k].room_name
            &&& m2.rooms[k].room_pass == m.rooms[k].room_pass
            &&& m2.rooms[k].players@ == joined(m.rooms[k].players@, member)
        },
        Err(_) => m2 == m,
    }
}

/// Adds `m` to a member list, overwriting an entry with its address.
fn add_member(ms: &mut Vec<Member>, m: Member)
    requires
        members_distinct(old(ms)@),
    ensures
        members_distinct(final(ms)@),
        final(ms)@ == joined(old(ms)@, m),
{
    let mut j: usize = 0;
    while j < ms.len()
        invariant
            0 <= j <= ms@.len(),
            ms@ == old(ms)@,
            members_distinct(ms@),
            forall|t: int| 0 <= t < j ==> ms@[t].addr != m.addr,
        decreases ms@.len() - j,
    {
        if ms[j].addr == m.addr {
            proof {
                let t = member_of(ms@, m.addr);
                assert(ms@[j as int].addr == m.addr);
                assert(ms@[t].addr == m.addr);
            }
            ms.set(j, m);
            return;
        }
        j = j + 1;
    }
    ms.push(m);
}

/// A session is stale at `now` when its last packet is more than `timeout`
/// milliseconds old.
pub open spec fn is_stale(s: Session, now: u64, timeout: u64) -> bool {
    now as int - s.player.last_active as int > timeout as int
}

/// The sessions that a reaper run at `now` keeps.
pub open spec fn kept(now: u64, timeout: u64) -> spec_fn(Session) -> bool {
    |s: Session| !is_stale(s, now, timeout)
}

/// Whether some stale session of `s` holds id `x`.
pub open spec fn stale_id(s: Seq<Session>, x: u32, now: u64, timeout: u64) -> bool {
    exists|t: int| 0 <= t < s.len() && is_stale(#[trigger] s[t], now, timeout) && s[t].player.id == x
}

/// What a reaper run does: stale sessions are removed in place and their
/// ids freed; nothing else changes.
pub open spec fn reaped(m: ServerModel, m2: ServerModel, now: u64, timeout: u64) -> bool {
    &&& m2.sessions == m.sessions.filter(kept(now, timeout))
    &&& forall|x: u32| #[trigger] m2.player_ids.contains(x) <==> m.player_ids.contains(x) && !stale_id(m.sessions, x, now, timeout)
    &&& m2.player_cursor == m.player_cursor
    &&& m2.rooms == m.rooms
    &&& m2.same_room_pool(m)
}

/// Each session of `s` has the address and id of one among the first `j` of `orig`.
spec fn drawn_from(s: Seq<Session>, orig: Seq<Session>, j: int) -> bool {
    forall|k: int|
        0 <= k < s.len() ==> exists|t: int|
            0 <= t < j && orig[t].addr == #[trigger] s[k].addr && orig[t].player.id == s[k].player.id
}

/// The ids left in use once the stale sessions of `s` have given theirs back.
spec fn pool_after(ids: Set<u32>, ids2: Set<u32>, s: Seq<Session>, now: u64, timeout: u64) -> bool {
    forall|x: u32| #[trigger] ids2.contains(x) <==> ids.contains(x) && !stale_id(s, x, now, timeout)
}

/// A reaper run that has gone through the first `j` sessions of `m`.
spec fn reaping(m: ServerModel, m2: ServerModel, j: int, now: u64, timeout: u64) -> bool {
    &&& m2.sessions == m.sessions.subrange(0, j).filter(kept(now, timeout))
    &&& drawn_from(m2.sessions, m.sessions, j)
    &&& pool_after(m.player_ids, m2.player_ids, m.sessions.subrange(0, j), now, timeout)
    &&& m2.player_cursor == m.player_cursor
    &&& m2.rooms == m.rooms
    &&& m2.same_room_pool(m)
}

/// The text of the error reply for `e`.
pub open spec fn error_text(e: ServerError) -> Seq<char> {
    match e {
        ServerError::NotRegistered => "Client not registered"@,
        ServerError::RoomNotFound => "Room not existed"@,
        ServerError::PasswordMismatch => "Incorrect password"@,
        ServerError::IdsExhausted => "No free id"@,
        ServerError::NotACommand => "Not a command"@,
    }
}

/// The packet that reports `e` to a client.
pub open spec fn error_packet(e: ServerError) -> Seq<u8> {
    encode(MessageModel::Error(error_text(e)))
}

/// The reply to a successful room creation.
pub open spec fn create_reply(id: u32) -> Seq<u8> {
    seq![CREATE_ROOM] + le32(id)
}

/// The reply to a successful join: the room's name with a `u32` length.
pub open spec fn join_reply(name: Seq<char>) -> Seq<u8> {
    seq![JOIN_ROOM] + le32(encode_utf8(name).len() as u32) + encode_utf8(name)
}

/// `r` is a reply to the sender holding `bytes`.
pub open spec fn replies(r: Option<Outbound>, bytes: Seq<u8>) -> bool {
    match r {
        Some(Outbound::Reply(v)) => v@ == bytes,
        _ => false,
    }
}

/// `r` is the reply to a request that ended with `res`, given the reply on success.
pub open spec fn answers<T>(r: Option<Outbound>, res: Result<T, ServerError>, ok: Seq<u8>) -> bool {
    match res {
        Ok(_) => replies(r, ok),
        Err(e) => replies(r, error_packet(e)),
    }
}

/// What handling packet `b` from `a` does to state `m`, in which the sender's
/// session, if any, has already been marked active.
pub open spec fn handled(m: ServerModel, m2: ServerModel, a: Endpoint, b: Seq<u8>, now: u64, r: Option<Outbound>) -> bool {
    match decode(b) {
        Ok(MessageModel::Ping) => m2 == m && r.is_none(),
        Ok(MessageModel::Handshake(name)) => {
            let res = accept_result(m, m2, a);
            accepted(m, m2, a, name, now, res) && answers(r, res, encode(MessageModel::Ack(res->Ok_0)))
        },
        Ok(MessageModel::Leave(id)) => dropped(m, m2, a) && match r {
            Some(Outbound::Broadcast(bm)) => has_session(m.sessions, a) && bm.msg@ == encode(
                MessageModel::Leave(id),
            ) && bm.excluded_client == Some(a),
            None => !has_session(m.sessions, a),
            _ => false,
        },
        Ok(MessageModel::CreateRoom(name, pass)) => {
            let res = create_result(m, m2, a);
            created(m, m2, a, name, pass, res) && answers(r, res, create_reply(res->Ok_0))
        },
        Ok(MessageModel::JoinRoom(room, pass)) => joined_room(m, m2, a, room, pass) && answers(
            r,
            join_outcome(m, a, room, pass),
            join_reply(m.rooms[room_of(m.rooms, room)].room_name@),
        ),
        Ok(MessageModel::Ack(_)) => m2 == m && replies(r, error_packet(ServerError::NotACommand)),
        Ok(MessageModel::Error(_)) => m2 == m && r.is_none(),
        Err(DecodeError::Empty) => m2 == m && r.is_none(),
        Err(_) => m2 == m && replies(r, error_packet(ServerError::NotACommand)),
    }
}

/// The length prefix of the first text field of a packet.
spec fn read16_of(b: Seq<u8>) -> int {
    crate::message::len_at(b, 1)
}

/// The packet that reports `e` to a client.
fn error_reply(e: ServerError) -> (r: Vec<u8>)
    ensures
        r@ == error_packet(e),
{
    let t = match e {
        ServerError::NotRegistered => "Client not registered",
        ServerError::RoomNotFound => "Room not existed",
        ServerError::PasswordMismatch => "Incorrect password",
        ServerError::IdsExhausted => "No free id",
        ServerError::NotACommand => "Not a command",
    };
    proof {
        reveal_strlit("Client not registered");
        reveal_strlit("Room not existed");
        reveal_strlit("Incorrect password");
        reveal_strlit("No free id");
        reveal_strlit("Not a command");
    }
    assert(t.is_ascii());
    proof {
        is_ascii_chars_encode_utf8(t@);
    }
    let m = Message::Error(t.to_owned());
    m.serialize()
}

/// The reply to a successful room creation.
fn create_room_reply(id: u32) -> (r: Vec<u8>)
    ensures
        r@ == create_reply(id),
{
    let mut v: Vec<u8> = Vec::new();
    v.push(CREATE_ROOM);
    push_u32(&mut v, id);
    assert(v@ =~= create_reply(id));
    v
}

/// The reply to a successful join of the room named `name`.
fn join_room_reply(name: &String) -> (r: Vec<u8>)
    requires
        name_fits(name@),
    ensures
        r@ == join_reply(name@),
{
    let b = name.as_str().as_bytes();
    let mut v: Vec<u8> = Vec::new();
    v.push(JOIN_ROOM);
    push_u32(&mut v, b.len() as u32);
    push_bytes(&mut v, b);
    assert(v@ =~= join_reply(name@));
    v
}

/// The broadcast that probes every session for liveness.
pub fn ping_broadcast() -> (r: BroadcastMessage)
    ensures
        r.msg@ == encode(MessageModel::Ping),
        r.excluded_client.is_none(),
{
    BroadcastMessage { msg: Message::Ping.serialize(), excluded_client: None }
}

/// The registry of sessions and rooms with their id pools.
pub struct ServerContext {
    players: Vec<Session>,
    rooms: Vec<Room>,
    player_ids: IdPool,
    room_ids: IdPool,
}

impl View for ServerContext {
    type V = ServerModel;

    closed spec fn view(&self) -> ServerModel {
        ServerModel {
            sessions: self.players@,
            rooms: self.rooms@,
            player_ids: self.player_ids.active(),
            player_cursor: self.player_ids.cursor(),
            room_ids: self.room_ids.active(),
            room_cursor: self.room_ids.cursor(),
        }
    }
}

impl ServerContext {
    pub open spec fn wf(&self) -> bool {
        self@.wf()
    }

    /// A server with no sessions and no rooms; both pools start at id 1.
    pub fn new() -> (r: ServerContext)
        ensures
            r.wf(),
            r@.sessions.len() == 0,
            r@.rooms.len() == 0,
            r@.player_ids == Set::<u32>::empty(),
            r@.room_ids == Set::<u32>::empty(),
            r@.player_cursor == 1,
            r@.room_cursor == 1,
    {
        ServerContext {
            players: Vec::new(),
            rooms: Vec::new(),
            player_ids: IdPool::new(),
            room_ids: IdPool::new(),
        }
    }

    /// The position of the session that talks from `a`, if any.
    fn find_session(&self, a: Endpoint) -> (r: Option<usize>)
        requires
            self.wf(),
        ensures
            match r {
                Some(i) => i < self@.sessions.len() && i == session_of(self@.sessions, a)
                    && has_session(self@.sessions, a),
                None => !has_session(self@.sessions, a),
            },
    {
        let mut i: usize = 0;
        while i < self.players.len()
            invariant
                0 <= i <= self@.sessions.len(),
                self.wf(),
                self@.sessions == self.players@,
                forall|j: int| 0 <= j < i ==> self@.sessions[j].addr != a,
            decreases self@.sessions.len() - i,
        {
            if self.players[i].addr == a {
                proof {
                    let k = session_of(self@.sessions, a);
                    assert(self@.sessions[i as int].addr == a);
                    assert(self@.sessions[k].addr == a);
                }
                return Some(i);
            }
            i = i + 1;
        }
        None
    }

    /// The position of the room with id `id`, if any.
    fn find_room(&self, id: u32) -> (r: Option<usize>)
        requires
            self.wf(),
        ensures
            match r {
                Some(i) => i < self@.rooms.len() && i == room_of(self@.rooms, id) && has_room(self@.rooms, id),
                None => !has_room(self@.rooms, id),
            },
    {
        let mut i: usize = 0;
        while i < self.rooms.len()
            invariant
                0 <= i <= self@.rooms.len(),
                self.wf(),
                self@.rooms == self.rooms@,
                forall|j: int| 0 <= j < i ==> self@.rooms[j].id != id,
            decreases self@.rooms.len() - i,
        {
            if self.rooms[i].id == id {
                proof {
                    let k = room_of(self@.rooms, id);
                    assert(self@.rooms[i as int].id == id);
                    assert(self@.rooms[k].id == id);
                }
                return Some(i);
            }
            i = i + 1;
        }
        None
    }

    /// Allocates a player id, or `None` when every nonzero id is in use.
    pub fn assign_player_id(&mut self) -> (r: Option<u32>)
        requires
            old(self).wf(),
        ensures
            final(self).wf(),
            final(self)@.same_registries(old(self)@),
            final(self)@.same_room_pool(old(self)@),
            match r {
                Some(id) => old(self)@.player_ids.len() < u32::MAX && allocated(
                    old(self)@.player_cursor,
                    old(self)@.player_ids,
                    final(self)@.player_cursor,
                    final(self)@.player_ids,
                    id,
                ),
                None => old(self)@.player_ids.len() >= u32::MAX && final(self)@ == old(self)@,
            },
    {
        if self.player_ids.is_full() {
            return None;
        }
        let id = self.player_ids.allocate();
        assert(self@.sessions == old(self)@.sessions);
        assert(self@.rooms == old(self)@.rooms);
        Some(id)
    }

    /// Returns a player id that no session holds to the pool.
    pub fn free_player_id(&mut self, id: u32)
        requires
            old(self).wf(),
            forall|i: int| 0 <= i < old(self)@.sessions.len() ==> old(self)@.sessions[i].player.id != id,
        ensures
            final(self).wf(),
            final(self)@.same_registries(old(self)@),
            final(self)@.same_room_pool(old(self)@),
            final(self)@.player_ids == old(self)@.player_ids.remove(id),
            final(self)@.player_cursor == old(self)@.player_cursor,
    {
        self.player_ids.free(id);
        assert(self@.sessions == old(self)@.sessions);
        assert(self@.rooms == old(self)@.rooms);
    }

    /// Allocates a room id, or `None` when every nonzero id is in use.
    pub fn assign_room_id(&mut self) -> (r: Option<u32>)
        requires
            old(self).wf(),
        ensures
            final(self).wf(),
            final(self)@.same_registries(old(self)@),
            final(self)@.same_player_pool(old(self)@),
            match r {
                Some(id) => old(self)@.room_ids.len() < u32::MAX && allocated(
                    old(self)@.room_cursor,
                    old(self)@.room_ids,
                    final(self)@.room_cursor,
                    final(self)@.room_ids,
                    id,
                ),
                None => old(self)@.room_ids.len() >= u32::MAX && final(self)@ == old(self)@,
            },
    {
        if self.room_ids.is_full() {
            return None;
        }
        let id = self.room_ids.allocate();
        assert(self@.sessions == old(self)@.sessions);
        assert(self@.rooms == old(self)@.rooms);
        Some(id)
    }

    /// Returns a room id that no room holds to the pool.
    pub fn free_room_id(&mut self, id: u32)
        requires
            old(self).wf(),
            forall|i: int| 0 <= i < old(self)@.rooms.len() ==> old(self)@.rooms[i].id != id,
        ensures
            final(self).wf(),
            final(self)@.same_registries(old(self)@),
            final(self)@.same_player_pool(old(self)@),
            final(self)@.room_ids == old(self)@.room_ids.remove(id),
            final(self)@.room_cursor == old(self)@.room_cursor,
    {
        self.room_ids.free(id);
        assert(self@.sessions == old(self)@.sessions);
        assert(self@.rooms == old(self)@.rooms);
    }

    /// Marks the session that talks from `a`, if any, as active at `now`.
    pub fn touch(&mut self, a: Endpoint, now: u64)
        requires
            old(self).wf(),
        ensures
            final(self).wf(),
            final(self)@ == touched(old(self)@, a, now),
    {
        match self.find_session(a) {
            Some(i) => {
                self.players[i].player.last_active = now;
            },
            None => {},
        }
        assert(self@.sessions =~= touched(old(self)@, a, now).sessions);
    }

    /// Accepts a handshake from `client`. A known address keeps its session
    /// and gets its id back; a new one gets a fresh id and a session named
    /// `player_name`, active at `now`.
    pub fn accept_client(&mut self, client: Endpoint, player_name: &String, now: u64) -> (r: Result<u32, ServerError>)
        requires
            old(self).wf(),
        ensures
            final(self).wf(),
            accepted(old(self)@, final(self)@, client, player_name@, now, r),
    {
        match self.find_session(client) {
            Some(i) => Ok(self.players[i].player.id),
            None => match self.assign_player_id() {
                None => Err(ServerError::IdsExhausted),
                Some(id) => {
                    let mut player = Player::new(id);
                    player.player_name = player_name.clone();
                    player.last_active = now;
                    let ghost mid = self@;
                    self.players.push(Session { addr: client, player });
                    proof {
                        assert(self@.sessions.drop_last() =~= mid.sessions);
                        let n = mid.sessions.len() as int;
                        assert forall|j: int| 0 <= j < n implies self@.sessions[j] == mid.sessions[j]
                            && self@.sessions[j].addr != client && self@.sessions[j].player.id != id by {
                            assert(mid.player_ids.contains(mid.sessions[j].player.id));
                        }
                    }
                    Ok(id)
                },
            },
        }
    }

    /// Handles a leave from `client`: its session, if any, is removed, its
    /// id freed, and a `Leave` for `player_id` goes to every other session.
    pub fn drop_player(&mut self, client: Endpoint, player_id: u32) -> (r: Option<BroadcastMessage>)
        requires
            old(self).wf(),
        ensures
            final(self).wf(),
            dropped(old(self)@, final(self)@, client),
            match r {
                Some(b) => has_session(old(self)@.sessions, client) && b.msg@ == encode(
                    MessageModel::Leave(player_id),
                ) && b.excluded_client == Some(client),
                None => !has_session(old(self)@.sessions, client),
            },
    {
        match self.find_session(client) {
            None => None,
            Some(i) => {
                let ghost before = self@;
                let session = self.players.remove(i);
                let id = session.player.id;
                proof {
                    assert(self@.rooms == before.rooms);
                    assert(self@.sessions == before.sessions.remove(i as int));
                    assert forall|j: int| 0 <= j < self@.sessions.len() implies self@.sessions[j].player.id != id by {
                        if j < i {
                            assert(self@.sessions[j] == before.sessions[j]);
                        } else {
                            assert(self@.sessions[j] == before.sessions[j + 1]);
                        }
                    }
                }
                self.free_player_id(id);
                let msg = Message::Leave(player_id).serialize();
                Some(BroadcastMessage { msg, excluded_client: Some(client) })
            },
        }
    }

    /// Creates a room owned by `client`, which becomes its first member.
    pub fn create_room(&mut self, client: Endpoint, room_name: String, room_pass: String) -> (r: Result<u32, ServerError>)
        requires
            old(self).wf(),
            name_fits(room_name@),
        ensures
            final(self).wf(),
            created(old(self)@, final(self)@, client, room_name@, room_pass@, r),
    {
        match self.find_session(client) {
            None => Err(ServerError::NotRegistered),
            Some(i) => {
                let player_id = self.players[i].player.id;
                match self.assign_room_id() {
                    None => Err(ServerError::IdsExhausted),
                    Some(id) => {
                        let mut members: Vec<Member> = Vec::new();
                        members.push(Member { addr: client, player_id });
                        let ghost mid = self@;
                        self.rooms.push(Room::new(id, room_name, room_pass, members));
                        proof {
                            assert(self@.rooms.drop_last() =~= mid.rooms);
                            let n = mid.rooms.len() as int;
                            assert forall|j: int| 0 <= j < n implies self@.rooms[j] == mid.rooms[j]
                                && self@.rooms[j].id != id by {
                                assert(mid.room_ids.contains(mid.rooms[j].id));
                            }
                            assert(members_distinct(self@.rooms[n].players@));
                        }
                        Ok(id)
                    },
                }
            },
        }
    }

    /// Adds `client` to room `room_id` when the password matches.
    pub fn join_room(&mut self, client: Endpoint, room_id: u32, password: &String) -> (r: Result<(), ServerError>)
        requires
            old(self).wf(),
        ensures
            final(self).wf(),
            r == join_outcome(old(self)@, client, room_id, password@),
            joined_room(old(self)@, final(self)@, client, room_id, password@),
    {
        let i = match self.find_session(client) {
            None => {
                return Err(ServerError::NotRegistered);
            },
            Some(i) => i,
        };
        let k = match self.find_room(room_id) {
            None => {
                return Err(ServerError::RoomNotFound);
            },
            Some(k) => k,
        };
        if !(self.rooms[k].room_pass == *password) {
            return Err(ServerError::PasswordMismatch);
        }
        let member = Member { addr: client, player_id: self.players[i].player.id };
        let ghost before = self@;
        let mut room = self.rooms.remove(k);
        add_member(&mut room.players, member);
        self.rooms.insert(k, room);
        proof {
            assert forall|j: int| 0 <= j < before.rooms.len() && j != k implies self@.rooms[j]
                == before.rooms[j] by {
                if j < k {
                    assert(self@.rooms[j] == before.rooms[j]);
                } else {
                    assert(self@.rooms[j] == before.rooms[j]);
                }
            }
            assert forall|j: int| 0 <= j < self@.rooms.len() implies #[trigger] self@.rooms[j].id
                == before.rooms[j].id && self@.rooms[j].room_name == before.rooms[j].room_name by {
                if j != k {
                    assert(self@.rooms[j] == before.rooms[j]);
                }
            }
        }
        Ok(())
    }

    /// Removes every session whose last packet is more than `timeout`
    /// milliseconds older than `now`, and frees its id. Rooms keep their
    /// members.
    pub fn cleanup_inactive(&mut self, now: u64, timeout: u64)
        requires
            old(self).wf(),
        ensures
            final(self).wf(),
            reaped(old(self)@, final(self)@, now, timeout),
    {
        let mut rest: Vec<Session> = Vec::new();
        std::mem::swap(&mut self.players, &mut rest);
        let ghost orig = rest@;
        let ghost n = orig.len();
        let ghost mut j: int = 0;
        proof {
            assert(orig.subrange(0, 0).filter(kept(now, timeout)) =~= Seq::<Session>::empty()) by {
                reveal(Seq::filter);
            }
            assert(self@.sessions =~= Seq::<Session>::empty());
            assert(rest@ =~= orig.subrange(0, n as int));
        }
        while rest.len() > 0
            invariant
                old(self).wf(),
                orig == old(self)@.sessions,
                n == orig.len(),
                0 <= j <= n,
                rest@ == orig.subrange(j, n as int),
                reaping(old(self)@, self@, j, now, timeout),
                self.wf(),
            decreases rest@.len(),
        {
            let s = rest.remove(0);
            let ghost before = self@;
            proof {
                assert(s == orig[j]);
                assert(orig.subrange(0, j + 1).drop_last() =~= orig.subrange(0, j));
                reveal(Seq::filter);
                assert forall|k: int| 0 <= k < before.sessions.len() implies before.sessions[k].addr != s.addr
                    && before.sessions[k].player.id != s.player.id by {
                    let t = choose|t: int| 0 <= t < j && orig[t].addr == #[trigger] before.sessions[k].addr && orig[t].player.id == before.sessions[k].player.id;
                    assert(orig[t] == old(self)@.sessions[t]);
                    assert(orig[j] == old(self)@.sessions[j]);
                }
            }
            let stale = now >= s.player.last_active && now - s.player.last_active > timeout;
            if stale {
                self.player_ids.free(s.player.id);
            } else {
                self.players.push(s);
            }
            proof {
                assert forall|x: u32| #[trigger] self@.player_ids.contains(x) <==> old(self)@.player_ids.contains(x)
                    && !stale_id(orig.subrange(0, j + 1), x, now, timeout) by {
                    if stale_id(orig.subrange(0, j + 1), x, now, timeout) && !(stale && x == s.player.id) {
                        let t = choose|t: int| 0 <= t < j + 1 && is_stale(#[trigger] orig.subrange(0, j + 1)[t], now, timeout) && orig.subrange(0, j + 1)[t].player.id == x;
                        assert(orig.subrange(0, j)[t] == orig[t]);
                    }
                    if stale_id(orig.subrange(0, j), x, now, timeout) {
                        let t = choose|t: int| 0 <= t < j && is_stale(#[trigger] orig.subrange(0, j)[t], now, timeout) && orig.subrange(0, j)[t].player.id == x;
                        assert(orig.subrange(0, j + 1)[t] == orig[t]);
                    }
                    if stale && x == s.player.id {
                        assert(orig.subrange(0, j + 1)[j] == orig[j]);
                    }
                }
                assert forall|k: int| 0 <= k < self@.sessions.len() implies exists|t: int| 0 <= t < j + 1 && orig[t].addr == #[trigger] self@.sessions[k].addr && orig[t].player.id == self@.sessions[k].player.id by {
                    if k < before.sessions.len() {
                        assert(self@.sessions[k] == before.sessions[k]);
                        let t = choose|t: int| 0 <= t < j && orig[t].addr == #[trigger] before.sessions[k].addr && orig[t].player.id == before.sessions[k].player.id;
                    } else {
                        assert(orig[j] == s);
                    }
                }
                assert forall|k: int| 0 <= k < self@.sessions.len() implies self@.player_ids.contains(#[trigger] self@.sessions[k].player.id) by {
                    if k < before.sessions.len() {
                        assert(self@.sessions[k] == before.sessions[k]);
                    }
                }
                j = j + 1;
            }
        }
        proof {
            assert(orig.subrange(0, n as int) =~= orig);
        }
    }

    /// The addresses a broadcast goes to: every session but the excluded one.
    pub fn broadcast_targets(&self, excluded: Option<Endpoint>) -> (r: Vec<Endpoint>)
        requires
            self.wf(),
        ensures
            targets_of(self@.sessions, excluded, r@),
    {
        let mut out: Vec<Endpoint> = Vec::new();
        let mut i: usize = 0;
        while i < self.players.len()
            invariant
                0 <= i <= self@.sessions.len(),
                self@.sessions == self.players@,
                forall|x: Endpoint| #[trigger] out@.contains(x) <==> (exists|t: int| 0 <= t < i && self@.sessions[t].addr == x) && excluded != Some(x),
            decreases self@.sessions.len() - i,
        {
            let a = self.players[i].addr;
            let ghost before = out@;
            let skip = match excluded {
                Some(e) => e == a,
                None => false,
            };
            if !skip {
                out.push(a);
            }
            proof {
                assert forall|x: Endpoint| #[trigger] out@.contains(x) <==> (exists|t: int| 0 <= t < i + 1 && self@.sessions[t].addr == x) && excluded != Some(x) by {
                    if out@.contains(x) && !before.contains(x) {
                        assert(x == a);
                        assert(self@.sessions[i as int].addr == x);
                    }
                    if (exists|t: int| 0 <= t < i + 1 && self@.sessions[t].addr == x) && excluded != Some(x) {
                        let t = choose|t: int| 0 <= t < i + 1 && self@.sessions[t].addr == x;
                        if t == i {
                            assert(out@[out@.len() - 1] == a);
                        } else {
                            assert(before.contains(x));
                            let u = choose|u: int| 0 <= u < before.len() && before[u] == x;
                            assert(out@[u] == x);
                        }
                    }
                    if before.contains(x) {
                        let u = choose|u: int| 0 <= u < before.len() && before[u] == x;
                        assert(out@[u] == x);
                    }
                }
            }
            i = i + 1;
        }
        out
    }

    /// How many sessions there are.
    pub fn session_count(&self) -> (r: usize)
        ensures
            r == self@.sessions.len(),
    {
        self.players.len()
    }

    /// The player id of the session that talks from `a`, if any.
    pub fn player_id_of(&self, a: Endpoint) -> (r: Option<u32>)
        requires
            self.wf(),
        ensures
            match r {
                Some(id) => has_session(self@.sessions, a) && id == self@.sessions[session_of(self@.sessions, a)].player.id,
                None => !has_session(self@.sessions, a),
            },
    {
        match self.find_session(a) {
            Some(i) => Some(self.players[i].player.id),
            None => None,
        }
    }

    /// When the session that talks from `a` last sent a packet, if it exists.
    pub fn last_active_of(&self, a: Endpoint) -> (r: Option<u64>)
        requires
            self.wf(),
        ensures
            match r {
                Some(t) => has_session(self@.sessions, a) && t == self@.sessions[session_of(self@.sessions, a)].player.last_active,
                None => !has_session(self@.sessions, a),
            },
    {
        match self.find_session(a) {
            Some(i) => Some(self.players[i].player.last_active),
            None => None,
        }
    }

    /// How many members room `id` has, if it exists.
    pub fn room_member_count(&self, id: u32) -> (r: Option<usize>)
        requires
            self.wf(),
        ensures
            match r {
                Some(n) => has_room(self@.rooms, id) && n == self@.rooms[room_of(self@.rooms, id)].players@.len(),
                None => !has_room(self@.rooms, id),
            },
    {
        match self.find_room(id) {
            Some(k) => Some(self.rooms[k].players.len()),
            None => None,
        }
    }

    /// Handles one packet from `client` arriving at `now`: the sender's
    /// session, if any, is marked active, then the decoded request is
    /// carried out. Returns the reply or broadcast to send, if any.
    pub fn process_client_message(&mut self, client: Endpoint, packet: &[u8], now: u64) -> (r: Option<Outbound>)
        requires
            old(self).wf(),
        ensures
            final(self).wf(),
            handled(touched(old(self)@, client, now), final(self)@, client, packet@, now, r),
    {
        self.touch(client, now);
        let ghost m = self@;
        let msg = Message::deserialize(packet);
        let r = match msg {
            Ok(Message::Ping) => None,
            Ok(Message::Handshake(name)) => {
                assert(decode(packet@) == Ok::<MessageModel, DecodeError>(MessageModel::Handshake(name@)));
                let res = self.accept_client(client, &name, now);
                let out = match res {
                    Ok(id) => Message::Ack(id).serialize(),
                    Err(e) => error_reply(e),
                };
                let r = Some(Outbound::Reply(out));
                assert(accepted(m, self@, client, name@, now, res) && answers(
                    r,
                    res,
                    encode(MessageModel::Ack(res->Ok_0)),
                ));
                assert(handled(m, self@, client, packet@, now, r));
                r
            },
            Ok(Message::Leave(id)) => match self.drop_player(client, id) {
                Some(b) => Some(Outbound::Broadcast(b)),
                None => None,
            },
            Ok(Message::CreateRoom(name, pass)) => {
                proof {
                    let b = packet@;
                    let sub = b.subrange(3, 3 + read16_of(b));
                    assert(name@ == decode_utf8(sub));
                    decode_utf8_encode_utf8(sub);
                }
                let ghost nv = name@;
                let ghost pv = pass@;
                assert(decode(packet@) == Ok::<MessageModel, DecodeError>(MessageModel::CreateRoom(nv, pv)));
                let res = self.create_room(client, name, pass);
                let out = match res {
                    Ok(id) => create_room_reply(id),
                    Err(e) => error_reply(e),
                };
                let r = Some(Outbound::Reply(out));
                assert(created(m, self@, client, nv, pv, res) && answers(r, res, create_reply(res->Ok_0)));
                assert(handled(m, self@, client, packet@, now, r));
                r
            },
            Ok(Message::JoinRoom(room, pass)) => {
                let res = self.join_room(client, room, &pass);
                let out = match res {
                    Ok(()) => {
                        let k = self.find_room(room).unwrap();
                        proof {
                            let k0 = room_of(m.rooms, room);
                            assert(m.rooms[k as int].id == room);
                            assert(m.rooms[k0].id == room);
                        }
                        join_room_reply(&self.rooms[k].room_name)
                    },
                    Err(e) => error_reply(e),
                };
                let r = Some(Outbound::Reply(out));
                assert(handled(m, self@, client, packet@, now, r));
                r
            },
            Ok(Message::Ack(_)) => Some(Outbound::Reply(error_reply(ServerError::NotACommand))),
            Ok(Message::Error(_)) => None,
            Err(DecodeError::Empty) => None,
            Err(_) => Some(Outbound::Reply(error_reply(ServerError::NotACommand))),
        };
        assert(handled(m, self@, client, packet@, now, r));
        r
    }

}

} // verus!
