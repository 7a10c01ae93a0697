//! Properties of the server that span several states or several calls.
use crate::game::Endpoint;
use crate::server::{
    accept_result, accepted, handled, has_room, has_session, is_stale, join_outcome, joined_room, reaped,
    room_of, session_of, targets_of, touched, Outbound, ServerError, ServerModel,
};
use vstd::prelude::*;

verus! {

/// In a well-formed state no two sessions share a player id and no two
/// rooms share a room id; every operation keeps the state well-formed.
pub proof fn lemma_ids_unique(m: ServerModel, i: int, j: int)
    requires
        m.wf(),
        i != j,
    ensures
        0 <= i < m.sessions.len() && 0 <= j < m.sessions.len() ==> m.sessions[i].player.id
            != m.sessions[j].player.id,
        0 <= i < m.rooms.len() && 0 <= j < m.rooms.len() ==> m.rooms[i].id != m.rooms[j].id,
{
    if 0 <= i < m.sessions.len() && 0 <= j < m.sessions.len() {
        assert(m.sessions[i].player.id != m.sessions[j].player.id);
    }
    if 0 <= i < m.rooms.len() && 0 <= j < m.rooms.len() {
        assert(m.rooms[i].id != m.rooms[j].id);
    }
}

/// Marking a session active keeps which addresses have sessions and their ids.
proof fn lemma_touched_keeps(m: ServerModel, a: Endpoint, now: u64)
    requires
        m.wf(),
    ensures
        touched(m, a, now).wf(),
        touched(m, a, now).sessions.len() == m.sessions.len(),
        forall|k: int|
            0 <= k < m.sessions.len() ==> (#[trigger] touched(m, a, now).sessions[k]).addr
                == m.sessions[k].addr && touched(m, a, now).sessions[k].player.id
                == m.sessions[k].player.id,
{
    let t = touched(m, a, now);
    assert forall|k: int| 0 <= k < m.sessions.len() implies t.player_ids.contains(
        #[trigger] t.sessions[k].player.id,
    ) by {
        assert(m.player_ids.contains(m.sessions[k].player.id));
    }
    assert forall|i: int, j: int|
        0 <= i < t.sessions.len() && 0 <= j < t.sessions.len() && i != j implies #[trigger] t.sessions[i].addr
        != #[trigger] t.sessions[j].addr && t.sessions[i].player.id != t.sessions[j].player.id by {
        assert(m.sessions[i].addr != m.sessions[j].addr);
    }
}

/// In a well-formed state the session of `a` sits at position `i` when the
/// address there is `a`.
proof fn lemma_session_at(m: ServerModel, a: Endpoint, i: int)
    requires
        m.wf(),
        0 <= i < m.sessions.len(),
        m.sessions[i].addr == a,
    ensures
        has_session(m.sessions, a),
        session_of(m.sessions, a) == i,
{
    let k = session_of(m.sessions, a);
    assert(m.sessions[k].addr == a);
}

/// A second handshake from the same address gets the same id as the first
/// and adds no session.
pub proof fn lemma_handshake_idempotent(
    m0: ServerModel,
    m1: ServerModel,
    m2: ServerModel,
    a: Endpoint,
    n1: Seq<char>,
    n2: Seq<char>,
    t1: u64,
    t2: u64,
)
    requires
        m0.wf(),
        m1.wf(),
        accepted(touched(m0, a, t1), m1, a, n1, t1, accept_result(touched(m0, a, t1), m1, a)),
        accept_result(touched(m0, a, t1), m1, a) is Ok,
        accepted(touched(m1, a, t2), m2, a, n2, t2, accept_result(touched(m1, a, t2), m2, a)),
    ensures
        accept_result(touched(m1, a, t2), m2, a) == accept_result(touched(m0, a, t1), m1, a),
        m2 == touched(m1, a, t2),
{
    let p0 = touched(m0, a, t1);
    let p1 = touched(m1, a, t2);
    lemma_touched_keeps(m0, a, t1);
    lemma_touched_keeps(m1, a, t2);
    if has_session(p0.sessions, a) {
        let i = session_of(p0.sessions, a);
        assert(m1 == p0);
        assert(p1.sessions[i].addr == a);
        lemma_session_at(p1, a, i);
    } else {
        let i = m1.sessions.len() - 1;
        assert(m1.sessions[i] == m1.sessions.last());
        assert(p1.sessions[i].addr == a);
        lemma_session_at(p1, a, i);
    }
}

/// A join with the wrong password fails with `PasswordMismatch` and leaves
/// every room, its members included, as it was.
pub proof fn lemma_password_gate(m: ServerModel, m2: ServerModel, a: Endpoint, room: u32, pass: Seq<char>)
    requires
        m.wf(),
        has_session(m.sessions, a),
        has_room(m.rooms, room),
        m.rooms[room_of(m.rooms, room)].room_pass@ != pass,
        joined_room(m, m2, a, room, pass),
    ensures
        join_outcome(m, a, room, pass) == Err::<(), ServerError>(ServerError::PasswordMismatch),
        m2.rooms == m.rooms,
        m2.rooms[room_of(m.rooms, room)].players@ == m.rooms[room_of(m.rooms, room)].players@,
{
}

/// A reaper run removes every stale session and keeps every other one.
pub proof fn lemma_reaping(m: ServerModel, m2: ServerModel, now: u64, timeout: u64, i: int)
    requires
        m.wf(),
        reaped(m, m2, now, timeout),
        0 <= i < m.sessions.len(),
    ensures
        is_stale(m.sessions[i], now, timeout) ==> !has_session(m2.sessions, m.sessions[i].addr),
        !is_stale(m.sessions[i], now, timeout) ==> m2.sessions.contains(m.sessions[i]),
{
    broadcast use vstd::seq_lib::group_filter_ensures;

    let keep = crate::server::kept(now, timeout);
    if is_stale(m.sessions[i], now, timeout) {
        if has_session(m2.sessions, m.sessions[i].addr) {
            let k = choose|k: int| 0 <= k < m2.sessions.len() && m2.sessions[k].addr == m.sessions[i].addr;
            assert(keep(m.sessions.filter(keep)[k]));
            assert(m.sessions.filter(keep).contains(m2.sessions[k]));
            m.sessions.lemma_filter_contains_rev(keep, m2.sessions[k]);
            let t = choose|t: int| 0 <= t < m.sessions.len() && m.sessions[t] == m2.sessions[k];
            assert(m.sessions[t].addr == m.sessions[i].addr);
        }
    } else {
        assert(keep(m.sessions[i]));
    }
}

/// A session that sent a packet no more than `timeout` before the reaper
/// runs survives the run.
pub proof fn lemma_recent_packet_retained(m: ServerModel, m2: ServerModel, a: Endpoint, t: u64, now: u64, timeout: u64)
    requires
        m.wf(),
        has_session(m.sessions, a),
        now as int - t as int <= timeout as int,
        reaped(touched(m, a, t), m2, now, timeout),
    ensures
        has_session(m2.sessions, a),
{
    lemma_touched_keeps(m, a, t);
    let p = touched(m, a, t);
    let i = session_of(m.sessions, a);
    assert(p.sessions[i].addr == a);
    assert(p.sessions[i].player.last_active == t);
    lemma_reaping(p, m2, now, timeout, i);
    let k = choose|k: int| 0 <= k < m2.sessions.len() && m2.sessions[k] == p.sessions[i];
    assert(m2.sessions[k].addr == a);
}

/// A broadcast that a packet from `a` causes never goes back to `a`.
pub proof fn lemma_broadcast_exclusion(
    m: ServerModel,
    m2: ServerModel,
    a: Endpoint,
    b: Seq<u8>,
    now: u64,
    r: Option<Outbound>,
    targets: Seq<Endpoint>,
)
    requires
        handled(m, m2, a, b, now, r),
        r matches Some(Outbound::Broadcast(bm)) && targets_of(m2.sessions, bm.excluded_client, targets),
    ensures
        !targets.contains(a),
{
}

} // verus!
