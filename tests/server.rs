use server_udp::{
    ping_broadcast, set_trace, DecodeError, Endpoint, IdPool, Member, Message, Outbound, Player,
    Room, ServerContext, Tracer,
};

fn ep(port: u16) -> Endpoint {
    Endpoint { ip: 0x7f00_0001, port, v6: false }
}

fn reply(out: Option<Outbound>) -> Vec<u8> {
    match out {
        Some(Outbound::Reply(v)) => v,
        other => panic!("expected a reply, got {other:?}"),
    }
}

fn decoded_reply(out: Option<Outbound>) -> Message {
    Message::deserialize(&reply(out)).expect("reply decodes")
}

fn send(ctx: &mut ServerContext, from: Endpoint, m: Message, now: u64) -> Option<Outbound> {
    ctx.process_client_message(from, &m.serialize(), now)
}

#[test]
fn example_scenario() {
    let mut ctx = ServerContext::new();
    let a = ep(1000);
    let b = ep(2000);

    let out = send(&mut ctx, a, Message::Handshake("Aria".to_string()), 0);
    assert_eq!(decoded_reply(out), Message::Ack(1));

    let out = send(&mut ctx, a, Message::CreateRoom("Dungeon".to_string(), "s3cr3t".to_string()), 1);
    assert_eq!(reply(out), vec![5, 1, 0, 0, 0]);

    let out = send(&mut ctx, b, Message::Handshake("Bo".to_string()), 2);
    assert_eq!(decoded_reply(out), Message::Ack(2));

    let out = send(&mut ctx, b, Message::JoinRoom(1, "wrong".to_string()), 3);
    assert_eq!(decoded_reply(out), Message::Error("Incorrect password".to_string()));
    assert_eq!(ctx.room_member_count(1), Some(1));

    let out = send(&mut ctx, b, Message::JoinRoom(1, "s3cr3t".to_string()), 4);
    let mut expected = vec![6, 7, 0, 0, 0];
    expected.extend_from_slice(b"Dungeon");
    assert_eq!(reply(out), expected);
    assert_eq!(ctx.room_member_count(1), Some(2));
}

#[test]
fn handshake_twice_gives_the_same_id() {
    let mut ctx = ServerContext::new();
    let a = ep(1000);
    let first = decoded_reply(send(&mut ctx, a, Message::Handshake("Aria".to_string()), 0));
    let second = decoded_reply(send(&mut ctx, a, Message::Handshake("Aria".to_string()), 5));
    assert_eq!(first, Message::Ack(1));
    assert_eq!(second, first);
    assert_eq!(ctx.session_count(), 1);
}

#[test]
fn distinct_clients_get_distinct_ids() {
    let mut ctx = ServerContext::new();
    let mut seen = Vec::new();
    for port in 1..=20u16 {
        let id = ctx.accept_client(ep(port), &"p".to_string(), 0).unwrap();
        assert!(id != 0);
        assert!(!seen.contains(&id));
        seen.push(id);
    }
    assert_eq!(ctx.session_count(), 20);
}

#[test]
fn id_pool_skips_active_and_advances_cursor() {
    let mut pool = IdPool::new();
    assert_eq!(pool.allocate(), 1);
    assert_eq!(pool.allocate(), 2);
    assert_eq!(pool.allocate(), 3);
    pool.free(2);
    assert!(!pool.is_active(2));
    assert!(pool.is_active(3));
    assert_eq!(pool.allocate(), 4);
    assert!(!pool.is_full());
}

#[test]
fn freed_player_id_is_not_reused_at_once() {
    let mut ctx = ServerContext::new();
    assert_eq!(ctx.assign_player_id(), Some(1));
    assert_eq!(ctx.assign_player_id(), Some(2));
    ctx.free_player_id(1);
    assert_eq!(ctx.assign_player_id(), Some(3));
    assert_eq!(ctx.assign_room_id(), Some(1));
    ctx.free_room_id(1);
    assert_eq!(ctx.assign_room_id(), Some(2));
}

#[test]
fn leave_is_broadcast_to_everyone_but_the_sender() {
    let mut ctx = ServerContext::new();
    let a = ep(1000);
    let b = ep(2000);
    let c = ep(3000);
    for x in [a, b, c] {
        send(&mut ctx, x, Message::Handshake("p".to_string()), 0);
    }
    let out = send(&mut ctx, a, Message::Leave(1), 1);
    let bm = match out {
        Some(Outbound::Broadcast(bm)) => bm,
        other => panic!("expected a broadcast, got {other:?}"),
    };
    assert_eq!(bm.msg, vec![3, 1, 0, 0, 0]);
    assert_eq!(bm.excluded_client, Some(a));
    assert_eq!(ctx.session_count(), 2);
    assert_eq!(ctx.player_id_of(a), None);

    let targets = ctx.broadcast_targets(bm.excluded_client);
    assert!(!targets.contains(&a));
    assert!(targets.contains(&b));
    assert!(targets.contains(&c));
    assert_eq!(targets.len(), 2);
}

#[test]
fn leave_from_unknown_address_does_nothing() {
    let mut ctx = ServerContext::new();
    send(&mut ctx, ep(1), Message::Handshake("p".to_string()), 0);
    assert!(send(&mut ctx, ep(2), Message::Leave(1), 1).is_none());
    assert_eq!(ctx.session_count(), 1);
}

#[test]
fn leave_frees_the_sessions_id() {
    let mut ctx = ServerContext::new();
    let a = ep(1);
    send(&mut ctx, a, Message::Handshake("p".to_string()), 0);
    let bm = ctx.drop_player(a, 99).unwrap();
    assert_eq!(bm.msg, Message::Leave(99).serialize());
    assert_eq!(ctx.assign_player_id(), Some(2));
    ctx.free_player_id(2);
    assert_eq!(ctx.session_count(), 0);
}

#[test]
fn ping_broadcast_goes_to_everyone() {
    let mut ctx = ServerContext::new();
    send(&mut ctx, ep(1), Message::Handshake("p".to_string()), 0);
    send(&mut ctx, ep(2), Message::Handshake("q".to_string()), 0);
    let bm = ping_broadcast();
    assert_eq!(bm.msg, vec![0]);
    assert_eq!(bm.excluded_client, None);
    assert_eq!(ctx.broadcast_targets(bm.excluded_client).len(), 2);
}

#[test]
fn reaper_removes_stale_and_keeps_recent_sessions() {
    let mut ctx = ServerContext::new();
    let a = ep(1);
    let b = ep(2);
    send(&mut ctx, a, Message::Handshake("a".to_string()), 0);
    send(&mut ctx, b, Message::Handshake("b".to_string()), 0);
    assert!(send(&mut ctx, b, Message::Ping, 20_000).is_none());
    assert_eq!(ctx.last_active_of(b), Some(20_000));

    ctx.cleanup_inactive(35_000, 30_000);
    assert_eq!(ctx.player_id_of(a), None);
    assert_eq!(ctx.player_id_of(b), Some(2));
    assert_eq!(ctx.session_count(), 1);
}

#[test]
fn reaper_keeps_session_exactly_at_threshold() {
    let mut ctx = ServerContext::new();
    let a = ep(1);
    send(&mut ctx, a, Message::Handshake("a".to_string()), 1_000);
    ctx.cleanup_inactive(31_000, 30_000);
    assert_eq!(ctx.player_id_of(a), Some(1));
    ctx.cleanup_inactive(31_001, 30_000);
    assert_eq!(ctx.player_id_of(a), None);
}

#[test]
fn any_packet_counts_as_liveness() {
    let mut ctx = ServerContext::new();
    let a = ep(1);
    send(&mut ctx, a, Message::Handshake("a".to_string()), 0);
    send(&mut ctx, a, Message::JoinRoom(42, "x".to_string()), 25_000);
    assert_eq!(ctx.last_active_of(a), Some(25_000));
    ctx.cleanup_inactive(40_000, 30_000);
    assert_eq!(ctx.player_id_of(a), Some(1));
}

#[test]
fn create_room_requires_a_session() {
    let mut ctx = ServerContext::new();
    let out = send(&mut ctx, ep(1), Message::CreateRoom("r".to_string(), "p".to_string()), 0);
    assert_eq!(decoded_reply(out), Message::Error("Client not registered".to_string()));
    assert_eq!(ctx.room_member_count(1), None);
}

#[test]
fn join_unknown_room_is_reported() {
    let mut ctx = ServerContext::new();
    let a = ep(1);
    send(&mut ctx, a, Message::Handshake("a".to_string()), 0);
    let out = send(&mut ctx, a, Message::JoinRoom(5, "p".to_string()), 1);
    assert_eq!(decoded_reply(out), Message::Error("Room not existed".to_string()));
}

#[test]
fn join_without_session_is_reported() {
    let mut ctx = ServerContext::new();
    let a = ep(1);
    send(&mut ctx, a, Message::Handshake("a".to_string()), 0);
    send(&mut ctx, a, Message::CreateRoom("r".to_string(), "p".to_string()), 0);
    let out = send(&mut ctx, ep(2), Message::JoinRoom(1, "p".to_string()), 1);
    assert_eq!(decoded_reply(out), Message::Error("Client not registered".to_string()));
    assert_eq!(ctx.room_member_count(1), Some(1));
}

#[test]
fn joining_twice_keeps_one_membership() {
    let mut ctx = ServerContext::new();
    let a = ep(1);
    let b = ep(2);
    send(&mut ctx, a, Message::Handshake("a".to_string()), 0);
    send(&mut ctx, b, Message::Handshake("b".to_string()), 0);
    send(&mut ctx, a, Message::CreateRoom("r".to_string(), "p".to_string()), 0);
    send(&mut ctx, b, Message::JoinRoom(1, "p".to_string()), 0);
    send(&mut ctx, b, Message::JoinRoom(1, "p".to_string()), 0);
    assert_eq!(ctx.room_member_count(1), Some(2));
    send(&mut ctx, a, Message::JoinRoom(1, "p".to_string()), 0);
    assert_eq!(ctx.room_member_count(1), Some(2));
}

#[test]
fn rooms_get_distinct_ids() {
    let mut ctx = ServerContext::new();
    let a = ep(1);
    ctx.accept_client(a, &"a".to_string(), 0).unwrap();
    assert_eq!(ctx.create_room(a, "r1".to_string(), "x".to_string()), Ok(1));
    assert_eq!(ctx.create_room(a, "r2".to_string(), "y".to_string()), Ok(2));
    assert_eq!(ctx.join_room(a, 2, &"x".to_string()), Err(server_udp::ServerError::PasswordMismatch));
    assert_eq!(ctx.join_room(a, 3, &"x".to_string()), Err(server_udp::ServerError::RoomNotFound));
    assert_eq!(ctx.join_room(a, 1, &"x".to_string()), Ok(()));
}

#[test]
fn unexpected_and_malformed_packets_get_an_error_reply() {
    let mut ctx = ServerContext::new();
    let a = ep(1);
    let out = send(&mut ctx, a, Message::Ack(3), 0);
    assert_eq!(decoded_reply(out), Message::Error("Not a command".to_string()));
    let out = ctx.process_client_message(a, &[200, 1, 2], 0);
    assert_eq!(decoded_reply(out), Message::Error("Not a command".to_string()));
    let out = ctx.process_client_message(a, &[1, 9, 0], 0);
    assert_eq!(decoded_reply(out), Message::Error("Not a command".to_string()));
    assert!(ctx.process_client_message(a, &[], 0).is_none());
    assert!(send(&mut ctx, a, Message::Error("hi".to_string()), 0).is_none());
    assert_eq!(ctx.session_count(), 0);
}

#[test]
fn decode_error_kinds_are_distinct() {
    assert_ne!(DecodeError::Empty, DecodeError::Truncated);
    assert_ne!(DecodeError::UnknownCommand, DecodeError::InvalidText);
}

#[test]
fn player_and_room_constructors() {
    let p = Player::new(7);
    assert_eq!(p.id, 7);
    assert_eq!(p.health, 100);
    assert!(p.player_name.is_empty());
    let d = Player::default();
    assert_eq!(d.id, 0);
    let m = Member { addr: ep(1), player_id: 7 };
    let r = Room::new(3, "r".to_string(), "p".to_string(), vec![m]);
    assert_eq!(r.id, 3);
    assert_eq!(r.room_name, "r");
    assert_eq!(r.players, vec![m]);
}

#[test]
fn tracer_toggles() {
    let mut t = Tracer::new();
    assert!(!t.is_enabled());
    set_trace(&mut t, true);
    assert!(t.is_enabled());
    set_trace(&mut t, false);
    assert!(!t.is_enabled());
}
