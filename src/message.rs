use vstd::prelude::*;
use vstd::utf8::*;

verus! {

broadcast use vstd::utf8::group_utf8_lib;

/// Command tags: the first byte of every packet.
pub const PING: u8 = 0;
pub const HANDSHAKE: u8 = 1;
pub const ACK: u8 = 2;
pub const LEAVE: u8 = 3;
pub const REPLICATE: u8 = 4;
pub const CREATE_ROOM: u8 = 5;
pub const JOIN_ROOM: u8 = 6;
pub const PLAYER_INPUT: u8 = 7;
pub const ROOM_SNAPSHOT: u8 = 8;
/// Tag of the error reply; distinct from every command tag.
pub const ERROR: u8 = 9;

/// Largest byte length of a text field: its length travels as a `u16`.
pub const MAX_TEXT: usize = 65535;

/// A typed packet of the wire protocol.
#[derive(Debug, Clone, PartialEq, Eq)]
pub enum Message {
    /// Client/server liveness probe.
    Ping,
    /// Handshake on connect, carrying the player's name.
    Handshake(String),
    /// The server acknowledges a handshake with the player's id.
    Ack(u32),
    /// Create a room with a name and a password.
    CreateRoom(String, String),
    /// A player leaves the server.
    Leave(u32),
    /// Join a room by id with its password.
    JoinRoom(u32, String),
    /// A human-readable error reply.
    Error(String),
}

/// Why a packet could not be decoded.
#[derive(Debug, Clone, Copy, PartialEq, Eq, Structural)]
pub enum DecodeError {
    Empty,
    UnknownCommand,
    Truncated,
    InvalidText,
}

/// The mathematical value of a message: texts as character sequences.
pub enum MessageModel {
    Ping,
    Handshake(Seq<char>),
    Ack(u32),
    CreateRoom(Seq<char>, Seq<char>),
    Leave(u32),
    JoinRoom(u32, Seq<char>),
    Error(Seq<char>),
}

impl View for Message {
    type V = MessageModel;

    open spec fn view(&self) -> MessageModel {
        match self {
            Message::Ping => MessageModel::Ping,
            Message::Handshake(n) => MessageModel::Handshake(n@),
            Message::Ack(id) => MessageModel::Ack(*id),
            Message::CreateRoom(n, p) => MessageModel::CreateRoom(n@, p@),
            Message::Leave(id) => MessageModel::Leave(*id),
            Message::JoinRoom(r, p) => MessageModel::JoinRoom(*r, p@),
            Message::Error(t) => MessageModel::Error(t@),
        }
    }
}

/// A text fits its field when its UTF-8 encoding is at most `MAX_TEXT` bytes long.
pub open spec fn text_fits(t: Seq<char>) -> bool {
    encode_utf8(t).len() <= MAX_TEXT
}

impl MessageModel {
    /// Every text field fits its `u16` length prefix.
    pub open spec fn wf(self) -> bool {
        match self {
            MessageModel::Handshake(n) => text_fits(n),
            MessageModel::CreateRoom(n, p) => text_fits(n) && text_fits(p),
            MessageModel::JoinRoom(_, p) => text_fits(p),
            MessageModel::Error(t) => text_fits(t),
            _ => true,
        }
    }
}

/// Two bytes, little-endian.
pub open spec fn le16(n: u16) -> Seq<u8> {
    seq![(n & 0xff) as u8, ((n >> 8u16) & 0xff) as u8]
}

/// Four bytes, little-endian.
pub open spec fn le32(n: u32) -> Seq<u8> {
    seq![
        (n & 0xff) as u8,
        ((n >> 8u32) & 0xff) as u8,
        ((n >> 16u32) & 0xff) as u8,
        ((n >> 24u32) & 0xff) as u8,
    ]
}

/// The `u16` held little-endian in two bytes.
pub open spec fn read16(b0: u8, b1: u8) -> u16 {
    (b0 as u16) | ((b1 as u16) << 8u16)
}

/// The `u32` held little-endian in four bytes.
pub open spec fn read32(b0: u8, b1: u8, b2: u8, b3: u8) -> u32 {
    (b0 as u32) | ((b1 as u32) << 8u32) | ((b2 as u32) << 16u32) | ((b3 as u32) << 24u32)
}

/// A text field: its byte length as two bytes, then its UTF-8 bytes.
pub open spec fn text_field(t: Seq<char>) -> Seq<u8> {
    le16(encode_utf8(t).len() as u16) + encode_utf8(t)
}

/// The bytes that encode a message.
pub open spec fn encode(m: MessageModel) -> Seq<u8> {
    match m {
        MessageModel::Ping => seq![PING],
        MessageModel::Handshake(n) => seq![HANDSHAKE] + text_field(n),
        MessageModel::Ack(id) => seq![ACK] + le32(id),
        MessageModel::Leave(id) => seq![LEAVE] + le32(id),
        MessageModel::CreateRoom(n, p) => seq![CREATE_ROOM] + text_field(n) + text_field(p),
        MessageModel::JoinRoom(r, p) => seq![JOIN_ROOM] + le32(r) + text_field(p),
        MessageModel::Error(t) => seq![ERROR] + text_field(t),
    }
}

/// The text held by bytes `b[start..start + len]`, which lie within `b`.
pub open spec fn text_at(b: Seq<u8>, start: int, len: int) -> Result<Seq<char>, DecodeError> {
    let t = b.subrange(start, start + len);
    if valid_utf8(t) {
        Ok(decode_utf8(t))
    } else {
        Err(DecodeError::InvalidText)
    }
}

/// The length prefix held at `b[i..i + 2]`.
pub open spec fn len_at(b: Seq<u8>, i: int) -> int {
    read16(b[i], b[i + 1]) as int
}

/// The `u32` held at `b[i..i + 4]`.
pub open spec fn u32_at(b: Seq<u8>, i: int) -> u32 {
    read32(b[i], b[i + 1], b[i + 2], b[i + 3])
}

/// What a packet decodes to. Every length is checked against the buffer
/// before any text is read; bytes after the message are ignored.
pub open spec fn decode(b: Seq<u8>) -> Result<MessageModel, DecodeError> {
    if b.len() == 0 {
        Err(DecodeError::Empty)
    } else if b[0] == PING {
        Ok(MessageModel::Ping)
    } else if b[0] == HANDSHAKE || b[0] == ERROR {
        if b.len() < 3 || b.len() < 3 + len_at(b, 1) {
            Err(DecodeError::Truncated)
        } else {
            match text_at(b, 3, len_at(b, 1)) {
                Ok(t) => Ok(
                    if b[0] == HANDSHAKE {
                        MessageModel::Handshake(t)
                    } else {
                        MessageModel::Error(t)
                    },
                ),
                Err(e) => Err(e),
            }
        }
    } else if b[0] == ACK || b[0] == LEAVE {
        if b.len() < 5 {
            Err(DecodeError::Truncated)
        } else if b[0] == ACK {
            Ok(MessageModel::Ack(u32_at(b, 1)))
        } else {
            Ok(MessageModel::Leave(u32_at(b, 1)))
        }
    } else if b[0] == CREATE_ROOM {
        if b.len() < 3 || b.len() < 5 + len_at(b, 1) || b.len() < 5 + len_at(b, 1) + len_at(
            b,
            3 + len_at(b, 1),
        ) {
            Err(DecodeError::Truncated)
        } else {
            let nl = len_at(b, 1);
            let pl = len_at(b, 3 + nl);
            match (text_at(b, 3, nl), text_at(b, 5 + nl, pl)) {
                (Ok(n), Ok(p)) => Ok(MessageModel::CreateRoom(n, p)),
                _ => Err(DecodeError::InvalidText),
            }
        }
    } else if b[0] == JOIN_ROOM {
        if b.len() < 7 || b.len() < 7 + len_at(b, 5) {
            Err(DecodeError::Truncated)
        } else {
            match text_at(b, 7, len_at(b, 5)) {
                Ok(p) => Ok(MessageModel::JoinRoom(u32_at(b, 1), p)),
                Err(e) => Err(e),
            }
        }
    } else {
        Err(DecodeError::UnknownCommand)
    }
}

proof fn lemma_le16(n: u16)
    ensures
        read16(le16(n)[0], le16(n)[1]) == n,
{
    let b0 = (n & 0xff) as u8;
    let b1 = ((n >> 8u16) & 0xff) as u8;
    assert((b0 as u16) | ((b1 as u16) << 8u16) == n) by (bit_vector)
        requires
            b0 == (n & 0xff) as u8,
            b1 == ((n >> 8u16) & 0xff) as u8,
    ;
}

proof fn lemma_le32(n: u32)
    ensures
        read32(le32(n)[0], le32(n)[1], le32(n)[2], le32(n)[3]) == n,
{
    let b0 = (n & 0xff) as u8;
    let b1 = ((n >> 8u32) & 0xff) as u8;
    let b2 = ((n >> 16u32) & 0xff) as u8;
    let b3 = ((n >> 24u32) & 0xff) as u8;
    assert((b0 as u32) | ((b1 as u32) << 8u32) | ((b2 as u32) << 16u32) | ((b3 as u32) << 24u32)
        == n) by (bit_vector)
        requires
            b0 == (n & 0xff) as u8,
            b1 == ((n >> 8u32) & 0xff) as u8,
            b2 == ((n >> 16u32) & 0xff) as u8,
            b3 == ((n >> 24u32) & 0xff) as u8,
    ;
}

/// A text field read back at offset `i` of a buffer gives its length and its text.
proof fn lemma_text_field_at(b: Seq<u8>, i: int, t: Seq<char>)
    requires
        text_fits(t),
        0 <= i,
        i + text_field(t).len() as int <= b.len(),
        b.subrange(i, i + text_field(t).len() as int) == text_field(t),
    ensures
        len_at(b, i) == encode_utf8(t).len(),
        text_at(b, i + 2, encode_utf8(t).len() as int) == Ok::<Seq<char>, DecodeError>(t),
{
    let e = encode_utf8(t);
    let l = e.len() as u16;
    lemma_le16(l);
    assert(b[i] == text_field(t)[0]);
    assert(b[i + 1] == text_field(t)[1]);
    assert(b.subrange(i + 2, i + 2 + e.len() as int) =~= e) by {
        assert forall|j: int| 0 <= j < e.len() implies b.subrange(i + 2, i + 2 + e.len() as int)[j]
            == e[j] by {
            assert(b[i + 2 + j] == text_field(t)[2 + j]);
        }
    }
    encode_utf8_valid_utf8(t);
    encode_utf8_decode_utf8(t);
}

/// Decoding the encoding of a well-formed message gives that message back.
pub proof fn lemma_round_trip(m: MessageModel)
    requires
        m.wf(),
    ensures
        decode(encode(m)) == Ok::<MessageModel, DecodeError>(m),
{
    let b = encode(m);
    match m {
        MessageModel::Ping => {},
        MessageModel::Handshake(t) => {
            assert(b.subrange(1, 1 + text_field(t).len() as int) =~= text_field(t));
            lemma_text_field_at(b, 1, t);
        },
        MessageModel::Error(t) => {
            assert(b.subrange(1, 1 + text_field(t).len() as int) =~= text_field(t));
            lemma_text_field_at(b, 1, t);
        },
        MessageModel::Ack(id) => {
            lemma_le32(id);
        },
        MessageModel::Leave(id) => {
            lemma_le32(id);
        },
        MessageModel::CreateRoom(n, p) => {
            let fnl = text_field(n).len() as int;
            assert(b.subrange(1, 1 + fnl) =~= text_field(n));
            lemma_text_field_at(b, 1, n);
            assert(b.subrange(1 + fnl, 1 + fnl + text_field(p).len() as int) =~= text_field(p));
            lemma_text_field_at(b, 1 + fnl, p);
        },
        MessageModel::JoinRoom(r, p) => {
            lemma_le32(r);
            assert(b.subrange(5, 5 + text_field(p).len() as int) =~= text_field(p));
            lemma_text_field_at(b, 5, p);
        },
    }
}

/// Every non-empty proper prefix of an encoded message decodes to `Truncated`.
pub proof fn lemma_prefix_truncated(m: MessageModel, k: int)
    requires
        m.wf(),
        1 <= k < encode(m).len(),
    ensures
        decode(encode(m).subrange(0, k)) == Err::<MessageModel, DecodeError>(DecodeError::Truncated),
{
    let b = encode(m);
    let c = b.subrange(0, k);
    assert(c[0] == b[0]);
    match m {
        MessageModel::Ping => {},
        MessageModel::Handshake(t) => {
            assert(b.subrange(1, 1 + text_field(t).len() as int) =~= text_field(t));
            lemma_text_field_at(b, 1, t);
            if k >= 3 {
                assert(c[1] == b[1] && c[2] == b[2]);
            }
        },
        MessageModel::Error(t) => {
            assert(b.subrange(1, 1 + text_field(t).len() as int) =~= text_field(t));
            lemma_text_field_at(b, 1, t);
            if k >= 3 {
                assert(c[1] == b[1] && c[2] == b[2]);
            }
        },
        MessageModel::Ack(id) => {},
        MessageModel::Leave(id) => {},
        MessageModel::CreateRoom(n, p) => {
            let fnl = text_field(n).len() as int;
            assert(b.subrange(1, 1 + fnl) =~= text_field(n));
            lemma_text_field_at(b, 1, n);
            assert(b.subrange(1 + fnl, 1 + fnl + text_field(p).len() as int) =~= text_field(p));
            lemma_text_field_at(b, 1 + fnl, p);
            if k >= 3 {
                assert(c[1] == b[1] && c[2] == b[2]);
                if k >= 1 + fnl + 2 {
                    assert(c[1 + fnl] == b[1 + fnl] && c[2 + fnl] == b[2 + fnl]);
                }
            }
        },
        MessageModel::JoinRoom(r, p) => {
            assert(b.subrange(5, 5 + text_field(p).len() as int) =~= text_field(p));
            lemma_text_field_at(b, 5, p);
            if k >= 7 {
                assert(c[5] == b[5] && c[6] == b[6]);
            }
        },
    }
}

/// Appends `n` as two little-endian bytes.
fn push_u16(v: &mut Vec<u8>, n: u16)
    ensures
        final(v)@ == old(v)@ + le16(n),
{
    v.push((n & 0xff) as u8);
    v.push(((n >> 8u16) & 0xff) as u8);
    assert(final(v)@ =~= old(v)@ + le16(n));
}

/// Appends `n` as four little-endian bytes.
pub(crate) fn push_u32(v: &mut Vec<u8>, n: u32)
    ensures
        final(v)@ == old(v)@ + le32(n),
{
    v.push((n & 0xff) as u8);
    v.push(((n >> 8u32) & 0xff) as u8);
    v.push(((n >> 16u32) & 0xff) as u8);
    v.push(((n >> 24u32) & 0xff) as u8);
    assert(final(v)@ =~= old(v)@ + le32(n));
}

/// Appends every byte of `b`.
pub(crate) fn push_bytes(v: &mut Vec<u8>, b: &[u8])
    ensures
        final(v)@ == old(v)@ + b@,
{
    let mut i: usize = 0;
    while i < b.len()
        invariant
            0 <= i <= b@.len(),
            v@ == old(v)@ + b@.subrange(0, i as int),
        decreases b@.len() - i,
    {
        v.push(b[i]);
        i = i + 1;
        assert(v@ =~= old(v)@ + b@.subrange(0, i as int));
    }
    assert(b@.subrange(0, b@.len() as int) =~= b@);
}

/// Appends a text field: its byte length, then its UTF-8 bytes.
fn push_text(v: &mut Vec<u8>, t: &String)
    requires
        text_fits(t@),
    ensures
        final(v)@ == old(v)@ + text_field(t@),
{
    let b = t.as_str().as_bytes();
    push_u16(v, b.len() as u16);
    push_bytes(v, b);
    assert(final(v)@ =~= old(v)@ + text_field(t@));
}

/// Relies on `String::from_utf8`: it succeeds exactly on well-formed UTF-8
/// and then holds the characters that the bytes encode.
#[verifier::external_body]
fn string_from_utf8(b: Vec<u8>) -> (r: Option<String>)
    ensures
        r.is_some() == valid_utf8(b@),
        r.is_some() ==> r.unwrap()@ == decode_utf8(b@),
{
    String::from_utf8(b).ok()
}

/// The mathematical value of a decoding result.
pub open spec fn result_model(r: Result<Message, DecodeError>) -> Result<MessageModel, DecodeError> {
    match r {
        Ok(m) => Ok(m@),
        Err(e) => Err(e),
    }
}

/// The text held by `b[start..start + len]`.
fn read_text(b: &[u8], start: usize, len: usize) -> (r: Result<String, DecodeError>)
    requires
        start + len <= b@.len(),
    ensures
        match (r, text_at(b@, start as int, len as int)) {
            (Ok(s), Ok(t)) => s@ == t,
            (Err(e), Err(f)) => e == f,
            _ => false,
        },
{
    let mut bytes: Vec<u8> = Vec::new();
    let mut i: usize = start;
    let total: usize = b.len();
    assert(start + len <= total);
    let end: usize = start + len;
    while i < end
        invariant
            start <= i <= end,
            end == start + len,
            end <= b@.len(),
            bytes@ == b@.subrange(start as int, i as int),
        decreases end - i,
    {
        bytes.push(b[i]);
        i = i + 1;
        assert(bytes@ =~= b@.subrange(start as int, i as int));
    }
    match string_from_utf8(bytes) {
        Some(s) => Ok(s),
        None => Err(DecodeError::InvalidText),
    }
}

/// The `u16` held little-endian at `b[i..i + 2]`.
fn get_u16(b: &[u8], i: usize) -> (r: usize)
    requires
        i + 2 <= b@.len(),
    ensures
        r == len_at(b@, i as int),
{
    ((b[i] as u16) | ((b[i + 1] as u16) << 8u16)) as usize
}

/// The `u32` held little-endian at `b[i..i + 4]`.
fn get_u32(b: &[u8], i: usize) -> (r: u32)
    requires
        i + 4 <= b@.len(),
    ensures
        r == u32_at(b@, i as int),
{
    (b[i] as u32) | ((b[i + 1] as u32) << 8u32) | ((b[i + 2] as u32) << 16u32) | ((b[i + 3] as u32)
        << 24u32)
}

impl Message {
    /// The packet that carries this message.
    pub fn serialize(&self) -> (r: Vec<u8>)
        requires
            self@.wf(),
        ensures
            r@ == encode(self@),
    {
        let mut packet: Vec<u8> = Vec::new();
        match self {
            Message::Ping => {
                packet.push(PING);
            },
            Message::Handshake(name) => {
                packet.push(HANDSHAKE);
                push_text(&mut packet, name);
            },
            Message::Ack(id) => {
                packet.push(ACK);
                push_u32(&mut packet, *id);
            },
            Message::Leave(id) => {
                packet.push(LEAVE);
                push_u32(&mut packet, *id);
            },
            Message::CreateRoom(name, pass) => {
                packet.push(CREATE_ROOM);
                push_text(&mut packet, name);
                push_text(&mut packet, pass);
            },
            Message::JoinRoom(room, pass) => {
                packet.push(JOIN_ROOM);
                push_u32(&mut packet, *room);
                push_text(&mut packet, pass);
            },
            Message::Error(text) => {
                packet.push(ERROR);
                push_text(&mut packet, text);
            },
        }
        assert(packet@ =~= encode(self@));
        packet
    }

    /// Decodes a packet. Every length is checked against the buffer before
    /// any byte it covers is read.
    pub fn deserialize(packet: &[u8]) -> (r: Result<Message, DecodeError>)
        ensures
            result_model(r) == decode(packet@),
    {
        let n = packet.len();
        if n == 0 {
            return Err(DecodeError::Empty);
        }
        let tag = packet[0];
        if tag == PING {
            Ok(Message::Ping)
        } else if tag == HANDSHAKE || tag == ERROR {
            if n < 3 {
                return Err(DecodeError::Truncated);
            }
            let len = get_u16(packet, 1);
            if n < 3 + len {
                return Err(DecodeError::Truncated);
            }
            match read_text(packet, 3, len) {
                Ok(t) => Ok(
                    if tag == HANDSHAKE {
                        Message::Handshake(t)
                    } else {
                        Message::Error(t)
                    },
                ),
                Err(e) => Err(e),
            }
        } else if tag == ACK || tag == LEAVE {
            if n < 5 {
                return Err(DecodeError::Truncated);
            }
            let id = get_u32(packet, 1);
            if tag == ACK {
                Ok(Message::Ack(id))
            } else {
                Ok(Message::Leave(id))
            }
        } else if tag == CREATE_ROOM {
            if n < 3 {
                return Err(DecodeError::Truncated);
            }
            let name_len = get_u16(packet, 1);
            if n < 5 + name_len {
                return Err(DecodeError::Truncated);
            }
            let pass_len = get_u16(packet, 3 + name_len);
            if n < 5 + name_len + pass_len {
                return Err(DecodeError::Truncated);
            }
            let name = read_text(packet, 3, name_len);
            let pass = read_text(packet, 5 + name_len, pass_len);
            match (name, pass) {
                (Ok(name), Ok(pass)) => Ok(Message::CreateRoom(name, pass)),
                _ => Err(DecodeError::InvalidText),
            }
        } else if tag == JOIN_ROOM {
            if n < 7 {
                return Err(DecodeError::Truncated);
            }
            let room = get_u32(packet, 1);
            let pass_len = get_u16(packet, 5);
            if n < 7 + pass_len {
                return Err(DecodeError::Truncated);
            }
            match read_text(packet, 7, pass_len) {
                Ok(p) => Ok(Message::JoinRoom(room, p)),
                Err(e) => Err(e),
            }
        } else {
            Err(DecodeError::UnknownCommand)
        }
    }
}

} // verus!
