//! The wire messages and their binary form: a little-endian `u32` tag per
//! variant, then the fields in order; integers little-endian, sequences and
//! strings preceded by their length as a little-endian `u64`. A message
//! decodes from any byte sequence that starts with its encoding.
use vstd::prelude::*;
use vstd::utf8::encode_utf8;

use crate::zip::{self, zlib_complete, zlib_compressed, zlib_inflated};

verus! {

/// `256` to the power `n`.
pub open spec fn pow256(n: nat) -> nat
    decreases n,
{
    if n == 0 {
        1
    } else {
        256 * pow256((n - 1) as nat)
    }
}

/// The `n` low bytes of `v`, least significant first.
pub open spec fn le_bytes(v: nat, n: nat) -> Seq<u8>
    decreases n,
{
    if n == 0 {
        seq![]
    } else {
        seq![(v % 256) as u8] + le_bytes(v / 256, (n - 1) as nat)
    }
}

/// The number whose little-endian bytes are `s`.
pub open spec fn le_value(s: Seq<u8>) -> nat
    decreases s.len(),
{
    if s.len() == 0 {
        0
    } else {
        s[0] as nat + 256 * le_value(s.drop_first())
    }
}

/// The little-endian bytes of each entry of `v`, in order.
pub open spec fn u16s_bytes(v: Seq<u16>) -> Seq<u8>
    decreases v.len(),
{
    if v.len() == 0 {
        seq![]
    } else {
        u16s_bytes(v.drop_last()) + le_bytes(v.last() as nat, 2)
    }
}

/// A message from the client to the server.
#[derive(Clone, Copy, Debug, PartialEq, Eq, Structural)]
pub enum ClientMsg {
    Error(u16),
    SetVersion(u16),
    /// Width, height and number of mines.
    NewGame(u8, u8, u16),
    Reveal(u16),
    GetTime(),
    CloseGame(),
}

/// The number that tells a client message's variant.
pub open spec fn client_tag(m: ClientMsg) -> nat {
    match m {
        ClientMsg::Error(_) => 0,
        ClientMsg::SetVersion(_) => 1,
        ClientMsg::NewGame(_, _, _) => 2,
        ClientMsg::Reveal(_) => 3,
        ClientMsg::GetTime() => 4,
        ClientMsg::CloseGame() => 5,
    }
}

/// The bytes of a client message's fields.
pub open spec fn client_payload(m: ClientMsg) -> Seq<u8> {
    match m {
        ClientMsg::Error(c) => le_bytes(c as nat, 2),
        ClientMsg::SetVersion(v) => le_bytes(v as nat, 2),
        ClientMsg::NewGame(w, h, n) => seq![w, h] + le_bytes(n as nat, 2),
        ClientMsg::Reveal(i) => le_bytes(i as nat, 2),
        ClientMsg::GetTime() => seq![],
        ClientMsg::CloseGame() => seq![],
    }
}

/// The bytes of a client message.
pub open spec fn client_encoding(m: ClientMsg) -> Seq<u8> {
    le_bytes(client_tag(m), 4) + client_payload(m)
}

/// The client message that `s` starts with, if any.
pub open spec fn client_decoding(s: Seq<u8>) -> Option<ClientMsg> {
    if exists|m: ClientMsg| #[trigger] client_encoding(m).is_prefix_of(s) {
        Some(choose|m: ClientMsg| #[trigger] client_encoding(m).is_prefix_of(s))
    } else {
        None
    }
}

impl ClientMsg {
    /// The message's bytes.
    pub fn encode(&self) -> (r: Vec<u8>)
        ensures
            r@ == client_encoding(*self),
    {
        let mut out: Vec<u8> = Vec::new();
        match *self {
            ClientMsg::Error(c) => {
                push_le(&mut out, 0, 4);
                push_le(&mut out, c as u64, 2);
            },
            ClientMsg::SetVersion(v) => {
                push_le(&mut out, 1, 4);
                push_le(&mut out, v as u64, 2);
            },
            ClientMsg::NewGame(w, h, n) => {
                push_le(&mut out, 2, 4);
                out.push(w);
                out.push(h);
                push_le(&mut out, n as u64, 2);
                proof {
                    assert(out@ =~= le_bytes(2, 4) + (seq![w, h] + le_bytes(n as nat, 2)));
                }
            },
            ClientMsg::Reveal(i) => {
                push_le(&mut out, 3, 4);
                push_le(&mut out, i as u64, 2);
            },
            ClientMsg::GetTime() => {
                push_le(&mut out, 4, 4);
                proof {
                    assert(out@ =~= le_bytes(4, 4) + Seq::<u8>::empty());
                }
            },
            ClientMsg::CloseGame() => {
                push_le(&mut out, 5, 4);
                proof {
                    assert(out@ =~= le_bytes(5, 4) + Seq::<u8>::empty());
                }
            },
        }
        proof {
            assert(Seq::<u8>::empty() + le_bytes(client_tag(*self), 4) =~= le_bytes(
                client_tag(*self),
                4,
            ));
        }
        out
    }

    /// The message that `b` starts with; `None` where `b` starts with no
    /// message's encoding.
    pub fn decode(b: &Vec<u8>) -> (r: Option<ClientMsg>)
        ensures
            r == client_decoding(b@),
    {
        if b.len() < 4 {
            proof {
                assert forall|m: ClientMsg| !(#[trigger] client_encoding(m).is_prefix_of(b@)) by {
                    lemma_le_bytes_len(client_tag(m), 4);
                }
            }
            return None;
        }
        let tag = read_le(b, 0, 4);
        let need: usize = if tag == 2 {
            8
        } else if tag == 4 || tag == 5 {
            4
        } else {
            6
        };
        if tag > 5 || b.len() < need {
            proof {
                assert forall|m: ClientMsg| !(#[trigger] client_encoding(m).is_prefix_of(b@)) by {
                    if client_encoding(m).is_prefix_of(b@) {
                        lemma_client_prefix_tag(m, b@);
                        lemma_client_payload_len(m);
                    }
                }
            }
            return None;
        }
        let m = if tag == 0 {
            ClientMsg::Error(read_le(b, 4, 2) as u16)
        } else if tag == 1 {
            ClientMsg::SetVersion(read_le(b, 4, 2) as u16)
        } else if tag == 2 {
            ClientMsg::NewGame(b[4], b[5], read_le(b, 6, 2) as u16)
        } else if tag == 3 {
            ClientMsg::Reveal(read_le(b, 4, 2) as u16)
        } else if tag == 4 {
            ClientMsg::GetTime()
        } else {
            ClientMsg::CloseGame()
        };
        proof {
            let s = b@;
            lemma_pow256_values();
            lemma_le_value_bytes(s.subrange(0, 4));
            lemma_client_payload_len(m);
            assert(le_bytes(client_tag(m), 4) == s.subrange(0, 4));
            match m {
                ClientMsg::NewGame(w, h, n) => {
                    lemma_le_value_bytes(s.subrange(6, 8));
                    lemma_le_value_bound(s.subrange(6, 8));
                    assert(client_payload(m) =~= s.subrange(4, 8));
                },
                ClientMsg::GetTime() => {},
                ClientMsg::CloseGame() => {},
                _ => {
                    lemma_le_value_bytes(s.subrange(4, 6));
                    lemma_le_value_bound(s.subrange(4, 6));
                    assert(client_payload(m) =~= s.subrange(4, 6));
                },
            }
            assert(client_encoding(m) =~= s.subrange(0, client_encoding(m).len() as int));
            lemma_client_decoding_is(m, s);
        }
        Some(m)
    }
}

proof fn lemma_client_payload_len(m: ClientMsg)
    ensures
        client_payload(m).len() == match m {
            ClientMsg::NewGame(_, _, _) => 4int,
            ClientMsg::GetTime() => 0int,
            ClientMsg::CloseGame() => 0int,
            _ => 2int,
        },
{
    match m {
        ClientMsg::Error(c) => lemma_le_bytes_len(c as nat, 2),
        ClientMsg::SetVersion(c) => lemma_le_bytes_len(c as nat, 2),
        ClientMsg::NewGame(_, _, c) => lemma_le_bytes_len(c as nat, 2),
        ClientMsg::Reveal(c) => lemma_le_bytes_len(c as nat, 2),
        _ => {},
    }
}

/// A message whose encoding starts `s` is what `s` decodes to.
proof fn lemma_client_decoding_is(m: ClientMsg, s: Seq<u8>)
    requires
        client_encoding(m).is_prefix_of(s),
    ensures
        client_decoding(s) == Some(m),
{
    let m2 = choose|m2: ClientMsg| #[trigger] client_encoding(m2).is_prefix_of(s);
    lemma_client_prefix_unique(m, m2, s);
}

/// The tag of a message whose encoding starts `s` is the number in the
/// first four bytes of `s`.
proof fn lemma_client_prefix_tag(m: ClientMsg, s: Seq<u8>)
    requires
        client_encoding(m).is_prefix_of(s),
    ensures
        s.len() >= 4,
        le_value(s.subrange(0, 4)) == client_tag(m),
        s.len() >= client_encoding(m).len(),
        client_encoding(m).len() == 4 + client_payload(m).len(),
        client_payload(m) == s.subrange(4, 4 + client_payload(m).len() as int),
{
    lemma_le_bytes_len(client_tag(m), 4);
    let e = client_encoding(m);
    assert(e.subrange(0, 4) =~= le_bytes(client_tag(m), 4));
    assert(s.subrange(0, 4) =~= e.subrange(0, 4));
    assert forall|i: int| 0 <= i < client_payload(m).len() implies client_payload(m)[i] == s[4 + i] by {
        assert(e[4 + i] == client_payload(m)[i]);
        assert(e[4 + i] == s.subrange(0, e.len() as int)[4 + i]);
    }
    assert(client_payload(m) =~= s.subrange(4, 4 + client_payload(m).len() as int));
    lemma_le_value_of_bytes(client_tag(m), 4);
    assert(pow256(4) == 0x1_0000_0000) by {
        lemma_pow256_values();
    }
}

/// Encodings are prefix-free and distinct: at most one message's encoding
/// starts a given byte sequence.
pub proof fn lemma_client_prefix_unique(m1: ClientMsg, m2: ClientMsg, s: Seq<u8>)
    requires
        client_encoding(m1).is_prefix_of(s),
        client_encoding(m2).is_prefix_of(s),
    ensures
        m1 == m2,
{
    lemma_client_prefix_tag(m1, s);
    lemma_client_prefix_tag(m2, s);
    lemma_client_payload_len(m1);
    lemma_client_payload_len(m2);
    lemma_pow256_values();
    match (m1, m2) {
        (ClientMsg::NewGame(w1, h1, n1), ClientMsg::NewGame(w2, h2, n2)) => {
            lemma_le_bytes_len(n1 as nat, 2);
            lemma_le_bytes_len(n2 as nat, 2);
            assert(client_payload(m1)[0] == s[4] && client_payload(m2)[0] == s[4]);
            assert(client_payload(m1)[1] == s[5] && client_payload(m2)[1] == s[5]);
            assert(client_payload(m1).subrange(2, 4) =~= le_bytes(n1 as nat, 2));
            assert(client_payload(m2).subrange(2, 4) =~= le_bytes(n2 as nat, 2));
            lemma_le_bytes_inj(n1 as nat, n2 as nat, 2);
        },
        (ClientMsg::Error(a), ClientMsg::Error(b)) => {
            lemma_le_bytes_inj(a as nat, b as nat, 2);
        },
        (ClientMsg::SetVersion(a), ClientMsg::SetVersion(b)) => {
            lemma_le_bytes_inj(a as nat, b as nat, 2);
        },
        (ClientMsg::Reveal(a), ClientMsg::Reveal(b)) => {
            lemma_le_bytes_inj(a as nat, b as nat, 2);
        },
        _ => {},
    }
}

/// Decoding the encoding of a client message gives that message back.
pub proof fn lemma_client_round_trip(m: ClientMsg)
    ensures
        client_decoding(client_encoding(m)) == Some(m),
{
    assert(client_encoding(m).is_prefix_of(client_encoding(m))) by {
        assert(client_encoding(m) =~= client_encoding(m).subrange(0, client_encoding(m).len() as int));
    }
    lemma_client_decoding_is(m, client_encoding(m));
}

/// A message from the server to the client.
#[derive(Debug, PartialEq, Eq)]
pub enum ServerMsg {
    Error(u16),
    Accepted(),
    /// One value per cell: a proximity, or 9 for a cell not revealed now.
    RevealCells(Vec<u8>),
    /// The last reveal, in the form of `RevealCells`, that won the game.
    GameWin(Vec<u8>),
    /// The indices of all mines.
    GameLoss(Vec<u16>),
    Time(String),
}

/// The content of a `ServerMsg`.
pub enum ServerMsgView {
    Error(u16),
    Accepted,
    RevealCells(Seq<u8>),
    GameWin(Seq<u8>),
    GameLoss(Seq<u16>),
    Time(Seq<char>),
}

impl View for ServerMsg {
    type V = ServerMsgView;

    open spec fn view(&self) -> ServerMsgView {
        match self {
            ServerMsg::Error(c) => ServerMsgView::Error(*c),
            ServerMsg::Accepted() => ServerMsgView::Accepted,
            ServerMsg::RevealCells(v) => ServerMsgView::RevealCells(v@),
            ServerMsg::GameWin(v) => ServerMsgView::GameWin(v@),
            ServerMsg::GameLoss(v) => ServerMsgView::GameLoss(v@),
            ServerMsg::Time(t) => ServerMsgView::Time(t@),
        }
    }
}

/// The number that tells a server message's variant.
pub open spec fn server_tag(m: ServerMsgView) -> nat {
    match m {
        ServerMsgView::Error(_) => 0,
        ServerMsgView::Accepted => 1,
        ServerMsgView::RevealCells(_) => 2,
        ServerMsgView::GameWin(_) => 3,
        ServerMsgView::GameLoss(_) => 4,
        ServerMsgView::Time(_) => 5,
    }
}

/// The bytes of a sequence or string field, without its length.
pub open spec fn server_body(m: ServerMsgView) -> Seq<u8> {
    match m {
        ServerMsgView::RevealCells(v) => v,
        ServerMsgView::GameWin(v) => v,
        ServerMsgView::GameLoss(v) => u16s_bytes(v),
        ServerMsgView::Time(t) => encode_utf8(t),
        _ => seq![],
    }
}

/// The number of entries of a sequence or string field (a string counts
/// its bytes).
pub open spec fn server_body_len(m: ServerMsgView) -> nat {
    match m {
        ServerMsgView::GameLoss(v) => v.len(),
        _ => server_body(m).len(),
    }
}

/// The bytes of a server message's fields.
pub open spec fn server_payload(m: ServerMsgView) -> Seq<u8> {
    match m {
        ServerMsgView::Error(c) => le_bytes(c as nat, 2),
        ServerMsgView::Accepted => seq![],
        _ => le_bytes(server_body_len(m), 8) + server_body(m),
    }
}

/// The bytes of a server message.
pub open spec fn server_encoding(m: ServerMsgView) -> Seq<u8> {
    le_bytes(server_tag(m), 4) + server_payload(m)
}

/// The length of the message's sequence or string fits its `u64` length
/// field.
pub open spec fn server_fits(m: ServerMsgView) -> bool {
    server_body_len(m) < pow256(8)
}

/// The server message that `s` starts with, if any.
pub open spec fn server_decoding(s: Seq<u8>) -> Option<ServerMsgView> {
    if exists|m: ServerMsgView| server_fits(m) && #[trigger] server_encoding(m).is_prefix_of(s) {
        Some(
            choose|m: ServerMsgView| server_fits(m) && #[trigger] server_encoding(m).is_prefix_of(s),
        )
    } else {
        None
    }
}

impl ServerMsg {
    /// The message's bytes.
    pub fn encode(&self) -> (r: Vec<u8>)
        ensures
            r@ == server_encoding(self@),
    {
        let mut out: Vec<u8> = Vec::new();
        match self {
            ServerMsg::Error(c) => {
                push_le(&mut out, 0, 4);
                push_le(&mut out, *c as u64, 2);
            },
            ServerMsg::Accepted() => {
                push_le(&mut out, 1, 4);
                proof {
                    assert(out@ =~= le_bytes(1, 4) + Seq::<u8>::empty());
                }
            },
            ServerMsg::RevealCells(v) => {
                push_le(&mut out, 2, 4);
                push_le(&mut out, v.len() as u64, 8);
                push_bytes(&mut out, v.as_slice());
            },
            ServerMsg::GameWin(v) => {
                push_le(&mut out, 3, 4);
                push_le(&mut out, v.len() as u64, 8);
                push_bytes(&mut out, v.as_slice());
            },
            ServerMsg::GameLoss(v) => {
                push_le(&mut out, 4, 4);
                push_le(&mut out, v.len() as u64, 8);
                push_u16s(&mut out, v);
            },
            ServerMsg::Time(t) => {
                let bytes = t.as_str().as_bytes();
                push_le(&mut out, 5, 4);
                push_le(&mut out, bytes.len() as u64, 8);
                push_bytes(&mut out, bytes);
            },
        }
        proof {
            assert(out@ =~= server_encoding(self@));
        }
        out
    }

    /// The message that `b` starts with; `None` where `b` starts with no
    /// message's encoding.
    pub fn decode(b: &Vec<u8>) -> (r: Option<ServerMsg>)
        ensures
            match r {
                Some(m) => server_decoding(b@) == Some(m@),
                None => server_decoding(b@) is None,
            },
    {
        proof {
            lemma_pow256_values();
        }
        let len = b.len();
        if len < 4 {
            proof {
                assert forall|m: ServerMsgView|
                    server_fits(m) implies !(#[trigger] server_encoding(m).is_prefix_of(b@)) by {
                    lemma_le_bytes_len(server_tag(m), 4);
                }
            }
            return None;
        }
        let tag = read_le(b, 0, 4);
        let need: usize = if tag == 0 {
            6
        } else if tag == 1 {
            4
        } else {
            12
        };
        if tag > 5 || len < need {
            proof {
                assert forall|m: ServerMsgView|
                    server_fits(m) implies !(#[trigger] server_encoding(m).is_prefix_of(b@)) by {
                    if server_encoding(m).is_prefix_of(b@) {
                        lemma_server_prefix(m, b@);
                    }
                }
            }
            return None;
        }
        if tag == 0 {
            let m = ServerMsg::Error(read_le(b, 4, 2) as u16);
            proof {
                lemma_le_value_bytes(b@.subrange(0, 4));
                lemma_le_value_bytes(b@.subrange(4, 6));
                lemma_le_value_bound(b@.subrange(4, 6));
                assert(server_encoding(m@) =~= b@.subrange(0, 6));
                lemma_server_decoding_is(m@, b@);
            }
            return Some(m);
        }
        if tag == 1 {
            let m = ServerMsg::Accepted();
            proof {
                lemma_le_value_bytes(b@.subrange(0, 4));
                assert(server_encoding(m@) =~= b@.subrange(0, 4));
                lemma_server_decoding_is(m@, b@);
            }
            return Some(m);
        }
        let count = read_le(b, 4, 8);
        let rest = len - 12;
        let fits = if tag == 4 {
            count <= (rest / 2) as u64
        } else {
            count <= rest as u64
        };
        if !fits {
            proof {
                assert forall|m: ServerMsgView|
                    server_fits(m) implies !(#[trigger] server_encoding(m).is_prefix_of(b@)) by {
                    if server_encoding(m).is_prefix_of(b@) {
                        lemma_server_prefix(m, b@);
                    }
                }
            }
            return None;
        }
        let n = count as usize;
        proof {
            lemma_le_value_bytes(b@.subrange(0, 4));
            lemma_le_value_bytes(b@.subrange(4, 12));
        }
        if tag == 4 {
            let v = read_u16s(b, 12, n);
            let m = ServerMsg::GameLoss(v);
            proof {
                assert(server_encoding(m@) =~= b@.subrange(0, 12 + 2 * n));
                lemma_server_decoding_is(m@, b@);
            }
            return Some(m);
        }
        let bytes = read_bytes(b, 12, n);
        if tag == 2 {
            let m = ServerMsg::RevealCells(bytes);
            proof {
                assert(server_encoding(m@) =~= b@.subrange(0, 12 + n));
                lemma_server_decoding_is(m@, b@);
            }
            return Some(m);
        }
        if tag == 3 {
            let m = ServerMsg::GameWin(bytes);
            proof {
                assert(server_encoding(m@) =~= b@.subrange(0, 12 + n));
                lemma_server_decoding_is(m@, b@);
            }
            return Some(m);
        }
        let ghost body = bytes@;
        match string_from_utf8(bytes) {
            Some(t) => {
                let m = ServerMsg::Time(t);
                proof {
                    vstd::utf8::decode_utf8_encode_utf8(body);
                    assert(server_encoding(m@) =~= b@.subrange(0, 12 + n));
                    lemma_server_decoding_is(m@, b@);
                }
                Some(m)
            },
            None => {
                proof {
                    assert forall|m: ServerMsgView|
                        server_fits(m) implies !(#[trigger] server_encoding(m).is_prefix_of(b@)) by {
                        if server_encoding(m).is_prefix_of(b@) {
                            lemma_server_prefix(m, b@);
                            if let ServerMsgView::Time(t) = m {
                                vstd::utf8::encode_utf8_valid_utf8(t);
                                assert(body =~= encode_utf8(t));
                            }
                        }
                    }
                }
                None
            },
        }
    }
}

/// Why bytes could not be turned into a message.
#[derive(Clone, Copy, Debug, PartialEq, Eq, Structural)]
pub enum CodecError {
    /// The bytes are not a well-formed compressed stream.
    Decompress,
    /// The decompressed bytes start with no message.
    Decode,
}

impl ClientMsg {
    /// The message's encoding, compressed.
    pub fn to_bytes(&self) -> (r: Result<Vec<u8>, CodecError>)
        ensures
            r is Ok,
            r matches Ok(v) ==> v@ == zlib_compressed(client_encoding(*self)) && zlib_complete(v@) && zlib_inflated(
                v@,
            ) == client_encoding(*self),
    {
        let plain = self.encode();
        Ok(zip::encode(plain.as_slice()).unwrap())
    }

    /// The message in the decompressed `bytes`.
    pub fn from_bytes(bytes: &Vec<u8>) -> (r: Result<ClientMsg, CodecError>)
        ensures
            r == Err::<ClientMsg, CodecError>(CodecError::Decompress) <==> !zlib_complete(bytes@),
            match r {
                Ok(m) => client_decoding(zlib_inflated(bytes@)) == Some(m),
                Err(CodecError::Decode) => zlib_complete(bytes@) && client_decoding(zlib_inflated(bytes@)) is None,
                Err(_) => true,
            },
    {
        match zip::decode(bytes.as_slice()) {
            Some(plain) => match ClientMsg::decode(&plain) {
                Some(m) => Ok(m),
                None => Err(CodecError::Decode),
            },
            None => Err(CodecError::Decompress),
        }
    }
}

impl ServerMsg {
    /// The message's encoding, compressed.
    pub fn to_bytes(&self) -> (r: Result<Vec<u8>, CodecError>)
        ensures
            r is Ok,
            r matches Ok(v) ==> v@ == zlib_compressed(server_encoding(self@)) && zlib_complete(v@) && zlib_inflated(
                v@,
            ) == server_encoding(self@),
    {
        let plain = self.encode();
        Ok(zip::encode(plain.as_slice()).unwrap())
    }

    /// The message in the decompressed `bytes`.
    pub fn from_bytes(bytes: &Vec<u8>) -> (r: Result<ServerMsg, CodecError>)
        ensures
            r == Err::<ServerMsg, CodecError>(CodecError::Decompress) <==> !zlib_complete(bytes@),
            match r {
                Ok(m) => server_decoding(zlib_inflated(bytes@)) == Some(m@),
                Err(CodecError::Decode) => zlib_complete(bytes@) && server_decoding(zlib_inflated(bytes@)) is None,
                Err(_) => true,
            },
    {
        match zip::decode(bytes.as_slice()) {
            Some(plain) => match ServerMsg::decode(&plain) {
                Some(m) => Ok(m),
                None => Err(CodecError::Decode),
            },
            None => Err(CodecError::Decompress),
        }
    }
}

/// Relies on `String::from_utf8`: it accepts exactly the valid UTF-8 byte
/// sequences, and keeps the characters they encode.
#[verifier::external_body]
pub(crate) fn string_from_utf8(bytes: Vec<u8>) -> (r: Option<String>)
    ensures
        r is Some <==> vstd::utf8::valid_utf8(bytes@),
        r matches Some(t) ==> t@ == vstd::utf8::decode_utf8(bytes@),
{
    String::from_utf8(bytes).ok()
}

/// What a message whose encoding starts `s` shows in `s`: its tag in the
/// first four bytes; the length of its sequence or string field in the next
/// eight, followed by that field's bytes.
proof fn lemma_server_prefix(m: ServerMsgView, s: Seq<u8>)
    requires
        server_fits(m),
        server_encoding(m).is_prefix_of(s),
    ensures
        le_value(s.subrange(0, 4)) == server_tag(m),
        server_tag(m) == 0 ==> s.len() >= 6,
        server_tag(m) >= 2 ==> {
            &&& s.len() >= 12 + server_body(m).len()
            &&& le_value(s.subrange(4, 12)) == server_body_len(m)
            &&& server_body(m) == s.subrange(12, 12 + server_body(m).len() as int)
        },
        server_body(m).len() == match m {
            ServerMsgView::GameLoss(v) => 2 * v.len() as int,
            _ => server_body_len(m) as int,
        },
{
    lemma_pow256_values();
    lemma_le_bytes_len(server_tag(m), 4);
    lemma_le_bytes_len(server_body_len(m), 8);
    if let ServerMsgView::Error(c) = m {
        lemma_le_bytes_len(c as nat, 2);
    }
    if let ServerMsgView::GameLoss(v) = m {
        lemma_u16s_bytes_len(v);
    }
    let e = server_encoding(m);
    let p = server_payload(m);
    assert(e.subrange(0, 4) =~= le_bytes(server_tag(m), 4));
    assert(s.subrange(0, 4) =~= e.subrange(0, 4));
    lemma_le_value_of_bytes(server_tag(m), 4);
    if server_tag(m) >= 2 {
        assert(s.subrange(4, 12) =~= e.subrange(4, 12));
        assert(e.subrange(4, 12) =~= le_bytes(server_body_len(m), 8));
        lemma_le_value_of_bytes(server_body_len(m), 8);
        vstd::arithmetic::div_mod::lemma_small_mod(server_body_len(m), pow256(8));
        assert(server_body(m) =~= s.subrange(12, 12 + server_body(m).len() as int)) by {
            assert forall|i: int| 0 <= i < server_body(m).len() implies server_body(m)[i] == s[12 + i] by {
                assert(e[12 + i] == server_body(m)[i]);
                assert(e[12 + i] == s.subrange(0, e.len() as int)[12 + i]);
            }
        }
    }
}

/// A fitting message whose encoding starts `s` is what `s` decodes to.
proof fn lemma_server_decoding_is(m: ServerMsgView, s: Seq<u8>)
    requires
        server_fits(m),
        server_encoding(m).is_prefix_of(s),
    ensures
        server_decoding(s) == Some(m),
{
    let m2 = choose|m2: ServerMsgView| server_fits(m2) && #[trigger] server_encoding(m2).is_prefix_of(s);
    lemma_server_prefix_unique(m, m2, s);
}

/// At most one fitting server message's encoding starts a given byte
/// sequence.
pub proof fn lemma_server_prefix_unique(m1: ServerMsgView, m2: ServerMsgView, s: Seq<u8>)
    requires
        server_fits(m1),
        server_fits(m2),
        server_encoding(m1).is_prefix_of(s),
        server_encoding(m2).is_prefix_of(s),
    ensures
        m1 == m2,
{
    lemma_server_prefix(m1, s);
    lemma_server_prefix(m2, s);
    lemma_pow256_values();
    match (m1, m2) {
        (ServerMsgView::Error(a), ServerMsgView::Error(b)) => {
            lemma_le_bytes_len(a as nat, 2);
            lemma_le_bytes_len(b as nat, 2);
            lemma_le_bytes_len(0, 4);
            let e1 = server_encoding(m1);
            let e2 = server_encoding(m2);
            assert(e1.subrange(4, 6) =~= le_bytes(a as nat, 2));
            assert(e2.subrange(4, 6) =~= le_bytes(b as nat, 2));
            assert(e1.subrange(4, 6) =~= s.subrange(4, 6));
            assert(e2.subrange(4, 6) =~= s.subrange(4, 6));
            lemma_le_bytes_inj(a as nat, b as nat, 2);
        },
        (ServerMsgView::GameLoss(a), ServerMsgView::GameLoss(b)) => {
            lemma_u16s_bytes_inj(a, b);
        },
        (ServerMsgView::Time(a), ServerMsgView::Time(b)) => {
            vstd::utf8::encode_utf8_decode_utf8(a);
            vstd::utf8::encode_utf8_decode_utf8(b);
        },
        _ => {},
    }
}

/// Decoding the encoding of a server message gives that message back,
/// wherever its sequence or string field fits the length field.
pub proof fn lemma_server_round_trip(m: ServerMsgView)
    requires
        server_fits(m),
    ensures
        server_decoding(server_encoding(m)) == Some(m),
{
    assert(server_encoding(m).is_prefix_of(server_encoding(m))) by {
        assert(server_encoding(m) =~= server_encoding(m).subrange(0, server_encoding(m).len() as int));
    }
    lemma_server_decoding_is(m, server_encoding(m));
}

/// A compressed client message decodes to that message: where `bytes` is
/// a complete zlib stream of a message's encoding (as `to_bytes` returns),
/// `from_bytes` returns the message.
pub proof fn lemma_client_compressed_round_trip(m: ClientMsg, bytes: Seq<u8>)
    requires
        zlib_complete(bytes),
        zlib_inflated(bytes) == client_encoding(m),
    ensures
        client_decoding(zlib_inflated(bytes)) == Some(m),
{
    lemma_client_round_trip(m);
}

/// A compressed server message decodes to that message, wherever its
/// sequence or string field fits the length field.
pub proof fn lemma_server_compressed_round_trip(m: ServerMsgView, bytes: Seq<u8>)
    requires
        server_fits(m),
        zlib_complete(bytes),
        zlib_inflated(bytes) == server_encoding(m),
    ensures
        server_decoding(zlib_inflated(bytes)) == Some(m),
{
    lemma_server_round_trip(m);
}

/// Appends `v`.
fn push_bytes(out: &mut Vec<u8>, v: &[u8])
    ensures
        final(out)@ == old(out)@ + v@,
{
    let ghost start = out@;
    let mut i: usize = 0;
    while i < v.len()
        invariant
            i <= v@.len(),
            out@ == start + v@.take(i as int),
        decreases v@.len() - i,
    {
        out.push(v[i]);
        i += 1;
        proof {
            assert(out@ =~= start + v@.take(i as int));
        }
    }
    proof {
        assert(v@.take(v@.len() as int) =~= v@);
    }
}

/// Appends the little-endian bytes of each entry of `v`.
fn push_u16s(out: &mut Vec<u8>, v: &Vec<u16>)
    ensures
        final(out)@ == old(out)@ + u16s_bytes(v@),
{
    let ghost start = out@;
    let mut i: usize = 0;
    proof {
        assert(u16s_bytes(v@.take(0)) =~= Seq::<u8>::empty());
        assert(start + Seq::<u8>::empty() =~= start);
    }
    while i < v.len()
        invariant
            i <= v@.len(),
            out@ == start + u16s_bytes(v@.take(i as int)),
        decreases v@.len() - i,
    {
        push_le(out, v[i] as u64, 2);
        proof {
            assert(v@.take(i + 1).drop_last() =~= v@.take(i as int));
            assert(out@ =~= start + u16s_bytes(v@.take(i + 1)));
        }
        i += 1;
    }
    proof {
        assert(v@.take(v@.len() as int) =~= v@);
    }
}

/// Bytes `pos .. pos + n` of `b`.
fn read_bytes(b: &Vec<u8>, pos: usize, n: usize) -> (r: Vec<u8>)
    requires
        pos + n <= b@.len(),
    ensures
        r@ == b@.subrange(pos as int, pos + n),
{
    let len = b.len();
    let mut r: Vec<u8> = Vec::new();
    let mut i: usize = 0;
    while i < n
        invariant
            i <= n,
            pos + n <= b@.len(),
            len == b@.len(),
            r@ == b@.subrange(pos as int, pos + i),
        decreases n - i,
    {
        r.push(b[pos + i]);
        i += 1;
        proof {
            assert(r@ =~= b@.subrange(pos as int, pos + i));
        }
    }
    r
}

/// The `n` little-endian `u16` values in `b` from `pos` on.
fn read_u16s(b: &Vec<u8>, pos: usize, n: usize) -> (r: Vec<u16>)
    requires
        pos + 2 * n <= b@.len(),
    ensures
        r@.len() == n,
        u16s_bytes(r@) == b@.subrange(pos as int, pos + 2 * n),
{
    proof {
        lemma_pow256_values();
    }
    let mut r: Vec<u16> = Vec::new();
    let mut i: usize = 0;
    proof {
        assert(b@.subrange(pos as int, pos as int) =~= Seq::<u8>::empty());
    }
    let len = b.len();
    while i < n
        invariant
            i <= n,
            pos + 2 * n <= b@.len(),
            len == b@.len(),
            r@.len() == i,
            u16s_bytes(r@) == b@.subrange(pos as int, pos + 2 * i),
            pow256(2) == 0x1_0000,
        decreases n - i,
    {
        let x = read_le(b, pos + 2 * i, 2);
        proof {
            lemma_le_value_bytes(b@.subrange(pos + 2 * i, pos + 2 * i + 2));
            lemma_le_value_bound(b@.subrange(pos + 2 * i, pos + 2 * i + 2));
        }
        let ghost before = r@;
        r.push(x as u16);
        proof {
            assert(r@.drop_last() =~= before);
            assert(u16s_bytes(r@) =~= b@.subrange(pos as int, pos + 2 * (i + 1)));
        }
        i += 1;
    }
    r
}

proof fn lemma_u16s_bytes_len(v: Seq<u16>)
    ensures
        u16s_bytes(v).len() == 2 * v.len(),
    decreases v.len(),
{
    if v.len() > 0 {
        lemma_u16s_bytes_len(v.drop_last());
        lemma_le_bytes_len(v.last() as nat, 2);
    }
}

/// Sequences of `u16` with the same bytes are equal.
proof fn lemma_u16s_bytes_inj(a: Seq<u16>, b: Seq<u16>)
    requires
        u16s_bytes(a) == u16s_bytes(b),
    ensures
        a == b,
    decreases a.len(),
{
    lemma_u16s_bytes_len(a);
    lemma_u16s_bytes_len(b);
    if a.len() > 0 {
        let pa = u16s_bytes(a.drop_last());
        let pb = u16s_bytes(b.drop_last());
        lemma_u16s_bytes_len(a.drop_last());
        lemma_u16s_bytes_len(b.drop_last());
        lemma_le_bytes_len(a.last() as nat, 2);
        lemma_le_bytes_len(b.last() as nat, 2);
        let n = pa.len() as int;
        assert(pa =~= u16s_bytes(a).subrange(0, n));
        assert(pb =~= u16s_bytes(b).subrange(0, n));
        assert(le_bytes(a.last() as nat, 2) =~= u16s_bytes(a).subrange(n, n + 2));
        assert(le_bytes(b.last() as nat, 2) =~= u16s_bytes(b).subrange(n, n + 2));
        lemma_u16s_bytes_inj(a.drop_last(), b.drop_last());
        lemma_pow256_values();
        lemma_le_bytes_inj(a.last() as nat, b.last() as nat, 2);
        assert(a =~= a.drop_last().push(a.last()));
        assert(b =~= b.drop_last().push(b.last()));
    }
}

/// Appends the `n` low bytes of `v`, least significant first.
fn push_le(out: &mut Vec<u8>, v: u64, n: usize)
    ensures
        final(out)@ == old(out)@ + le_bytes(v as nat, n as nat),
{
    let ghost start = out@;
    let mut x = v;
    let mut i: usize = 0;
    while i < n
        invariant
            i <= n,
            out@ + le_bytes(x as nat, (n - i) as nat) == start + le_bytes(v as nat, n as nat),
        decreases n - i,
    {
        let ghost before = out@;
        let ghost rest = le_bytes(x as nat, (n - i) as nat);
        out.push((x % 256) as u8);
        proof {
            assert(rest == seq![(x % 256) as u8] + le_bytes((x / 256) as nat, (n - i - 1) as nat));
            assert(out@ + le_bytes((x / 256) as nat, (n - i - 1) as nat) =~= before + rest);
        }
        x = x / 256;
        i += 1;
    }
    proof {
        assert(out@ + le_bytes(x as nat, 0) =~= out@);
    }
}

/// The number in bytes `pos .. pos + n` of `b`, least significant first.
fn read_le(b: &Vec<u8>, pos: usize, n: usize) -> (r: u64)
    requires
        pos + n <= b@.len(),
        n <= 8,
    ensures
        r as nat == le_value(b@.subrange(pos as int, pos + n)),
{
    proof {
        lemma_pow256_values();
    }
    let len = b.len();
    let mut v: u64 = 0;
    let mut i: usize = n;
    proof {
        assert(b@.subrange(pos + i, pos + n) =~= Seq::<u8>::empty());
    }
    while i > 0
        invariant
            i <= n <= 8,
            pos + n <= b@.len(),
            len == b@.len(),
            v as nat == le_value(b@.subrange(pos + i, pos + n)),
            v < pow256((n - i) as nat),
            pow256(0) == 1 && pow256(1) == 256 && pow256(2) == 0x1_0000 && pow256(3) == 0x100_0000
                && pow256(4) == 0x1_0000_0000 && pow256(5) == 0x100_0000_0000 && pow256(6)
                == 0x1_0000_0000_0000 && pow256(7) == 0x100_0000_0000_0000 && pow256(8)
                == 0x1_0000_0000_0000_0000,
        decreases i,
    {
        i -= 1;
        let ghost s = b@.subrange(pos + i, pos + n);
        proof {
            assert(s.drop_first() =~= b@.subrange(pos + i + 1, pos + n));
            assert(s[0] == b@[pos + i]);
            lemma_le_value_bound(s);
            lemma_pow256_mono((n - i - 1) as nat, 7);
            assert(v < 0x100_0000_0000_0000);
            assert(v * 256 + 255 <= u64::MAX);
        }
        v = v * 256 + b[pos + i] as u64;
    }
    v
}

/// The powers of 256 up to the eighth.
pub proof fn lemma_pow256_values()
    ensures
        pow256(0) == 1,
        pow256(1) == 256,
        pow256(2) == 0x1_0000,
        pow256(3) == 0x100_0000,
        pow256(4) == 0x1_0000_0000,
        pow256(5) == 0x100_0000_0000,
        pow256(6) == 0x1_0000_0000_0000,
        pow256(7) == 0x100_0000_0000_0000,
        pow256(8) == 0x1_0000_0000_0000_0000,
{
    assert(pow256(1) == 256 * pow256(0));
    assert(pow256(2) == 256 * pow256(1));
    assert(pow256(3) == 256 * pow256(2));
    assert(pow256(4) == 256 * pow256(3));
    assert(pow256(5) == 256 * pow256(4));
    assert(pow256(6) == 256 * pow256(5));
    assert(pow256(7) == 256 * pow256(6));
    assert(pow256(8) == 256 * pow256(7));
}

proof fn lemma_pow256_mono(a: nat, b: nat)
    requires
        a <= b,
    ensures
        pow256(a) <= pow256(b),
    decreases b,
{
    if a < b {
        lemma_pow256_mono(a, (b - 1) as nat);
    }
}

proof fn lemma_le_bytes_len(v: nat, n: nat)
    ensures
        le_bytes(v, n).len() == n,
    decreases n,
{
    if n > 0 {
        lemma_le_bytes_len(v / 256, (n - 1) as nat);
    }
}

/// Reading `n` little-endian bytes of `v` gives `v` modulo `256^n`.
proof fn lemma_le_value_of_bytes(v: nat, n: nat)
    ensures
        le_value(le_bytes(v, n)) == v % pow256(n),
    decreases n,
{
    if n > 0 {
        lemma_le_value_of_bytes(v / 256, (n - 1) as nat);
        lemma_le_bytes_len(v / 256, (n - 1) as nat);
        let s = le_bytes(v, n);
        assert(s.drop_first() =~= le_bytes(v / 256, (n - 1) as nat));
        assert(pow256((n - 1) as nat) > 0) by {
            lemma_pow256_pos((n - 1) as nat);
        }
        vstd::arithmetic::div_mod::lemma_mod_breakdown(v as int, 256, pow256((n - 1) as nat) as int);
    }
}

proof fn lemma_pow256_pos(n: nat)
    ensures
        pow256(n) > 0,
    decreases n,
{
    if n > 0 {
        lemma_pow256_pos((n - 1) as nat);
    }
}

/// Writing back the value read from `s` gives `s`.
proof fn lemma_le_value_bytes(s: Seq<u8>)
    ensures
        le_bytes(le_value(s), s.len()) == s,
    decreases s.len(),
{
    if s.len() > 0 {
        let rest = s.drop_first();
        lemma_le_value_bytes(rest);
        let v = le_value(s);
        vstd::arithmetic::div_mod::lemma_fundamental_div_mod_converse(
            v as int,
            256,
            le_value(rest) as int,
            s[0] as int,
        );
        assert(le_bytes(v, s.len()) =~= s);
    }
}

/// The value of `n` bytes is below `256^n`.
proof fn lemma_le_value_bound(s: Seq<u8>)
    ensures
        le_value(s) < pow256(s.len()),
    decreases s.len(),
{
    if s.len() > 0 {
        lemma_le_value_bound(s.drop_first());
    }
}

/// Numbers below `256^n` with the same `n` bytes are equal.
proof fn lemma_le_bytes_inj(a: nat, b: nat, n: nat)
    requires
        a < pow256(n),
        b < pow256(n),
        le_bytes(a, n) == le_bytes(b, n),
    ensures
        a == b,
{
    lemma_le_value_of_bytes(a, n);
    lemma_le_value_of_bytes(b, n);
    vstd::arithmetic::div_mod::lemma_small_mod(a, pow256(n));
    vstd::arithmetic::div_mod::lemma_small_mod(b, pow256(n));
}

} // verus!
