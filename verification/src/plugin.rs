//! The reduced message subset spoken on the local companion-plugin
//! listener: a loopback connection from an in-process game integration,
//! gated by its own single-byte version check. Inbound it carries world
//! claims, name changes and found items; outbound item-queue updates and
//! name broadcasts.

use vstd::prelude::*;
use crate::codec::{
    DecodeError, dec_name, dec_u16, dec_u16s_items, dec_u32, dec_u64, dec_u8, dec_world,
    enc_u16, enc_u16s_items, enc_u32, enc_u64, put_name, put_u16, put_u32, put_u64,
    put_u8, read_name, read_u16, read_u32, read_u64, read_u8, read_u16s, read_world,
    lemma_u16_round_trip, lemma_u32_round_trip, lemma_u64_round_trip, lemma_enc_u16s_items_len,
    lemma_u16s_items_round_trip, lemma_enc_u16s_items_push,
};

verus! {

/// Version byte of the companion-plugin protocol.
pub const MW_PJ64_PROTO_VERSION: u8 = 1;

/// A message sent to the companion plugin.
#[derive(Debug, Clone, PartialEq, Eq)]
pub enum ServerMessage {
    /// Full resync of the item queue.
    ItemQueue(Vec<u16>),
    /// One newly received item.
    GetItem(u16),
    /// A player's display name changed.
    PlayerName(u8, [u8; 8]),
}

/// Ghost view of the outbound plugin message.
pub enum ServerMessageV {
    ItemQueue(Seq<u16>),
    GetItem(u16),
    PlayerName(u8, Seq<u8>),
}

impl View for ServerMessage {
    type V = ServerMessageV;

    open spec fn view(&self) -> ServerMessageV {
        match self {
            ServerMessage::ItemQueue(kinds) => ServerMessageV::ItemQueue(kinds@),
            ServerMessage::GetItem(kind) => ServerMessageV::GetItem(*kind),
            ServerMessage::PlayerName(w, name) => ServerMessageV::PlayerName(*w, name@),
        }
    }
}

impl ServerMessageV {
    /// Wire-valid outbound plugin message.
    pub open spec fn wf(self) -> bool {
        match self {
            ServerMessageV::ItemQueue(kinds) => kinds.len() <= u64::MAX,
            ServerMessageV::GetItem(_) => true,
            ServerMessageV::PlayerName(w, name) => w != 0 && name.len() == 8,
        }
    }
}

/// A message received from the companion plugin.
#[derive(Debug, Clone, PartialEq, Eq)]
pub enum ClientMessage {
    /// The local game claims a world.
    PlayerId(u8),
    /// The local player set a display name.
    PlayerName([u8; 8]),
    /// The local game found an item.
    SendItem { key: u32, kind: u16, target_world: u8 },
}

/// Ghost view of the inbound plugin message.
pub enum ClientMessageV {
    PlayerId(u8),
    PlayerName(Seq<u8>),
    SendItem { key: u32, kind: u16, target_world: u8 },
}

impl View for ClientMessage {
    type V = ClientMessageV;

    open spec fn view(&self) -> ClientMessageV {
        match self {
            ClientMessage::PlayerId(w) => ClientMessageV::PlayerId(*w),
            ClientMessage::PlayerName(name) => ClientMessageV::PlayerName(name@),
            ClientMessage::SendItem { key, kind, target_world } => ClientMessageV::SendItem {
                key: *key,
                kind: *kind,
                target_world: *target_world,
            },
        }
    }
}

impl ClientMessageV {
    /// Wire-valid inbound plugin message.
    pub open spec fn wf(self) -> bool {
        match self {
            ClientMessageV::PlayerId(w) => w != 0,
            ClientMessageV::PlayerName(name) => name.len() == 8,
            ClientMessageV::SendItem { target_world, .. } => target_world != 0,
        }
    }
}

pub open spec fn enc_plugin_server(m: ServerMessageV) -> Seq<u8> {
    match m {
        ServerMessageV::ItemQueue(kinds) => seq![0u8] + enc_u64(kinds.len() as u64)
            + enc_u16s_items(kinds),
        ServerMessageV::GetItem(kind) => seq![1u8] + enc_u16(kind),
        ServerMessageV::PlayerName(w, name) => seq![2u8, w] + name,
    }
}

pub open spec fn dec_plugin_server(b: Seq<u8>, pos: int) -> Result<
    (ServerMessageV, int),
    DecodeError,
> {
    match dec_u8(b, pos) {
        Ok((tag, p)) => if tag == 0 {
            match dec_u64(b, p) {
                Ok((n, p2)) => match dec_u16s_items(b, p2, n as int) {
                    Ok((kinds, p3)) => Ok((ServerMessageV::ItemQueue(kinds), p3)),
                    Err(e) => Err(e),
                },
                Err(e) => Err(e),
            }
        } else if tag == 1 {
            match dec_u16(b, p) {
                Ok((kind, p2)) => Ok((ServerMessageV::GetItem(kind), p2)),
                Err(e) => Err(e),
            }
        } else if tag == 2 {
            match dec_world(b, p) {
                Ok((w, p2)) => match dec_name(b, p2) {
                    Ok((name, p3)) => Ok((ServerMessageV::PlayerName(w, name), p3)),
                    Err(e) => Err(e),
                },
                Err(e) => Err(e),
            }
        } else {
            Err(DecodeError::Malformed)
        },
        Err(e) => Err(e),
    }
}

pub open spec fn enc_plugin_client(m: ClientMessageV) -> Seq<u8> {
    match m {
        ClientMessageV::PlayerId(w) => seq![0u8, w],
        ClientMessageV::PlayerName(name) => seq![1u8] + name,
        ClientMessageV::SendItem { key, kind, target_world } => seq![2u8] + enc_u32(key)
            + enc_u16(kind) + seq![target_world],
    }
}

pub open spec fn dec_plugin_client(b: Seq<u8>, pos: int) -> Result<
    (ClientMessageV, int),
    DecodeError,
> {
    match dec_u8(b, pos) {
        Ok((tag, p)) => if tag == 0 {
            match dec_world(b, p) {
                Ok((w, p2)) => Ok((ClientMessageV::PlayerId(w), p2)),
                Err(e) => Err(e),
            }
        } else if tag == 1 {
            match dec_name(b, p) {
                Ok((name, p2)) => Ok((ClientMessageV::PlayerName(name), p2)),
                Err(e) => Err(e),
            }
        } else if tag == 2 {
            match dec_u32(b, p) {
                Ok((key, p2)) => match dec_u16(b, p2) {
                    Ok((kind, p3)) => match dec_world(b, p3) {
                        Ok((target_world, p4)) => Ok(
                            (ClientMessageV::SendItem { key, kind, target_world }, p4),
                        ),
                        Err(e) => Err(e),
                    },
                    Err(e) => Err(e),
                },
                Err(e) => Err(e),
            }
        } else {
            Err(DecodeError::Malformed)
        },
        Err(e) => Err(e),
    }
}

/// Encodes an outbound plugin message canonically.
pub fn encode_plugin_server_message(m: &ServerMessage) -> (out: Vec<u8>)
    ensures
        out@ == enc_plugin_server(m@),
{
    let mut out: Vec<u8> = Vec::new();
    match m {
        ServerMessage::ItemQueue(kinds) => {
            put_u8(&mut out, 0);
            put_u64(&mut out, kinds.len() as u64);
            let mut i: usize = 0;
            while i < kinds.len()
                invariant
                    i <= kinds@.len(),
                    out@ == seq![0u8] + enc_u64(kinds@.len() as u64) + enc_u16s_items(
                        kinds@.take(i as int),
                    ),
                decreases kinds@.len() - i,
            {
                put_u16(&mut out, kinds[i]);
                proof {
                    lemma_enc_u16s_items_push(kinds@.take(i as int), kinds@[i as int]);
                    assert(kinds@.take(i + 1) =~= kinds@.take(i as int).push(kinds@[i as int]));
                    assert(out@ =~= seq![0u8] + enc_u64(kinds@.len() as u64) + enc_u16s_items(
                        kinds@.take(i + 1),
                    ));
                }
                i += 1;
            }
            proof {
                assert(kinds@.take(kinds@.len() as int) =~= kinds@);
            }
        },
        ServerMessage::GetItem(kind) => {
            put_u8(&mut out, 1);
            put_u16(&mut out, *kind);
        },
        ServerMessage::PlayerName(w, name) => {
            put_u8(&mut out, 2);
            put_u8(&mut out, *w);
            put_name(&mut out, name);
        },
    }
    proof {
        assert(out@ =~= enc_plugin_server(m@));
    }
    out
}

/// Decodes one outbound plugin message starting at `pos`.
pub fn decode_plugin_server_message(b: &Vec<u8>, pos: usize) -> (r: Result<
    (ServerMessage, usize),
    DecodeError,
>)
    ensures
        r is Ok ==> dec_plugin_server(b@, pos as int) == Ok::<(ServerMessageV, int), DecodeError>(
            (r->Ok_0.0@, r->Ok_0.1 as int),
        ) && r->Ok_0.0@.wf(),
        r is Err ==> dec_plugin_server(b@, pos as int) == Err::<(ServerMessageV, int), DecodeError>(
            r->Err_0,
        ),
{
    let (tag, p) = match read_u8(b, pos) {
        Ok(v) => v,
        Err(e) => {
            return Err(e);
        },
    };
    if tag == 0 {
        let (n, p2) = match read_u64(b, p) {
            Ok(v) => v,
            Err(e) => {
                return Err(e);
            },
        };
        let (kinds, p3) = match read_u16s(b, p2, n) {
            Ok(v) => v,
            Err(e) => {
                return Err(e);
            },
        };
        proof {
            crate::codec::lemma_dec_u16s_items_extent(b@, p2 as int, n as int);
        }
        Ok((ServerMessage::ItemQueue(kinds), p3))
    } else if tag == 1 {
        match read_u16(b, p) {
            Ok((kind, p2)) => Ok((ServerMessage::GetItem(kind), p2)),
            Err(e) => Err(e),
        }
    } else if tag == 2 {
        let (w, p2) = match read_world(b, p) {
            Ok(v) => v,
            Err(e) => {
                return Err(e);
            },
        };
        let (name, p3) = match read_name(b, p2) {
            Ok(v) => v,
            Err(e) => {
                return Err(e);
            },
        };
        Ok((ServerMessage::PlayerName(w, name), p3))
    } else {
        Err(DecodeError::Malformed)
    }
}

/// Encodes an inbound plugin message canonically.
pub fn encode_plugin_client_message(m: &ClientMessage) -> (out: Vec<u8>)
    ensures
        out@ == enc_plugin_client(m@),
{
    let mut out: Vec<u8> = Vec::new();
    match m {
        ClientMessage::PlayerId(w) => {
            put_u8(&mut out, 0);
            put_u8(&mut out, *w);
        },
        ClientMessage::PlayerName(name) => {
            put_u8(&mut out, 1);
            put_name(&mut out, name);
        },
        ClientMessage::SendItem { key, kind, target_world } => {
            put_u8(&mut out, 2);
            put_u32(&mut out, *key);
            put_u16(&mut out, *kind);
            put_u8(&mut out, *target_world);
        },
    }
    proof {
        assert(out@ =~= enc_plugin_client(m@));
    }
    out
}

/// Decodes one inbound plugin message starting at `pos`.
pub fn decode_plugin_client_message(b: &Vec<u8>, pos: usize) -> (r: Result<
    (ClientMessage, usize),
    DecodeError,
>)
    ensures
        r is Ok ==> dec_plugin_client(b@, pos as int) == Ok::<(ClientMessageV, int), DecodeError>(
            (r->Ok_0.0@, r->Ok_0.1 as int),
        ) && r->Ok_0.0@.wf(),
        r is Err ==> dec_plugin_client(b@, pos as int) == Err::<(ClientMessageV, int), DecodeError>(
            r->Err_0,
        ),
{
    let (tag, p) = match read_u8(b, pos) {
        Ok(v) => v,
        Err(e) => {
            return Err(e);
        },
    };
    if tag == 0 {
        match read_world(b, p) {
            Ok((w, p2)) => Ok((ClientMessage::PlayerId(w), p2)),
            Err(e) => Err(e),
        }
    } else if tag == 1 {
        match read_name(b, p) {
            Ok((name, p2)) => Ok((ClientMessage::PlayerName(name), p2)),
            Err(e) => Err(e),
        }
    } else if tag == 2 {
        let (key, p2) = match read_u32(b, p) {
            Ok(v) => v,
            Err(e) => {
                return Err(e);
            },
        };
        let (kind, p3) = match read_u16(b, p2) {
            Ok(v) => v,
            Err(e) => {
                return Err(e);
            },
        };
        let (target_world, p4) = match read_world(b, p3) {
            Ok(v) => v,
            Err(e) => {
                return Err(e);
            },
        };
        Ok((ClientMessage::SendItem { key, kind, target_world }, p4))
    } else {
        Err(DecodeError::Malformed)
    }
}

/// Law: the outbound plugin-message decoder inverts the encoder.
pub proof fn lemma_plugin_server_round_trip(b: Seq<u8>, pos: int, m: ServerMessageV)
    requires
        m.wf(),
        0 <= pos,
        pos + enc_plugin_server(m).len() <= b.len(),
        b.subrange(pos, pos + enc_plugin_server(m).len()) == enc_plugin_server(m),
    ensures
        dec_plugin_server(b, pos) == Ok::<(ServerMessageV, int), DecodeError>(
            (m, pos + enc_plugin_server(m).len()),
        ),
{
    let whole = enc_plugin_server(m);
    assert(b[pos] == whole[0]);
    match m {
        ServerMessageV::ItemQueue(kinds) => {
            let n = kinds.len() as u64;
            let items = enc_u16s_items(kinds);
            lemma_enc_u16s_items_len(kinds);
            assert(whole == seq![0u8] + enc_u64(n) + items);
            assert(b.subrange(pos + 1, pos + 9) =~= enc_u64(n)) by {
                assert forall|j: int| 0 <= j < 8 implies b[pos + 1 + j] == enc_u64(n)[j] by {
                    assert(b[pos + 1 + j] == b.subrange(pos, pos + whole.len())[1 + j]);
                    assert(whole[1 + j] == enc_u64(n)[j]);
                }
            }
            lemma_u64_round_trip(b, pos + 1, n);
            assert(b.subrange(pos + 9, pos + 9 + items.len()) =~= items) by {
                assert forall|j: int| 0 <= j < items.len() implies b[pos + 9 + j] == items[j] by {
                    assert(b[pos + 9 + j] == b.subrange(pos, pos + whole.len())[9 + j]);
                    assert(whole[9 + j] == items[j]);
                }
            }
            lemma_u16s_items_round_trip(b, pos + 9, kinds);
            assert(n as int == kinds.len());
        },
        ServerMessageV::GetItem(kind) => {
            assert(b.subrange(pos + 1, pos + 3) =~= enc_u16(kind)) by {
                assert forall|j: int| 0 <= j < 2 implies b[pos + 1 + j] == enc_u16(kind)[j] by {
                    assert(b[pos + 1 + j] == b.subrange(pos, pos + whole.len())[1 + j]);
                    assert(whole[1 + j] == enc_u16(kind)[j]);
                }
            }
            lemma_u16_round_trip(b, pos + 1, kind);
        },
        ServerMessageV::PlayerName(w, name) => {
            assert(whole == seq![2u8, w] + name);
            assert(b[pos + 1] == whole[1]);
            assert(b.subrange(pos + 2, pos + 10) =~= name) by {
                assert forall|j: int| 0 <= j < 8 implies b[pos + 2 + j] == name[j] by {
                    assert(b[pos + 2 + j] == b.subrange(pos, pos + whole.len())[2 + j]);
                    assert(whole[2 + j] == name[j]);
                }
            }
        },
    }
}

/// Law: the inbound plugin-message decoder inverts the encoder.
pub proof fn lemma_plugin_client_round_trip(b: Seq<u8>, pos: int, m: ClientMessageV)
    requires
        m.wf(),
        0 <= pos,
        pos + enc_plugin_client(m).len() <= b.len(),
        b.subrange(pos, pos + enc_plugin_client(m).len()) == enc_plugin_client(m),
    ensures
        dec_plugin_client(b, pos) == Ok::<(ClientMessageV, int), DecodeError>(
            (m, pos + enc_plugin_client(m).len()),
        ),
{
    let whole = enc_plugin_client(m);
    assert(b[pos] == whole[0]);
    match m {
        ClientMessageV::PlayerId(w) => {
            assert(b[pos + 1] == whole[1]);
        },
        ClientMessageV::PlayerName(name) => {
            assert(whole == seq![1u8] + name);
            assert(b.subrange(pos + 1, pos + 9) =~= name) by {
                assert forall|j: int| 0 <= j < 8 implies b[pos + 1 + j] == name[j] by {
                    assert(b[pos + 1 + j] == b.subrange(pos, pos + whole.len())[1 + j]);
                    assert(whole[1 + j] == name[j]);
                }
            }
        },
        ClientMessageV::SendItem { key, kind, target_world } => {
            assert(whole == seq![2u8] + enc_u32(key) + enc_u16(kind) + seq![target_world]);
            assert(b.subrange(pos + 1, pos + 5) =~= enc_u32(key)) by {
                assert forall|j: int| 0 <= j < 4 implies b[pos + 1 + j] == enc_u32(key)[j] by {
                    assert(b[pos + 1 + j] == b.subrange(pos, pos + whole.len())[1 + j]);
                    assert(whole[1 + j] == enc_u32(key)[j]);
                }
            }
            lemma_u32_round_trip(b, pos + 1, key);
            assert(b.subrange(pos + 5, pos + 7) =~= enc_u16(kind)) by {
                assert forall|j: int| 0 <= j < 2 implies b[pos + 5 + j] == enc_u16(kind)[j] by {
                    assert(b[pos + 5 + j] == b.subrange(pos, pos + whole.len())[5 + j]);
                    assert(whole[5 + j] == enc_u16(kind)[j]);
                }
            }
            lemma_u16_round_trip(b, pos + 5, kind);
            assert(b[pos + 7] == whole[7]);
        },
    }
}

} // verus!
