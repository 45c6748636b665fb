//! Transport handshake: version negotiation, the decision whether a
//! connection must be upgraded to transport encryption, and the room-name
//! list that ends the handshake.
//!
//! The byte traffic itself is the caller's concern; this module holds the
//! decisions and the payload encoding, so that a connection driver only
//! moves bytes.

use vstd::prelude::*;
use vstd::utf8::encode_utf8;
use crate::codec::{
    DecodeError, dec_str, dec_u64, enc_str, enc_u64, lemma_str_round_trip, lemma_u64_round_trip,
    put_str, put_u64, read_string, read_u64,
};

verus! {

/// Why a connection attempt failed, scoped to that one connection.
#[derive(Debug, Clone, PartialEq, Eq)]
pub enum ClientError {
    /// A socket-level read or write failure, with its description.
    Io(String),
    /// The peer's bytes could not be decoded as a message.
    Decode(DecodeError),
    /// The peer speaks a different protocol version.
    VersionMismatch(u8),
    /// The server refused the join or create request; carries its text.
    Auth(String),
    /// A message arrived that is illegal in the current state.
    ProtocolViolation,
}

/// Compares the local protocol version with the peer's: a mismatch is
/// terminal for the connection, before any room traffic.
pub fn check_version(local: u8, peer: u8) -> (r: Result<(), ClientError>)
    ensures
        r is Ok <==> local == peer,
        r is Err ==> r->Err_0 == ClientError::VersionMismatch(peer),
{
    if peer == local {
        Ok(())
    } else {
        Err(ClientError::VersionMismatch(peer))
    }
}

/// Where a connection goes: one of the default public endpoints, or a
/// custom endpoint the caller resolves itself.
#[derive(Debug, Clone, Copy, PartialEq, Eq, Structural)]
pub enum Host {
    DefaultIpv6,
    DefaultIpv4,
    Custom,
}

/// Only connections to the default public endpoints are upgraded to
/// transport encryption; custom endpoints stay on the raw stream.
pub fn wants_encryption(host: &Host) -> (b: bool)
    ensures
        b == (*host is DefaultIpv4 || *host is DefaultIpv6),
{
    match host {
        Host::DefaultIpv4 => true,
        Host::DefaultIpv6 => true,
        Host::Custom => false,
    }
}

// ---------------------------------------------------------------------------
// the room-name list that ends the handshake
// ---------------------------------------------------------------------------

/// Ghost view of a list of room names.
pub open spec fn strings_view(ss: Seq<String>) -> Seq<Seq<char>> {
    Seq::new(ss.len(), |i: int| ss[i]@)
}

pub open spec fn enc_strs_items(ns: Seq<Seq<char>>) -> Seq<u8>
    decreases ns.len(),
{
    if ns.len() == 0 {
        Seq::empty()
    } else {
        enc_str(ns[0]) + enc_strs_items(ns.drop_first())
    }
}

/// The room-name list travels as a `u64` count followed by the names.
pub open spec fn enc_room_list(ns: Seq<Seq<char>>) -> Seq<u8> {
    enc_u64(ns.len() as u64) + enc_strs_items(ns)
}

pub open spec fn dec_strs_items(b: Seq<u8>, pos: int, n: int) -> Result<
    (Seq<Seq<char>>, int),
    DecodeError,
>
    decreases n,
{
    if n <= 0 {
        Ok((Seq::empty(), pos))
    } else {
        match dec_str(b, pos) {
            Ok((s, p)) => match dec_strs_items(b, p, n - 1) {
                Ok((rest, e)) => Ok((seq![s] + rest, e)),
                Err(e) => Err(e),
            },
            Err(e) => Err(e),
        }
    }
}

pub open spec fn dec_room_list(b: Seq<u8>, pos: int) -> Result<(Seq<Seq<char>>, int), DecodeError> {
    match dec_u64(b, pos) {
        Ok((n, p)) => dec_strs_items(b, p, n as int),
        Err(e) => Err(e),
    }
}

/// A successful name-list decode consumes at least eight bytes per name
/// and stays inside the buffer.
proof fn lemma_dec_strs_items_extent(b: Seq<u8>, pos: int, n: int)
    requires
        n >= 0,
        0 <= pos,
        dec_strs_items(b, pos, n) is Ok,
    ensures
        dec_strs_items(b, pos, n)->Ok_0.0.len() == n,
        dec_strs_items(b, pos, n)->Ok_0.1 >= pos + 8 * n,
        dec_strs_items(b, pos, n)->Ok_0.1 <= b.len() || n == 0,
        pos <= dec_strs_items(b, pos, n)->Ok_0.1 || n == 0,
    decreases n,
{
    if n > 0 {
        let (s, p) = dec_str(b, pos)->Ok_0;
        lemma_dec_strs_items_extent(b, p, n - 1);
    }
}

/// Encodes the room-name list canonically.
pub fn encode_room_list(names: &Vec<String>) -> (out: Vec<u8>)
    ensures
        out@ == enc_room_list(strings_view(names@)),
{
    let mut out: Vec<u8> = Vec::new();
    put_u64(&mut out, names.len() as u64);
    let ghost ns = strings_view(names@);
    let mut i: usize = 0;
    while i < names.len()
        invariant
            i <= names@.len(),
            ns == strings_view(names@),
            ns.len() == names@.len(),
            out@ == enc_u64(names@.len() as u64) + enc_strs_items(ns.take(i as int)),
        decreases names@.len() - i,
    {
        put_str(&mut out, names[i].as_str());
        proof {
            lemma_enc_strs_items_push(ns.take(i as int), ns[i as int]);
            assert(ns.take(i + 1) =~= ns.take(i as int).push(ns[i as int]));
            assert(out@ =~= enc_u64(names@.len() as u64) + enc_strs_items(ns.take(i + 1)));
        }
        i += 1;
    }
    proof {
        assert(ns.take(ns.len() as int) =~= ns);
    }
    out
}

fn read_strings(b: &Vec<u8>, pos: usize, n: u64) -> (r: Result<(Vec<String>, usize), DecodeError>)
    ensures
        r is Ok ==> dec_strs_items(b@, pos as int, n as int) == Ok::<
            (Seq<Seq<char>>, int),
            DecodeError,
        >((strings_view(r->Ok_0.0@), r->Ok_0.1 as int)),
        r is Err ==> dec_strs_items(b@, pos as int, n as int) == Err::<
            (Seq<Seq<char>>, int),
            DecodeError,
        >(r->Err_0),
    decreases n,
{
    if n == 0 {
        let v: Vec<String> = Vec::new();
        proof {
            assert(strings_view(v@) =~= Seq::<Seq<char>>::empty());
        }
        Ok((v, pos))
    } else {
        let (s, p) = match read_string(b, pos) {
            Ok(v) => v,
            Err(e) => {
                return Err(e);
            },
        };
        let (mut rest, end) = match read_strings(b, p, n - 1) {
            Ok(v) => v,
            Err(e) => {
                return Err(e);
            },
        };
        let ghost old_rest = rest@;
        proof {
            lemma_dec_strs_items_extent(b@, p as int, n - 1);
            assert(rest@.len() < usize::MAX);
        }
        rest.insert(0, s);
        proof {
            assert(strings_view(rest@) =~= seq![rest@[0]@] + strings_view(old_rest));
        }
        Ok((rest, end))
    }
}

/// Decodes the room-name list that ends the handshake.
pub fn decode_room_list(b: &Vec<u8>, pos: usize) -> (r: Result<(Vec<String>, usize), DecodeError>)
    ensures
        r is Ok ==> dec_room_list(b@, pos as int) == Ok::<(Seq<Seq<char>>, int), DecodeError>(
            (strings_view(r->Ok_0.0@), r->Ok_0.1 as int),
        ),
        r is Err ==> dec_room_list(b@, pos as int) == Err::<(Seq<Seq<char>>, int), DecodeError>(
            r->Err_0,
        ),
{
    let (n, p) = match read_u64(b, pos) {
        Ok(v) => v,
        Err(e) => {
            return Err(e);
        },
    };
    read_strings(b, p, n)
}

/// Appending one name to a list appends its encoding to the list's.
proof fn lemma_enc_strs_items_push(ns: Seq<Seq<char>>, s: Seq<char>)
    ensures
        enc_strs_items(ns.push(s)) == enc_strs_items(ns) + enc_str(s),
    decreases ns.len(),
{
    if ns.len() == 0 {
        assert(ns.push(s)[0] == s);
        assert(ns.push(s).drop_first() =~= Seq::<Seq<char>>::empty());
        assert(enc_strs_items(Seq::<Seq<char>>::empty()) == Seq::<u8>::empty());
        assert(enc_strs_items(ns.push(s)) == enc_str(s) + Seq::<u8>::empty());
        assert(enc_str(s) + Seq::<u8>::empty() =~= Seq::<u8>::empty() + enc_str(s));
    } else {
        assert(ns.push(s).drop_first() =~= ns.drop_first().push(s));
        assert(ns.push(s)[0] == ns[0]);
        lemma_enc_strs_items_push(ns.drop_first(), s);
        assert(enc_strs_items(ns.push(s)) == enc_str(ns[0]) + (enc_strs_items(ns.drop_first())
            + enc_str(s)));
        assert(enc_strs_items(ns) == enc_str(ns[0]) + enc_strs_items(ns.drop_first()));
        assert(enc_str(ns[0]) + (enc_strs_items(ns.drop_first()) + enc_str(s)) =~= (enc_str(
            ns[0],
        ) + enc_strs_items(ns.drop_first())) + enc_str(s));
    }
}

/// An encoded name list is at least eight bytes per name.
proof fn lemma_enc_strs_items_len(ns: Seq<Seq<char>>)
    ensures
        enc_strs_items(ns).len() >= 8 * ns.len(),
    decreases ns.len(),
{
    if ns.len() > 0 {
        lemma_enc_strs_items_len(ns.drop_first());
    }
}

/// Law: the room-list decoder inverts the encoder — an encoded list of
/// wire-valid names embedded at any position of a larger buffer decodes to
/// the same list, consuming exactly its encoding.
pub proof fn lemma_room_list_round_trip(b: Seq<u8>, pos: int, ns: Seq<Seq<char>>)
    requires
        forall|i: int| 0 <= i < ns.len() ==> encode_utf8(#[trigger] ns[i]).len() <= u64::MAX,
        ns.len() <= u64::MAX,
        0 <= pos,
        pos + enc_room_list(ns).len() <= b.len(),
        b.subrange(pos, pos + enc_room_list(ns).len()) == enc_room_list(ns),
    ensures
        dec_room_list(b, pos) == Ok::<(Seq<Seq<char>>, int), DecodeError>(
            (ns, pos + enc_room_list(ns).len()),
        ),
{
    let whole = enc_room_list(ns);
    let n = ns.len() as u64;
    let items = enc_strs_items(ns);
    assert(b.subrange(pos, pos + 8) =~= enc_u64(n)) by {
        assert forall|j: int| 0 <= j < 8 implies b[pos + j] == enc_u64(n)[j] by {
            assert(b[pos + j] == b.subrange(pos, pos + whole.len())[j]);
        }
    }
    lemma_u64_round_trip(b, pos, n);
    assert(b.subrange(pos + 8, pos + 8 + items.len()) =~= items) by {
        assert forall|j: int| 0 <= j < items.len() implies b[pos + 8 + j] == items[j] by {
            assert(b[pos + 8 + j] == b.subrange(pos, pos + whole.len())[8 + j]);
            assert(whole[8 + j] == items[j]);
        }
    }
    lemma_strs_items_round_trip(b, pos + 8, ns);
    assert(n as int == ns.len());
}

/// Decoding an encoded name list yields the list back.
proof fn lemma_strs_items_round_trip(b: Seq<u8>, pos: int, ns: Seq<Seq<char>>)
    requires
        forall|i: int| 0 <= i < ns.len() ==> encode_utf8(#[trigger] ns[i]).len() <= u64::MAX,
        0 <= pos,
        pos + enc_strs_items(ns).len() <= b.len(),
        b.subrange(pos, pos + enc_strs_items(ns).len()) == enc_strs_items(ns),
    ensures
        dec_strs_items(b, pos, ns.len() as int) == Ok::<(Seq<Seq<char>>, int), DecodeError>(
            (ns, pos + enc_strs_items(ns).len()),
        ),
    decreases ns.len(),
{
    if ns.len() == 0 {
        assert(ns =~= Seq::<Seq<char>>::empty());
    } else {
        let tail = ns.drop_first();
        assert forall|i: int| 0 <= i < tail.len() implies encode_utf8(#[trigger] tail[i]).len()
            <= u64::MAX by {
            assert(tail[i] == ns[i + 1]);
        }
        let whole = enc_strs_items(ns);
        let e1 = enc_str(ns[0]);
        assert(whole == e1 + enc_strs_items(tail));
        assert(b.subrange(pos, pos + e1.len()) =~= e1) by {
            assert forall|j: int| 0 <= j < e1.len() implies b[pos + j] == e1[j] by {
                assert(b[pos + j] == b.subrange(pos, pos + whole.len())[j]);
            }
        }
        lemma_str_round_trip(b, pos, ns[0]);
        assert(b.subrange(pos + e1.len(), pos + e1.len() + enc_strs_items(tail).len())
            =~= enc_strs_items(tail)) by {
            assert forall|j: int| 0 <= j < enc_strs_items(tail).len() implies b[pos + e1.len() + j]
                == enc_strs_items(tail)[j] by {
                assert(b[pos + e1.len() + j] == b.subrange(pos, pos + whole.len())[e1.len()
                    + j]);
                assert(whole[e1.len() + j] == enc_strs_items(tail)[j]);
            }
        }
        lemma_strs_items_round_trip(b, pos + e1.len(), tail);
        assert(seq![ns[0]] + tail =~= ns);
    }
}

} // verus!
