//! Canonical binary encoding of the wire protocol.
//!
//! Integers travel big-endian; variable-length payloads carry a `u64`
//! length prefix; a tagged union is one tag byte, counted in declaration
//! order, followed by its payload; a world is one nonzero byte. Every
//! message decoder rejects malformed or truncated input with a
//! distinguishable error instead of panicking, and decoding is proved to
//! be the exact inverse of encoding.
//!
//! The encoding of each construct is stated twice: a spec-level encoder
//! (`enc_*`) over sequences, and a total spec-level decoder (`dec_*`) from
//! a byte sequence and position. The executable functions are proved to
//! agree with the spec functions exactly, and the `*_round_trip` lemmas
//! prove that the spec decoder inverts the spec encoder.

use vstd::prelude::*;
use vstd::utf8::{encode_utf8, decode_utf8, valid_utf8};
use vstd::string::StrSliceExecFns;
use crate::Player;
use crate::proto::{
    LobbyClientMessage, LobbyClientMessageV, PlayerV, RoomClientMessage, RoomClientMessageV,
    ServerMessage, ServerMessageV, players_view,
};

verus! {

broadcast use vstd::array::group_array_axioms;

/// Why a decode failed: the input ended too early, or its bytes cannot be
/// the encoding of any message.
#[derive(Clone, Copy, Debug, PartialEq, Eq, Structural)]
pub enum DecodeError {
    Truncated,
    Malformed,
}

/// An executable decode result agrees with a spec-level one: same success,
/// same value, same next position.
pub open spec fn matches_dec<T>(
    r: Result<(T, usize), DecodeError>,
    s: Result<(T, int), DecodeError>,
) -> bool {
    match r {
        Ok((x, p)) => s == Ok::<(T, int), DecodeError>((x, p as int)),
        Err(e) => s == Err::<(T, int), DecodeError>(e),
    }
}

// ---------------------------------------------------------------------------
// integers, big-endian
// ---------------------------------------------------------------------------

pub open spec fn enc_u8(x: u8) -> Seq<u8> {
    seq![x]
}

pub open spec fn enc_u16(x: u16) -> Seq<u8> {
    seq![(x >> 8) as u8, x as u8]
}

pub open spec fn enc_u32(x: u32) -> Seq<u8> {
    seq![(x >> 24) as u8, (x >> 16) as u8, (x >> 8) as u8, x as u8]
}

pub open spec fn enc_u64(x: u64) -> Seq<u8> {
    seq![
        (x >> 56) as u8,
        (x >> 48) as u8,
        (x >> 40) as u8,
        (x >> 32) as u8,
        (x >> 24) as u8,
        (x >> 16) as u8,
        (x >> 8) as u8,
        x as u8,
    ]
}

pub open spec fn dec_u8(b: Seq<u8>, pos: int) -> Result<(u8, int), DecodeError> {
    if 0 <= pos && pos + 1 <= b.len() {
        Ok((b[pos], pos + 1))
    } else {
        Err(DecodeError::Truncated)
    }
}

pub open spec fn dec_u16(b: Seq<u8>, pos: int) -> Result<(u16, int), DecodeError> {
    if 0 <= pos && pos + 2 <= b.len() {
        Ok((((b[pos] as u16) << 8) | (b[pos + 1] as u16), pos + 2))
    } else {
        Err(DecodeError::Truncated)
    }
}

pub open spec fn dec_u32(b: Seq<u8>, pos: int) -> Result<(u32, int), DecodeError> {
    if 0 <= pos && pos + 4 <= b.len() {
        Ok(
            (
                ((b[pos] as u32) << 24) | ((b[pos + 1] as u32) << 16) | ((b[pos + 2] as u32) << 8)
                    | (b[pos + 3] as u32),
                pos + 4,
            ),
        )
    } else {
        Err(DecodeError::Truncated)
    }
}

pub open spec fn dec_u64(b: Seq<u8>, pos: int) -> Result<(u64, int), DecodeError> {
    if 0 <= pos && pos + 8 <= b.len() {
        Ok(
            (
                ((b[pos] as u64) << 56) | ((b[pos + 1] as u64) << 48) | ((b[pos + 2] as u64) << 40)
                    | ((b[pos + 3] as u64) << 32) | ((b[pos + 4] as u64) << 24) | ((b[pos
                    + 5] as u64) << 16) | ((b[pos + 6] as u64) << 8) | (b[pos + 7] as u64),
                pos + 8,
            ),
        )
    } else {
        Err(DecodeError::Truncated)
    }
}

/// Decoding the two bytes of an encoded `u16` yields the value back.
pub proof fn lemma_u16_round_trip(b: Seq<u8>, pos: int, x: u16)
    requires
        0 <= pos,
        pos + 2 <= b.len(),
        b.subrange(pos, pos + 2) == enc_u16(x),
    ensures
        dec_u16(b, pos) == Ok::<(u16, int), DecodeError>((x, pos + 2)),
{
    assert(b[pos] == enc_u16(x)[0]);
    assert(b[pos + 1] == enc_u16(x)[1]);
    assert(((((x >> 8) as u8) as u16) << 8) | ((x as u8) as u16) == x) by (bit_vector);
}

/// Decoding the four bytes of an encoded `u32` yields the value back.
pub proof fn lemma_u32_round_trip(b: Seq<u8>, pos: int, x: u32)
    requires
        0 <= pos,
        pos + 4 <= b.len(),
        b.subrange(pos, pos + 4) == enc_u32(x),
    ensures
        dec_u32(b, pos) == Ok::<(u32, int), DecodeError>((x, pos + 4)),
{
    assert(b[pos] == enc_u32(x)[0]);
    assert(b[pos + 1] == enc_u32(x)[1]);
    assert(b[pos + 2] == enc_u32(x)[2]);
    assert(b[pos + 3] == enc_u32(x)[3]);
    assert(((((x >> 24) as u8) as u32) << 24) | ((((x >> 16) as u8) as u32) << 16) | ((((x
        >> 8) as u8) as u32) << 8) | ((x as u8) as u32) == x) by (bit_vector);
}

/// Decoding the eight bytes of an encoded `u64` yields the value back.
pub proof fn lemma_u64_round_trip(b: Seq<u8>, pos: int, x: u64)
    requires
        0 <= pos,
        pos + 8 <= b.len(),
        b.subrange(pos, pos + 8) == enc_u64(x),
    ensures
        dec_u64(b, pos) == Ok::<(u64, int), DecodeError>((x, pos + 8)),
{
    assert(b[pos] == enc_u64(x)[0]);
    assert(b[pos + 1] == enc_u64(x)[1]);
    assert(b[pos + 2] == enc_u64(x)[2]);
    assert(b[pos + 3] == enc_u64(x)[3]);
    assert(b[pos + 4] == enc_u64(x)[4]);
    assert(b[pos + 5] == enc_u64(x)[5]);
    assert(b[pos + 6] == enc_u64(x)[6]);
    assert(b[pos + 7] == enc_u64(x)[7]);
    assert(((((x >> 56) as u8) as u64) << 56) | ((((x >> 48) as u8) as u64) << 48) | ((((x
        >> 40) as u8) as u64) << 40) | ((((x >> 32) as u8) as u64) << 32) | ((((x
        >> 24) as u8) as u64) << 24) | ((((x >> 16) as u8) as u64) << 16) | ((((x
        >> 8) as u8) as u64) << 8) | ((x as u8) as u64) == x) by (bit_vector);
}

pub fn put_u8(out: &mut Vec<u8>, x: u8)
    ensures
        final(out)@ == old(out)@ + enc_u8(x),
{
    out.push(x);
    proof {
        assert(out@ =~= old(out)@ + enc_u8(x));
    }
}

pub fn put_u16(out: &mut Vec<u8>, x: u16)
    ensures
        final(out)@ == old(out)@ + enc_u16(x),
{
    out.push(#[verifier::truncate] ((x >> 8) as u8));
    out.push(#[verifier::truncate] (x as u8));
    proof {
        assert(out@ =~= old(out)@ + enc_u16(x));
    }
}

pub fn put_u32(out: &mut Vec<u8>, x: u32)
    ensures
        final(out)@ == old(out)@ + enc_u32(x),
{
    out.push(#[verifier::truncate] ((x >> 24) as u8));
    out.push(#[verifier::truncate] ((x >> 16) as u8));
    out.push(#[verifier::truncate] ((x >> 8) as u8));
    out.push(#[verifier::truncate] (x as u8));
    proof {
        assert(out@ =~= old(out)@ + enc_u32(x));
    }
}

pub fn put_u64(out: &mut Vec<u8>, x: u64)
    ensures
        final(out)@ == old(out)@ + enc_u64(x),
{
    out.push(#[verifier::truncate] ((x >> 56) as u8));
    out.push(#[verifier::truncate] ((x >> 48) as u8));
    out.push(#[verifier::truncate] ((x >> 40) as u8));
    out.push(#[verifier::truncate] ((x >> 32) as u8));
    out.push(#[verifier::truncate] ((x >> 24) as u8));
    out.push(#[verifier::truncate] ((x >> 16) as u8));
    out.push(#[verifier::truncate] ((x >> 8) as u8));
    out.push(#[verifier::truncate] (x as u8));
    proof {
        assert(out@ =~= old(out)@ + enc_u64(x));
    }
}

pub fn read_u8(b: &Vec<u8>, pos: usize) -> (r: Result<(u8, usize), DecodeError>)
    ensures
        matches_dec(r, dec_u8(b@, pos as int)),
{
    if pos < b.len() {
        Ok((b[pos], pos + 1))
    } else {
        Err(DecodeError::Truncated)
    }
}

pub fn read_u16(b: &Vec<u8>, pos: usize) -> (r: Result<(u16, usize), DecodeError>)
    ensures
        matches_dec(r, dec_u16(b@, pos as int)),
{
    if b.len() >= 2 && pos <= b.len() - 2 {
        Ok((((b[pos] as u16) << 8) | (b[pos + 1] as u16), pos + 2))
    } else {
        Err(DecodeError::Truncated)
    }
}

pub fn read_u32(b: &Vec<u8>, pos: usize) -> (r: Result<(u32, usize), DecodeError>)
    ensures
        matches_dec(r, dec_u32(b@, pos as int)),
{
    if b.len() >= 4 && pos <= b.len() - 4 {
        Ok(
            (
                ((b[pos] as u32) << 24) | ((b[pos + 1] as u32) << 16) | ((b[pos + 2] as u32) << 8)
                    | (b[pos + 3] as u32),
                pos + 4,
            ),
        )
    } else {
        Err(DecodeError::Truncated)
    }
}

pub fn read_u64(b: &Vec<u8>, pos: usize) -> (r: Result<(u64, usize), DecodeError>)
    ensures
        matches_dec(r, dec_u64(b@, pos as int)),
{
    if b.len() >= 8 && pos <= b.len() - 8 {
        Ok(
            (
                ((b[pos] as u64) << 56) | ((b[pos + 1] as u64) << 48) | ((b[pos + 2] as u64) << 40)
                    | ((b[pos + 3] as u64) << 32) | ((b[pos + 4] as u64) << 24) | ((b[pos
                    + 5] as u64) << 16) | ((b[pos + 6] as u64) << 8) | (b[pos + 7] as u64),
                pos + 8,
            ),
        )
    } else {
        Err(DecodeError::Truncated)
    }
}

// ---------------------------------------------------------------------------
// strings: u64 byte-length prefix, then UTF-8
// ---------------------------------------------------------------------------

pub open spec fn enc_str(s: Seq<char>) -> Seq<u8> {
    enc_u64(encode_utf8(s).len() as u64) + encode_utf8(s)
}

pub open spec fn dec_str(b: Seq<u8>, pos: int) -> Result<(Seq<char>, int), DecodeError> {
    match dec_u64(b, pos) {
        Ok((n, p)) => if p + n <= b.len() {
            if valid_utf8(b.subrange(p, p + n)) {
                Ok((decode_utf8(b.subrange(p, p + n)), p + n))
            } else {
                Err(DecodeError::Malformed)
            }
        } else {
            Err(DecodeError::Truncated)
        },
        Err(e) => Err(e),
    }
}

/// Relies on `String::from_utf8`: it succeeds exactly on valid UTF-8 input,
/// and the returned string is the decoding of those bytes.
#[verifier::external_body]
fn vec_to_string(v: Vec<u8>) -> (r: Option<String>)
    ensures
        r is Some <==> valid_utf8(v@),
        r is Some ==> r->0@ == decode_utf8(v@),
{
    String::from_utf8(v).ok()
}

pub fn put_str(out: &mut Vec<u8>, s: &str)
    ensures
        final(out)@ == old(out)@ + enc_str(s@),
{
    let mut bytes = s.as_bytes_vec();
    put_u64(out, bytes.len() as u64);
    out.append(&mut bytes);
    proof {
        assert(out@ =~= old(out)@ + enc_str(s@));
    }
}

pub fn read_string(b: &Vec<u8>, pos: usize) -> (r: Result<(String, usize), DecodeError>)
    ensures
        r is Ok ==> dec_str(b@, pos as int) == Ok::<(Seq<char>, int), DecodeError>(
            (r->Ok_0.0@, r->Ok_0.1 as int),
        ),
        r is Ok ==> encode_utf8(r->Ok_0.0@).len() <= u64::MAX,
        r is Err ==> dec_str(b@, pos as int) == Err::<(Seq<char>, int), DecodeError>(r->Err_0),
{
    broadcast use vstd::utf8::decode_utf8_encode_utf8;

    let (n, p) = match read_u64(b, pos) {
        Ok(v) => v,
        Err(e) => {
            return Err(e);
        },
    };
    proof {
        assert(p as int == pos + 8 && p <= b@.len());
    }
    if n > (b.len() - p) as u64 {
        return Err(DecodeError::Truncated);
    }
    let len = n as usize;
    let mut bytes: Vec<u8> = Vec::new();
    let mut i: usize = 0;
    while i < len
        invariant
            i <= len,
            p + len <= b.len(),
            bytes@ == b@.subrange(p as int, p + i),
        decreases len - i,
    {
        bytes.push(b[p + i]);
        proof {
            assert(bytes@ =~= b@.subrange(p as int, p + i + 1));
        }
        i += 1;
    }
    match vec_to_string(bytes) {
        Some(s) => {
            proof {
                assert(encode_utf8(decode_utf8(bytes@)) == bytes@);
            }
            Ok((s, p + len))
        },
        None => Err(DecodeError::Malformed),
    }
}

/// Decoding an encoded string embedded in a larger buffer yields the
/// string back.
pub proof fn lemma_str_round_trip(b: Seq<u8>, pos: int, s: Seq<char>)
    requires
        0 <= pos,
        encode_utf8(s).len() <= u64::MAX,
        pos + enc_str(s).len() <= b.len(),
        b.subrange(pos, pos + enc_str(s).len()) == enc_str(s),
    ensures
        dec_str(b, pos) == Ok::<(Seq<char>, int), DecodeError>(
            (s, pos + enc_str(s).len()),
        ),
{
    broadcast use vstd::utf8::encode_utf8_valid_utf8, vstd::utf8::encode_utf8_decode_utf8;

    let u = encode_utf8(s);
    let n = u.len() as u64;
    assert(b.subrange(pos, pos + 8) =~= enc_u64(n));
    lemma_u64_round_trip(b, pos, n);
    assert(enc_str(s).len() == 8 + u.len());
    assert forall|j: int| 0 <= j < u.len() implies b[pos + 8 + j] == u[j] by {
        assert(b.subrange(pos, pos + enc_str(s).len())[8 + j] == b[pos + 8 + j]);
        assert(enc_str(s)[8 + j] == u[j]);
    }
    assert(b.subrange(pos + 8, pos + 8 + u.len()) =~= u);
    assert(valid_utf8(u));
    assert(decode_utf8(u) == s);
}

// ---------------------------------------------------------------------------
// eight raw name bytes
// ---------------------------------------------------------------------------

pub open spec fn dec_name(b: Seq<u8>, pos: int) -> Result<(Seq<u8>, int), DecodeError> {
    if 0 <= pos && pos + 8 <= b.len() {
        Ok((b.subrange(pos, pos + 8), pos + 8))
    } else {
        Err(DecodeError::Truncated)
    }
}

pub fn put_name(out: &mut Vec<u8>, name: &[u8; 8])
    ensures
        final(out)@ == old(out)@ + name@,
{
    let mut i: usize = 0;
    while i < 8
        invariant
            i <= 8,
            out@ == old(out)@ + name@.take(i as int),
        decreases 8 - i,
    {
        out.push(name[i]);
        proof {
            assert(out@ =~= old(out)@ + name@.take(i + 1));
        }
        i += 1;
    }
    proof {
        assert(out@ =~= old(out)@ + name@);
    }
}

// ---------------------------------------------------------------------------
// a world: one nonzero byte
// ---------------------------------------------------------------------------

pub open spec fn dec_world(b: Seq<u8>, pos: int) -> Result<(u8, int), DecodeError> {
    match dec_u8(b, pos) {
        Ok((w, p)) => if w == 0 {
            Err(DecodeError::Malformed)
        } else {
            Ok((w, p))
        },
        Err(e) => Err(e),
    }
}

pub fn read_world(b: &Vec<u8>, pos: usize) -> (r: Result<(u8, usize), DecodeError>)
    ensures
        matches_dec(r, dec_world(b@, pos as int)),
        r is Ok ==> r->Ok_0.0 != 0,
{
    match read_u8(b, pos) {
        Ok((w, p)) => if w == 0 {
            Err(DecodeError::Malformed)
        } else {
            Ok((w, p))
        },
        Err(e) => Err(e),
    }
}

pub fn read_name(b: &Vec<u8>, pos: usize) -> (r: Result<([u8; 8], usize), DecodeError>)
    ensures
        r is Ok ==> dec_name(b@, pos as int) == Ok::<(Seq<u8>, int), DecodeError>(
            (r->Ok_0.0@, r->Ok_0.1 as int),
        ),
        r is Err ==> dec_name(b@, pos as int) == Err::<(Seq<u8>, int), DecodeError>(r->Err_0),
{
    if b.len() >= 8 && pos <= b.len() - 8 {
        let mut name: [u8; 8] = [0; 8];
        let mut i: usize = 0;
        while i < 8
            invariant
                i <= 8,
                pos + 8 <= b.len(),
                forall|j: int| 0 <= j < i ==> name@[j] == b@[pos + j],
            decreases 8 - i,
        {
            name[i] = b[pos + i];
            i += 1;
        }
        proof {
            assert(name@ =~= b@.subrange(pos as int, pos + 8));
        }
        Ok((name, pos + 8))
    } else {
        Err(DecodeError::Truncated)
    }
}

// ---------------------------------------------------------------------------
// players and player lists
// ---------------------------------------------------------------------------

pub open spec fn enc_player(p: PlayerV) -> Seq<u8> {
    seq![p.world] + p.name
}

pub open spec fn dec_player(b: Seq<u8>, pos: int) -> Result<(PlayerV, int), DecodeError> {
    match dec_world(b, pos) {
        Ok((w, p)) => match dec_name(b, p) {
            Ok((nm, p2)) => Ok((PlayerV { world: w, name: nm }, p2)),
            Err(e) => Err(e),
        },
        Err(e) => Err(e),
    }
}

pub fn read_player(b: &Vec<u8>, pos: usize) -> (r: Result<(Player, usize), DecodeError>)
    ensures
        r is Ok ==> dec_player(b@, pos as int) == Ok::<(PlayerV, int), DecodeError>(
            (r->Ok_0.0@, r->Ok_0.1 as int),
        ) && r->Ok_0.0@.wf(),
        r is Err ==> dec_player(b@, pos as int) == Err::<(PlayerV, int), DecodeError>(r->Err_0),
{
    let (w, p) = match read_world(b, pos) {
        Ok(v) => v,
        Err(e) => {
            return Err(e);
        },
    };
    let (name, p2) = match read_name(b, p) {
        Ok(v) => v,
        Err(e) => {
            return Err(e);
        },
    };
    Ok((Player { world: w, name }, p2))
}

pub open spec fn enc_players_items(ps: Seq<PlayerV>) -> Seq<u8>
    decreases ps.len(),
{
    if ps.len() == 0 {
        Seq::empty()
    } else {
        enc_player(ps[0]) + enc_players_items(ps.drop_first())
    }
}

pub open spec fn dec_players_items(b: Seq<u8>, pos: int, n: int) -> Result<
    (Seq<PlayerV>, int),
    DecodeError,
>
    decreases n,
{
    if n <= 0 {
        Ok((Seq::empty(), pos))
    } else {
        match dec_player(b, pos) {
            Ok((pv, p)) => match dec_players_items(b, p, n - 1) {
                Ok((rest, e)) => Ok((seq![pv] + rest, e)),
                Err(e) => Err(e),
            },
            Err(e) => Err(e),
        }
    }
}

/// A successful player-list decode of `n` entries consumes exactly nine
/// bytes per entry and stays inside the buffer.
proof fn lemma_dec_players_items_extent(b: Seq<u8>, pos: int, n: int)
    requires
        n >= 0,
        dec_players_items(b, pos, n) is Ok,
    ensures
        dec_players_items(b, pos, n)->Ok_0.0.len() == n,
        dec_players_items(b, pos, n)->Ok_0.1 == pos + 9 * n,
        n > 0 ==> pos + 9 * n <= b.len(),
    decreases n,
{
    if n > 0 {
        let (pv, p) = dec_player(b, pos)->Ok_0;
        lemma_dec_players_items_extent(b, p, n - 1);
    }
}

/// A successful kind-list decode of `n` entries consumes exactly two bytes
/// per entry and stays inside the buffer.
pub proof fn lemma_dec_u16s_items_extent(b: Seq<u8>, pos: int, n: int)
    requires
        n >= 0,
        dec_u16s_items(b, pos, n) is Ok,
    ensures
        dec_u16s_items(b, pos, n)->Ok_0.0.len() == n,
        dec_u16s_items(b, pos, n)->Ok_0.1 == pos + 2 * n,
        n > 0 ==> pos + 2 * n <= b.len(),
    decreases n,
{
    if n > 0 {
        let (x, p) = dec_u16(b, pos)->Ok_0;
        lemma_dec_u16s_items_extent(b, p, n - 1);
    }
}

fn read_players(b: &Vec<u8>, pos: usize, n: u64) -> (r: Result<(Vec<Player>, usize), DecodeError>)
    ensures
        r is Ok ==> dec_players_items(b@, pos as int, n as int) == Ok::<
            (Seq<PlayerV>, int),
            DecodeError,
        >((players_view(r->Ok_0.0@), r->Ok_0.1 as int)),
        r is Ok ==> forall|i: int|
            0 <= i < r->Ok_0.0@.len() ==> (#[trigger] players_view(r->Ok_0.0@)[i]).wf(),
        r is Err ==> dec_players_items(b@, pos as int, n as int) == Err::<
            (Seq<PlayerV>, int),
            DecodeError,
        >(r->Err_0),
    decreases n,
{
    if n == 0 {
        let ps: Vec<Player> = Vec::new();
        proof {
            assert(players_view(ps@) =~= Seq::<PlayerV>::empty());
        }
        Ok((ps, pos))
    } else {
        let (pl, p) = match read_player(b, pos) {
            Ok(v) => v,
            Err(e) => {
                return Err(e);
            },
        };
        let (mut rest, end) = match read_players(b, p, n - 1) {
            Ok(v) => v,
            Err(e) => {
                return Err(e);
            },
        };
        let ghost old_rest = rest@;
        proof {
            lemma_dec_players_items_extent(b@, p as int, n - 1);
            assert(rest@.len() < usize::MAX);
        }
        rest.insert(0, pl);
        proof {
            assert(players_view(rest@) =~= seq![pl@] + players_view(old_rest));
        }
        Ok((rest, end))
    }
}

// ---------------------------------------------------------------------------
// item-kind lists
// ---------------------------------------------------------------------------

pub open spec fn enc_u16s_items(v: Seq<u16>) -> Seq<u8>
    decreases v.len(),
{
    if v.len() == 0 {
        Seq::empty()
    } else {
        enc_u16(v[0]) + enc_u16s_items(v.drop_first())
    }
}

pub open spec fn dec_u16s_items(b: Seq<u8>, pos: int, n: int) -> Result<
    (Seq<u16>, int),
    DecodeError,
>
    decreases n,
{
    if n <= 0 {
        Ok((Seq::empty(), pos))
    } else {
        match dec_u16(b, pos) {
            Ok((x, p)) => match dec_u16s_items(b, p, n - 1) {
                Ok((rest, e)) => Ok((seq![x] + rest, e)),
                Err(e) => Err(e),
            },
            Err(e) => Err(e),
        }
    }
}

pub fn read_u16s(b: &Vec<u8>, pos: usize, n: u64) -> (r: Result<(Vec<u16>, usize), DecodeError>)
    ensures
        r is Ok ==> dec_u16s_items(b@, pos as int, n as int) == Ok::<(Seq<u16>, int), DecodeError>(
            (r->Ok_0.0@, r->Ok_0.1 as int),
        ),
        r is Err ==> dec_u16s_items(b@, pos as int, n as int) == Err::<
            (Seq<u16>, int),
            DecodeError,
        >(r->Err_0),
    decreases n,
{
    if n == 0 {
        let v: Vec<u16> = Vec::new();
        proof {
            assert(v@ =~= Seq::<u16>::empty());
        }
        Ok((v, pos))
    } else {
        let (x, p) = match read_u16(b, pos) {
            Ok(v) => v,
            Err(e) => {
                return Err(e);
            },
        };
        let (mut rest, end) = match read_u16s(b, p, n - 1) {
            Ok(v) => v,
            Err(e) => {
                return Err(e);
            },
        };
        let ghost old_rest = rest@;
        proof {
            lemma_dec_u16s_items_extent(b@, p as int, n - 1);
            assert(rest@.len() < usize::MAX);
        }
        rest.insert(0, x);
        proof {
            assert(rest@ =~= seq![x] + old_rest);
        }
        Ok((rest, end))
    }
}

// ---------------------------------------------------------------------------
// lobby client messages
// ---------------------------------------------------------------------------

pub open spec fn enc_lobby(m: LobbyClientMessageV) -> Seq<u8> {
    match m {
        LobbyClientMessageV::JoinRoom { name, password } => seq![0u8] + enc_str(name) + enc_str(
            password,
        ),
        LobbyClientMessageV::CreateRoom { name, password } => seq![1u8] + enc_str(name) + enc_str(
            password,
        ),
        LobbyClientMessageV::Encrypt => seq![2u8],
    }
}

pub open spec fn dec_lobby(b: Seq<u8>, pos: int) -> Result<
    (LobbyClientMessageV, int),
    DecodeError,
> {
    match dec_u8(b, pos) {
        Ok((tag, p)) => if tag == 0 || tag == 1 {
            match dec_str(b, p) {
                Ok((name, p2)) => match dec_str(b, p2) {
                    Ok((password, p3)) => if tag == 0 {
                        Ok((LobbyClientMessageV::JoinRoom { name, password }, p3))
                    } else {
                        Ok((LobbyClientMessageV::CreateRoom { name, password }, p3))
                    },
                    Err(e) => Err(e),
                },
                Err(e) => Err(e),
            }
        } else if tag == 2 {
            Ok((LobbyClientMessageV::Encrypt, p))
        } else {
            Err(DecodeError::Malformed)
        },
        Err(e) => Err(e),
    }
}

/// Encodes a lobby client message canonically.
pub fn encode_lobby_client_message(m: &LobbyClientMessage) -> (out: Vec<u8>)
    ensures
        out@ == enc_lobby(m@),
{
    let mut out: Vec<u8> = Vec::new();
    match m {
        LobbyClientMessage::JoinRoom { name, password } => {
            put_u8(&mut out, 0);
            put_str(&mut out, name.as_str());
            put_str(&mut out, password.as_str());
        },
        LobbyClientMessage::CreateRoom { name, password } => {
            put_u8(&mut out, 1);
            put_str(&mut out, name.as_str());
            put_str(&mut out, password.as_str());
        },
        LobbyClientMessage::Encrypt => {
            put_u8(&mut out, 2);
        },
    }
    proof {
        assert(out@ =~= enc_lobby(m@));
    }
    out
}

/// Decodes one lobby client message starting at `pos`, returning it with
/// the position of the first byte after it.
pub fn decode_lobby_client_message(b: &Vec<u8>, pos: usize) -> (r: Result<
    (LobbyClientMessage, usize),
    DecodeError,
>)
    ensures
        r is Ok ==> dec_lobby(b@, pos as int) == Ok::<(LobbyClientMessageV, int), DecodeError>(
            (r->Ok_0.0@, r->Ok_0.1 as int),
        ) && r->Ok_0.0@.wf(),
        r is Err ==> dec_lobby(b@, pos as int) == Err::<(LobbyClientMessageV, int), DecodeError>(
            r->Err_0,
        ),
{
    let (tag, p) = match read_u8(b, pos) {
        Ok(v) => v,
        Err(e) => {
            return Err(e);
        },
    };
    if tag == 0 || tag == 1 {
        let (name, p2) = match read_string(b, p) {
            Ok(v) => v,
            Err(e) => {
                return Err(e);
            },
        };
        let (password, p3) = match read_string(b, p2) {
            Ok(v) => v,
            Err(e) => {
                return Err(e);
            },
        };
        if tag == 0 {
            Ok((LobbyClientMessage::JoinRoom { name, password }, p3))
        } else {
            Ok((LobbyClientMessage::CreateRoom { name, password }, p3))
        }
    } else if tag == 2 {
        Ok((LobbyClientMessage::Encrypt, p))
    } else {
        Err(DecodeError::Malformed)
    }
}

// ---------------------------------------------------------------------------
// room client messages
// ---------------------------------------------------------------------------

pub open spec fn enc_room_client(m: RoomClientMessageV) -> Seq<u8> {
    match m {
        RoomClientMessageV::PlayerId(w) => seq![0u8, w],
        RoomClientMessageV::ResetPlayerId => seq![1u8],
        RoomClientMessageV::PlayerName(name) => seq![2u8] + name,
        RoomClientMessageV::SendItem { key, kind, target_world } => seq![3u8] + enc_u32(key)
            + enc_u16(kind) + seq![target_world],
    }
}

pub open spec fn dec_room_client(b: Seq<u8>, pos: int) -> Result<
    (RoomClientMessageV, int),
    DecodeError,
> {
    match dec_u8(b, pos) {
        Ok((tag, p)) => if tag == 0 {
            match dec_world(b, p) {
                Ok((w, p2)) => Ok((RoomClientMessageV::PlayerId(w), p2)),
                Err(e) => Err(e),
            }
        } else if tag == 1 {
            Ok((RoomClientMessageV::ResetPlayerId, p))
        } else if tag == 2 {
            match dec_name(b, p) {
                Ok((name, p2)) => Ok((RoomClientMessageV::PlayerName(name), p2)),
                Err(e) => Err(e),
            }
        } else if tag == 3 {
            match dec_u32(b, p) {
                Ok((key, p2)) => match dec_u16(b, p2) {
                    Ok((kind, p3)) => match dec_world(b, p3) {
                        Ok((target_world, p4)) => Ok(
                            (RoomClientMessageV::SendItem { key, kind, target_world }, p4),
                        ),
                        Err(e) => Err(e),
                    },
                    Err(e) => Err(e),
                },
                Err(e) => Err(e),
            }
        } else {
            Err(DecodeError::Malformed)
        },
        Err(e) => Err(e),
    }
}

/// Encodes a room client message canonically.
pub fn encode_room_client_message(m: &RoomClientMessage) -> (out: Vec<u8>)
    ensures
        out@ == enc_room_client(m@),
{
    let mut out: Vec<u8> = Vec::new();
    match m {
        RoomClientMessage::PlayerId(w) => {
            put_u8(&mut out, 0);
            put_u8(&mut out, *w);
        },
        RoomClientMessage::ResetPlayerId => {
            put_u8(&mut out, 1);
        },
        RoomClientMessage::PlayerName(name) => {
            put_u8(&mut out, 2);
            put_name(&mut out, name);
        },
        RoomClientMessage::SendItem { key, kind, target_world } => {
            put_u8(&mut out, 3);
            put_u32(&mut out, *key);
            put_u16(&mut out, *kind);
            put_u8(&mut out, *target_world);
        },
    }
    proof {
        assert(out@ =~= enc_room_client(m@));
    }
    out
}

/// Decodes one room client message starting at `pos`.
pub fn decode_room_client_message(b: &Vec<u8>, pos: usize) -> (r: Result<
    (RoomClientMessage, usize),
    DecodeError,
>)
    ensures
        r is Ok ==> dec_room_client(b@, pos as int) == Ok::<
            (RoomClientMessageV, int),
            DecodeError,
        >((r->Ok_0.0@, r->Ok_0.1 as int)) && r->Ok_0.0@.wf(),
        r is Err ==> dec_room_client(b@, pos as int) == Err::<
            (RoomClientMessageV, int),
            DecodeError,
        >(r->Err_0),
{
    let (tag, p) = match read_u8(b, pos) {
        Ok(v) => v,
        Err(e) => {
            return Err(e);
        },
    };
    if tag == 0 {
        match read_world(b, p) {
            Ok((w, p2)) => Ok((RoomClientMessage::PlayerId(w), p2)),
            Err(e) => Err(e),
        }
    } else if tag == 1 {
        Ok((RoomClientMessage::ResetPlayerId, p))
    } else if tag == 2 {
        match read_name(b, p) {
            Ok((name, p2)) => Ok((RoomClientMessage::PlayerName(name), p2)),
            Err(e) => Err(e),
        }
    } else if tag == 3 {
        let (key, p2) = match read_u32(b, p) {
            Ok(v) => v,
            Err(e) => {
                return Err(e);
            },
        };
        let (kind, p3) = match read_u16(b, p2) {
            Ok(v) => v,
            Err(e) => {
                return Err(e);
            },
        };
        let (target_world, p4) = match read_world(b, p3) {
            Ok(v) => v,
            Err(e) => {
                return Err(e);
            },
        };
        Ok((RoomClientMessage::SendItem { key, kind, target_world }, p4))
    } else {
        Err(DecodeError::Malformed)
    }
}

// ---------------------------------------------------------------------------
// server messages
// ---------------------------------------------------------------------------

pub open spec fn enc_server(m: ServerMessageV) -> Seq<u8> {
    match m {
        ServerMessageV::Error(text) => seq![0u8] + enc_str(text),
        ServerMessageV::EnterRoom { players, num_unassigned_clients } => seq![1u8] + enc_u64(
            players.len() as u64,
        ) + enc_players_items(players) + seq![num_unassigned_clients],
        ServerMessageV::PlayerId(w) => seq![2u8, w],
        ServerMessageV::ResetPlayerId(w) => seq![3u8, w],
        ServerMessageV::ClientConnected => seq![4u8],
        ServerMessageV::PlayerDisconnected(w) => seq![5u8, w],
        ServerMessageV::UnregisteredClientDisconnected => seq![6u8],
        ServerMessageV::PlayerName(w, name) => seq![7u8, w] + name,
        ServerMessageV::ItemQueue(kinds) => seq![8u8] + enc_u64(kinds.len() as u64)
            + enc_u16s_items(kinds),
        ServerMessageV::GetItem(kind) => seq![9u8] + enc_u16(kind),
    }
}

pub open spec fn dec_server(b: Seq<u8>, pos: int) -> Result<(ServerMessageV, int), DecodeError> {
    match dec_u8(b, pos) {
        Ok((tag, p)) => if tag == 0 {
            match dec_str(b, p) {
                Ok((text, p2)) => Ok((ServerMessageV::Error(text), p2)),
                Err(e) => Err(e),
            }
        } else if tag == 1 {
            match dec_u64(b, p) {
                Ok((n, p2)) => match dec_players_items(b, p2, n as int) {
                    Ok((players, p3)) => match dec_u8(b, p3) {
                        Ok((num, p4)) => Ok(
                            (
                                ServerMessageV::EnterRoom {
                                    players,
                                    num_unassigned_clients: num,
                                },
                                p4,
                            ),
                        ),
                        Err(e) => Err(e),
                    },
                    Err(e) => Err(e),
                },
                Err(e) => Err(e),
            }
        } else if tag == 2 {
            match dec_world(b, p) {
                Ok((w, p2)) => Ok((ServerMessageV::PlayerId(w), p2)),
                Err(e) => Err(e),
            }
        } else if tag == 3 {
            match dec_world(b, p) {
                Ok((w, p2)) => Ok((ServerMessageV::ResetPlayerId(w), p2)),
                Err(e) => Err(e),
            }
        } else if tag == 4 {
            Ok((ServerMessageV::ClientConnected, p))
        } else if tag == 5 {
            match dec_world(b, p) {
                Ok((w, p2)) => Ok((ServerMessageV::PlayerDisconnected(w), p2)),
                Err(e) => Err(e),
            }
        } else if tag == 6 {
            Ok((ServerMessageV::UnregisteredClientDisconnected, p))
        } else if tag == 7 {
            match dec_world(b, p) {
                Ok((w, p2)) => match dec_name(b, p2) {
                    Ok((name, p3)) => Ok((ServerMessageV::PlayerName(w, name), p3)),
                    Err(e) => Err(e),
                },
                Err(e) => Err(e),
            }
        } else if tag == 8 {
            match dec_u64(b, p) {
                Ok((n, p2)) => match dec_u16s_items(b, p2, n as int) {
                    Ok((kinds, p3)) => Ok((ServerMessageV::ItemQueue(kinds), p3)),
                    Err(e) => Err(e),
                },
                Err(e) => Err(e),
            }
        } else if tag == 9 {
            match dec_u16(b, p) {
                Ok((kind, p2)) => Ok((ServerMessageV::GetItem(kind), p2)),
                Err(e) => Err(e),
            }
        } else {
            Err(DecodeError::Malformed)
        },
        Err(e) => Err(e),
    }
}

/// Encodes a server message canonically.
pub fn encode_server_message(m: &ServerMessage) -> (out: Vec<u8>)
    ensures
        out@ == enc_server(m@),
{
    let mut out: Vec<u8> = Vec::new();
    match m {
        ServerMessage::Error(text) => {
            put_u8(&mut out, 0);
            put_str(&mut out, text.as_str());
        },
        ServerMessage::EnterRoom { players, num_unassigned_clients } => {
            put_u8(&mut out, 1);
            put_u64(&mut out, players.len() as u64);
            let ghost pvs = players_view(players@);
            let mut i: usize = 0;
            while i < players.len()
                invariant
                    i <= players@.len(),
                    pvs == players_view(players@),
                    pvs.len() == players@.len(),
                    out@ == seq![1u8] + enc_u64(players@.len() as u64) + enc_players_items(
                        pvs.take(i as int),
                    ),
                decreases players@.len() - i,
            {
                let pl = &players[i];
                put_u8(&mut out, pl.world);
                put_name(&mut out, &pl.name);
                proof {
                    lemma_enc_players_items_push(pvs.take(i as int), pvs[i as int]);
                    assert(pvs.take(i + 1) =~= pvs.take(i as int).push(pvs[i as int]));
                    assert(enc_player(pvs[i as int]) =~= seq![players@[i as int].world]
                        + players@[i as int].name@);
                    assert(out@ =~= seq![1u8] + enc_u64(players@.len() as u64)
                        + enc_players_items(pvs.take(i + 1)));
                }
                i += 1;
            }
            put_u8(&mut out, *num_unassigned_clients);
            proof {
                assert(pvs.take(pvs.len() as int) =~= pvs);
            }
        },
        ServerMessage::PlayerId(w) => {
            put_u8(&mut out, 2);
            put_u8(&mut out, *w);
        },
        ServerMessage::ResetPlayerId(w) => {
            put_u8(&mut out, 3);
            put_u8(&mut out, *w);
        },
        ServerMessage::ClientConnected => {
            put_u8(&mut out, 4);
        },
        ServerMessage::PlayerDisconnected(w) => {
            put_u8(&mut out, 5);
            put_u8(&mut out, *w);
        },
        ServerMessage::UnregisteredClientDisconnected => {
            put_u8(&mut out, 6);
        },
        ServerMessage::PlayerName(w, name) => {
            put_u8(&mut out, 7);
            put_u8(&mut out, *w);
            put_name(&mut out, name);
        },
        ServerMessage::ItemQueue(kinds) => {
            put_u8(&mut out, 8);
            put_u64(&mut out, kinds.len() as u64);
            let mut i: usize = 0;
            while i < kinds.len()
                invariant
                    i <= kinds@.len(),
                    out@ == seq![8u8] + enc_u64(kinds@.len() as u64) + enc_u16s_items(
                        kinds@.take(i as int),
                    ),
                decreases kinds@.len() - i,
            {
                put_u16(&mut out, kinds[i]);
                proof {
                    lemma_enc_u16s_items_push(kinds@.take(i as int), kinds@[i as int]);
                    assert(kinds@.take(i + 1) =~= kinds@.take(i as int).push(kinds@[i as int]));
                    assert(out@ =~= seq![8u8] + enc_u64(kinds@.len() as u64) + enc_u16s_items(
                        kinds@.take(i + 1),
                    ));
                }
                i += 1;
            }
            proof {
                assert(kinds@.take(kinds@.len() as int) =~= kinds@);
            }
        },
        ServerMessage::GetItem(kind) => {
            put_u8(&mut out, 9);
            put_u16(&mut out, *kind);
        },
    }
    proof {
        assert(out@ =~= enc_server(m@));
    }
    out
}

/// Decodes one server message starting at `pos`.
pub fn decode_server_message(b: &Vec<u8>, pos: usize) -> (r: Result<
    (ServerMessage, usize),
    DecodeError,
>)
    ensures
        r is Ok ==> dec_server(b@, pos as int) == Ok::<(ServerMessageV, int), DecodeError>(
            (r->Ok_0.0@, r->Ok_0.1 as int),
        ) && r->Ok_0.0@.wf(),
        r is Err ==> dec_server(b@, pos as int) == Err::<(ServerMessageV, int), DecodeError>(
            r->Err_0,
        ),
{
    let (tag, p) = match read_u8(b, pos) {
        Ok(v) => v,
        Err(e) => {
            return Err(e);
        },
    };
    if tag == 0 {
        match read_string(b, p) {
            Ok((text, p2)) => Ok((ServerMessage::Error(text), p2)),
            Err(e) => Err(e),
        }
    } else if tag == 1 {
        let (n, p2) = match read_u64(b, p) {
            Ok(v) => v,
            Err(e) => {
                return Err(e);
            },
        };
        let (players, p3) = match read_players(b, p2, n) {
            Ok(v) => v,
            Err(e) => {
                return Err(e);
            },
        };
        let (num, p4) = match read_u8(b, p3) {
            Ok(v) => v,
            Err(e) => {
                return Err(e);
            },
        };
        proof {
            lemma_dec_players_items_extent(b@, p2 as int, n as int);
        }
        Ok((ServerMessage::EnterRoom { players, num_unassigned_clients: num }, p4))
    } else if tag == 2 {
        match read_world(b, p) {
            Ok((w, p2)) => Ok((ServerMessage::PlayerId(w), p2)),
            Err(e) => Err(e),
        }
    } else if tag == 3 {
        match read_world(b, p) {
            Ok((w, p2)) => Ok((ServerMessage::ResetPlayerId(w), p2)),
            Err(e) => Err(e),
        }
    } else if tag == 4 {
        Ok((ServerMessage::ClientConnected, p))
    } else if tag == 5 {
        match read_world(b, p) {
            Ok((w, p2)) => Ok((ServerMessage::PlayerDisconnected(w), p2)),
            Err(e) => Err(e),
        }
    } else if tag == 6 {
        Ok((ServerMessage::UnregisteredClientDisconnected, p))
    } else if tag == 7 {
        let (w, p2) = match read_world(b, p) {
            Ok(v) => v,
            Err(e) => {
                return Err(e);
            },
        };
        let (name, p3) = match read_name(b, p2) {
            Ok(v) => v,
            Err(e) => {
                return Err(e);
            },
        };
        Ok((ServerMessage::PlayerName(w, name), p3))
    } else if tag == 8 {
        let (n, p2) = match read_u64(b, p) {
            Ok(v) => v,
            Err(e) => {
                return Err(e);
            },
        };
        let (kinds, p3) = match read_u16s(b, p2, n) {
            Ok(v) => v,
            Err(e) => {
                return Err(e);
            },
        };
        proof {
            lemma_dec_u16s_items_extent(b@, p2 as int, n as int);
        }
        Ok((ServerMessage::ItemQueue(kinds), p3))
    } else if tag == 9 {
        match read_u16(b, p) {
            Ok((kind, p2)) => Ok((ServerMessage::GetItem(kind), p2)),
            Err(e) => Err(e),
        }
    } else {
        Err(DecodeError::Malformed)
    }
}

// ---------------------------------------------------------------------------
// round trip: decoding inverts encoding
// ---------------------------------------------------------------------------

/// An encoded player list is nine bytes per player.
proof fn lemma_enc_players_items_len(ps: Seq<PlayerV>)
    requires
        forall|i: int| 0 <= i < ps.len() ==> (#[trigger] ps[i]).wf(),
    ensures
        enc_players_items(ps).len() == 9 * ps.len(),
    decreases ps.len(),
{
    if ps.len() > 0 {
        assert forall|i: int| 0 <= i < ps.drop_first().len() implies (
        #[trigger] ps.drop_first()[i]).wf() by {
            assert(ps.drop_first()[i] == ps[i + 1]);
        }
        lemma_enc_players_items_len(ps.drop_first());
        assert(ps[0].wf());
    }
}

/// An encoded kind list is two bytes per kind.
pub proof fn lemma_enc_u16s_items_len(v: Seq<u16>)
    ensures
        enc_u16s_items(v).len() == 2 * v.len(),
    decreases v.len(),
{
    if v.len() > 0 {
        lemma_enc_u16s_items_len(v.drop_first());
    }
}

/// Decoding the nine bytes of an encoded player yields the player back.
proof fn lemma_player_round_trip(b: Seq<u8>, pos: int, pv: PlayerV)
    requires
        pv.wf(),
        0 <= pos,
        pos + 9 <= b.len(),
        b.subrange(pos, pos + 9) == enc_player(pv),
    ensures
        dec_player(b, pos) == Ok::<(PlayerV, int), DecodeError>((pv, pos + 9)),
{
    assert(b[pos] == enc_player(pv)[0]);
    assert(b.subrange(pos + 1, pos + 9) =~= pv.name) by {
        assert forall|j: int| 0 <= j < 8 implies b[pos + 1 + j] == pv.name[j] by {
            assert(b[pos + 1 + j] == b.subrange(pos, pos + 9)[1 + j]);
            assert(enc_player(pv)[1 + j] == pv.name[j]);
        }
    }
}

/// Decoding an encoded player list yields the list back.
proof fn lemma_players_items_round_trip(b: Seq<u8>, pos: int, ps: Seq<PlayerV>)
    requires
        forall|i: int| 0 <= i < ps.len() ==> (#[trigger] ps[i]).wf(),
        0 <= pos,
        pos + 9 * ps.len() <= b.len(),
        b.subrange(pos, pos + 9 * ps.len()) == enc_players_items(ps),
    ensures
        dec_players_items(b, pos, ps.len() as int) == Ok::<(Seq<PlayerV>, int), DecodeError>(
            (ps, pos + 9 * ps.len()),
        ),
    decreases ps.len(),
{
    if ps.len() == 0 {
        assert(ps =~= Seq::<PlayerV>::empty());
    } else {
        let tail = ps.drop_first();
        assert(ps[0].wf());
        assert forall|i: int| 0 <= i < tail.len() implies (#[trigger] tail[i]).wf() by {
            assert(tail[i] == ps[i + 1]);
        }
        lemma_enc_players_items_len(tail);
        let whole = enc_players_items(ps);
        assert(whole == enc_player(ps[0]) + enc_players_items(tail));
        assert(enc_player(ps[0]).len() == 9);
        assert(b.subrange(pos, pos + 9) =~= enc_player(ps[0])) by {
            assert forall|j: int| 0 <= j < 9 implies b[pos + j] == enc_player(ps[0])[j] by {
                assert(b[pos + j] == b.subrange(pos, pos + 9 * ps.len())[j]);
            }
        }
        lemma_player_round_trip(b, pos, ps[0]);
        assert(b.subrange(pos + 9, pos + 9 + 9 * tail.len()) =~= enc_players_items(tail)) by {
            assert forall|j: int| 0 <= j < 9 * tail.len() implies b[pos + 9 + j]
                == enc_players_items(tail)[j] by {
                assert(b[pos + 9 + j] == b.subrange(pos, pos + 9 * ps.len())[9 + j]);
                assert(whole[9 + j] == enc_players_items(tail)[j]);
            }
        }
        lemma_players_items_round_trip(b, pos + 9, tail);
        assert(seq![ps[0]] + tail =~= ps);
    }
}

/// Decoding an encoded kind list yields the list back.
pub proof fn lemma_u16s_items_round_trip(b: Seq<u8>, pos: int, v: Seq<u16>)
    requires
        0 <= pos,
        pos + 2 * v.len() <= b.len(),
        b.subrange(pos, pos + 2 * v.len()) == enc_u16s_items(v),
    ensures
        dec_u16s_items(b, pos, v.len() as int) == Ok::<(Seq<u16>, int), DecodeError>(
            (v, pos + 2 * v.len()),
        ),
    decreases v.len(),
{
    if v.len() == 0 {
        assert(v =~= Seq::<u16>::empty());
    } else {
        let tail = v.drop_first();
        lemma_enc_u16s_items_len(tail);
        let whole = enc_u16s_items(v);
        assert(whole == enc_u16(v[0]) + enc_u16s_items(tail));
        assert(b.subrange(pos, pos + 2) =~= enc_u16(v[0])) by {
            assert forall|j: int| 0 <= j < 2 implies b[pos + j] == enc_u16(v[0])[j] by {
                assert(b[pos + j] == b.subrange(pos, pos + 2 * v.len())[j]);
            }
        }
        lemma_u16_round_trip(b, pos, v[0]);
        assert(b.subrange(pos + 2, pos + 2 + 2 * tail.len()) =~= enc_u16s_items(tail)) by {
            assert forall|j: int| 0 <= j < 2 * tail.len() implies b[pos + 2 + j]
                == enc_u16s_items(tail)[j] by {
                assert(b[pos + 2 + j] == b.subrange(pos, pos + 2 * v.len())[2 + j]);
                assert(whole[2 + j] == enc_u16s_items(tail)[j]);
            }
        }
        lemma_u16s_items_round_trip(b, pos + 2, tail);
        assert(seq![v[0]] + tail =~= v);
    }
}

/// Law: the lobby-message decoder inverts the encoder — an encoded
/// wire-valid message embedded at any position of a larger buffer decodes
/// to the same message, consuming exactly its encoding.
pub proof fn lemma_lobby_round_trip(b: Seq<u8>, pos: int, m: LobbyClientMessageV)
    requires
        m.wf(),
        0 <= pos,
        pos + enc_lobby(m).len() <= b.len(),
        b.subrange(pos, pos + enc_lobby(m).len()) == enc_lobby(m),
    ensures
        dec_lobby(b, pos) == Ok::<(LobbyClientMessageV, int), DecodeError>(
            (m, pos + enc_lobby(m).len()),
        ),
{
    let whole = enc_lobby(m);
    assert(b[pos] == whole[0]);
    match m {
        LobbyClientMessageV::JoinRoom { name, password } | LobbyClientMessageV::CreateRoom {
            name,
            password,
        } => {
            let e1 = enc_str(name);
            let e2 = enc_str(password);
            assert(whole == seq![whole[0]] + e1 + e2);
            assert(b.subrange(pos + 1, pos + 1 + e1.len()) =~= e1) by {
                assert forall|j: int| 0 <= j < e1.len() implies b[pos + 1 + j] == e1[j] by {
                    assert(b[pos + 1 + j] == b.subrange(pos, pos + whole.len())[1 + j]);
                    assert(whole[1 + j] == e1[j]);
                }
            }
            lemma_str_round_trip(b, pos + 1, name);
            assert(b.subrange(pos + 1 + e1.len(), pos + 1 + e1.len() + e2.len()) =~= e2) by {
                assert forall|j: int| 0 <= j < e2.len() implies b[pos + 1 + e1.len() + j]
                    == e2[j] by {
                    assert(b[pos + 1 + e1.len() + j] == b.subrange(pos, pos + whole.len())[1
                        + e1.len() + j]);
                    assert(whole[1 + e1.len() + j] == e2[j]);
                }
            }
            lemma_str_round_trip(b, pos + 1 + e1.len(), password);
        },
        LobbyClientMessageV::Encrypt => {},
    }
}

/// Law: the room-client-message decoder inverts the encoder.
pub proof fn lemma_room_client_round_trip(b: Seq<u8>, pos: int, m: RoomClientMessageV)
    requires
        m.wf(),
        0 <= pos,
        pos + enc_room_client(m).len() <= b.len(),
        b.subrange(pos, pos + enc_room_client(m).len()) == enc_room_client(m),
    ensures
        dec_room_client(b, pos) == Ok::<(RoomClientMessageV, int), DecodeError>(
            (m, pos + enc_room_client(m).len()),
        ),
{
    let whole = enc_room_client(m);
    assert(b[pos] == whole[0]);
    match m {
        RoomClientMessageV::PlayerId(w) => {
            assert(b[pos + 1] == whole[1]);
        },
        RoomClientMessageV::ResetPlayerId => {},
        RoomClientMessageV::PlayerName(name) => {
            assert(b.subrange(pos + 1, pos + 9) =~= name) by {
                assert forall|j: int| 0 <= j < 8 implies b[pos + 1 + j] == name[j] by {
                    assert(b[pos + 1 + j] == b.subrange(pos, pos + whole.len())[1 + j]);
                    assert(whole[1 + j] == name[j]);
                }
            }
        },
        RoomClientMessageV::SendItem { key, kind, target_world } => {
            assert(whole == seq![3u8] + enc_u32(key) + enc_u16(kind) + seq![target_world]);
            assert(b.subrange(pos + 1, pos + 5) =~= enc_u32(key)) by {
                assert forall|j: int| 0 <= j < 4 implies b[pos + 1 + j] == enc_u32(key)[j] by {
                    assert(b[pos + 1 + j] == b.subrange(pos, pos + whole.len())[1 + j]);
                    assert(whole[1 + j] == enc_u32(key)[j]);
                }
            }
            lemma_u32_round_trip(b, pos + 1, key);
            assert(b.subrange(pos + 5, pos + 7) =~= enc_u16(kind)) by {
                assert forall|j: int| 0 <= j < 2 implies b[pos + 5 + j] == enc_u16(kind)[j] by {
                    assert(b[pos + 5 + j] == b.subrange(pos, pos + whole.len())[5 + j]);
                    assert(whole[5 + j] == enc_u16(kind)[j]);
                }
            }
            lemma_u16_round_trip(b, pos + 5, kind);
            assert(b[pos + 7] == whole[7]);
        },
    }
}

/// Law: the server-message decoder inverts the encoder.
pub proof fn lemma_server_round_trip(b: Seq<u8>, pos: int, m: ServerMessageV)
    requires
        m.wf(),
        0 <= pos,
        pos + enc_server(m).len() <= b.len(),
        b.subrange(pos, pos + enc_server(m).len()) == enc_server(m),
    ensures
        dec_server(b, pos) == Ok::<(ServerMessageV, int), DecodeError>(
            (m, pos + enc_server(m).len()),
        ),
{
    let whole = enc_server(m);
    assert(b[pos] == whole[0]);
    match m {
        ServerMessageV::Error(text) => {
            let e1 = enc_str(text);
            assert(whole == seq![0u8] + e1);
            assert(b.subrange(pos + 1, pos + 1 + e1.len()) =~= e1) by {
                assert forall|j: int| 0 <= j < e1.len() implies b[pos + 1 + j] == e1[j] by {
                    assert(b[pos + 1 + j] == b.subrange(pos, pos + whole.len())[1 + j]);
                    assert(whole[1 + j] == e1[j]);
                }
            }
            lemma_str_round_trip(b, pos + 1, text);
        },
        ServerMessageV::EnterRoom { players, num_unassigned_clients } => {
            let n = players.len() as u64;
            let items = enc_players_items(players);
            lemma_enc_players_items_len(players);
            assert(whole == seq![1u8] + enc_u64(n) + items + seq![num_unassigned_clients]);
            assert(b.subrange(pos + 1, pos + 9) =~= enc_u64(n)) by {
                assert forall|j: int| 0 <= j < 8 implies b[pos + 1 + j] == enc_u64(n)[j] by {
                    assert(b[pos + 1 + j] == b.subrange(pos, pos + whole.len())[1 + j]);
                    assert(whole[1 + j] == enc_u64(n)[j]);
                }
            }
            lemma_u64_round_trip(b, pos + 1, n);
            assert(b.subrange(pos + 9, pos + 9 + items.len()) =~= items) by {
                assert forall|j: int| 0 <= j < items.len() implies b[pos + 9 + j] == items[j] by {
                    assert(b[pos + 9 + j] == b.subrange(pos, pos + whole.len())[9 + j]);
                    assert(whole[9 + j] == items[j]);
                }
            }
            lemma_players_items_round_trip(b, pos + 9, players);
            assert(n as int == players.len());
            assert(b[pos + 9 + items.len()] == whole[9 + items.len() as int]);
            assert(whole[9 + items.len() as int] == num_unassigned_clients);
        },
        ServerMessageV::PlayerId(w) => {
            assert(b[pos + 1] == whole[1]);
        },
        ServerMessageV::ResetPlayerId(w) => {
            assert(b[pos + 1] == whole[1]);
        },
        ServerMessageV::ClientConnected => {},
        ServerMessageV::PlayerDisconnected(w) => {
            assert(b[pos + 1] == whole[1]);
        },
        ServerMessageV::UnregisteredClientDisconnected => {},
        ServerMessageV::PlayerName(w, name) => {
            assert(whole == seq![7u8, w] + name);
            assert(b[pos + 1] == whole[1]);
            assert(b.subrange(pos + 2, pos + 10) =~= name) by {
                assert forall|j: int| 0 <= j < 8 implies b[pos + 2 + j] == name[j] by {
                    assert(b[pos + 2 + j] == b.subrange(pos, pos + whole.len())[2 + j]);
                    assert(whole[2 + j] == name[j]);
                }
            }
        },
        ServerMessageV::ItemQueue(kinds) => {
            let n = kinds.len() as u64;
            let items = enc_u16s_items(kinds);
            lemma_enc_u16s_items_len(kinds);
            assert(whole == seq![8u8] + enc_u64(n) + items);
            assert(b.subrange(pos + 1, pos + 9) =~= enc_u64(n)) by {
                assert forall|j: int| 0 <= j < 8 implies b[pos + 1 + j] == enc_u64(n)[j] by {
                    assert(b[pos + 1 + j] == b.subrange(pos, pos + whole.len())[1 + j]);
                    assert(whole[1 + j] == enc_u64(n)[j]);
                }
            }
            lemma_u64_round_trip(b, pos + 1, n);
            assert(b.subrange(pos + 9, pos + 9 + items.len()) =~= items) by {
                assert forall|j: int| 0 <= j < items.len() implies b[pos + 9 + j] == items[j] by {
                    assert(b[pos + 9 + j] == b.subrange(pos, pos + whole.len())[9 + j]);
                    assert(whole[9 + j] == items[j]);
                }
            }
            lemma_u16s_items_round_trip(b, pos + 9, kinds);
            assert(n as int == kinds.len());
        },
        ServerMessageV::GetItem(kind) => {
            assert(b.subrange(pos + 1, pos + 3) =~= enc_u16(kind)) by {
                assert forall|j: int| 0 <= j < 2 implies b[pos + 1 + j] == enc_u16(kind)[j] by {
                    assert(b[pos + 1 + j] == b.subrange(pos, pos + whole.len())[1 + j]);
                    assert(whole[1 + j] == enc_u16(kind)[j]);
                }
            }
            lemma_u16_round_trip(b, pos + 1, kind);
        },
    }
}

/// Appending one player to a list appends its encoding to the list's.
proof fn lemma_enc_players_items_push(ps: Seq<PlayerV>, p: PlayerV)
    ensures
        enc_players_items(ps.push(p)) == enc_players_items(ps) + enc_player(p),
    decreases ps.len(),
{
    if ps.len() == 0 {
        assert(ps.push(p)[0] == p);
        assert(ps.push(p).drop_first() =~= Seq::<PlayerV>::empty());
        assert(enc_players_items(Seq::<PlayerV>::empty()) == Seq::<u8>::empty());
        assert(enc_players_items(ps.push(p)) == enc_player(p) + Seq::<u8>::empty());
        assert(enc_player(p) + Seq::<u8>::empty() =~= Seq::<u8>::empty() + enc_player(p));
    } else {
        assert(ps.push(p).drop_first() =~= ps.drop_first().push(p));
        assert(ps.push(p)[0] == ps[0]);
        lemma_enc_players_items_push(ps.drop_first(), p);
        assert(enc_players_items(ps.push(p)) == enc_player(ps[0]) + (enc_players_items(
            ps.drop_first(),
        ) + enc_player(p)));
        assert(enc_players_items(ps) == enc_player(ps[0]) + enc_players_items(ps.drop_first()));
        assert(enc_player(ps[0]) + (enc_players_items(ps.drop_first()) + enc_player(p)) =~= (
        enc_player(ps[0]) + enc_players_items(ps.drop_first())) + enc_player(p));
    }
}

/// Appending one kind to a list appends its encoding to the list's.
pub proof fn lemma_enc_u16s_items_push(v: Seq<u16>, x: u16)
    ensures
        enc_u16s_items(v.push(x)) == enc_u16s_items(v) + enc_u16(x),
    decreases v.len(),
{
    if v.len() == 0 {
        assert(v.push(x)[0] == x);
        assert(v.push(x).drop_first() =~= Seq::<u16>::empty());
        assert(enc_u16s_items(Seq::<u16>::empty()) == Seq::<u8>::empty());
        assert(enc_u16s_items(v.push(x)) == enc_u16(x) + Seq::<u8>::empty());
        assert(enc_u16(x) + Seq::<u8>::empty() =~= Seq::<u8>::empty() + enc_u16(x));
    } else {
        assert(v.push(x).drop_first() =~= v.drop_first().push(x));
        assert(v.push(x)[0] == v[0]);
        lemma_enc_u16s_items_push(v.drop_first(), x);
        assert(enc_u16s_items(v.push(x)) == enc_u16(v[0]) + (enc_u16s_items(v.drop_first())
            + enc_u16(x)));
        assert(enc_u16s_items(v) == enc_u16(v[0]) + enc_u16s_items(v.drop_first()));
        assert(enc_u16(v[0]) + (enc_u16s_items(v.drop_first()) + enc_u16(x)) =~= (enc_u16(v[0])
            + enc_u16s_items(v.drop_first())) + enc_u16(x));
    }
}

} // verus!
