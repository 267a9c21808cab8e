//! App-layer filesync packets (opaque pNet payloads).
//!
//! One datagram = one message. Stay under [`MAX_PAYLOAD`] (pNet caps at 4096;
//! ~1 KiB is the WAN-friendly budget, 2 KiB chunks are a compromise that
//! still fits the envelope). Reliability (ACK + retry) is in `sync`.

use vstd::prelude::*;
use vstd::slice::slice_subrange;
use vstd::utf8::*;

use crate::codec;
use crate::store;
use crate::store::FileRec;
use crate::store::RecView;
use crate::text;

verus! {

pub const VER: u8 = 1;

pub const T_ACK: u8 = 0;

pub const T_HELLO: u8 = 1;

pub const T_INDEX: u8 = 2;

pub const T_WANT: u8 = 3;

pub const T_CHUNK: u8 = 4;

/// Bytes of file data per CHUNK (plus hash/offset headers).
pub const CHUNK_SIZE: usize = 2048;

/// Keep encoded packets under pNet `MAX_APP_PAYLOAD` (4096).
pub const MAX_PAYLOAD: usize = 3500;

/// Version, type and message id.
pub const HEADER_LEN: usize = 10;

/// Bytes of an INDEX body before its records: generation, part, number of parts.
pub const INDEX_HEADER_LEN: usize = 12;

/// Bytes of records that one INDEX packet has room for.
pub const INDEX_ROOM: usize = 3478;

/// Bytes of a CHUNK body before its data: hash, total size, offset.
pub const CHUNK_HEADER_LEN: usize = 48;

/// Bytes of an index record before its path.
pub const RECORD_HEADER_LEN: usize = 51;

/// Bytes of the longest path whose record fits into an INDEX packet.
pub const LONGEST_PATH: usize = 3427;

/// One message.
#[derive(Debug, PartialEq, Eq)]
pub struct Packet {
    pub typ: u8,
    pub msg_id: u64,
    pub body: Vec<u8>,
}

/// What a message says.
#[verifier::ext_equal]
pub struct PacketView {
    pub typ: u8,
    pub msg_id: u64,
    pub body: Seq<u8>,
}

impl View for Packet {
    type V = PacketView;

    open spec fn view(&self) -> PacketView {
        PacketView { typ: self.typ, msg_id: self.msg_id, body: self.body@ }
    }
}

impl Clone for Packet {
    fn clone(&self) -> (p: Self)
        ensures
            p@ == self@,
    {
        Packet {
            typ: self.typ,
            msg_id: self.msg_id,
            body: codec::tail_vec(self.body.as_slice(), 0),
        }
    }
}

/// A message on the wire.
pub open spec fn encoded(p: PacketView) -> Seq<u8> {
    seq![VER, p.typ] + codec::be_bytes(p.msg_id as nat, 8) + p.body
}

/// The message that a datagram holds: of this version, with a whole header.
pub open spec fn decoded(buf: Seq<u8>) -> Option<PacketView> {
    if buf.len() >= HEADER_LEN && buf[0] == VER {
        Some(
            PacketView {
                typ: buf[1],
                msg_id: codec::be_value(buf.subrange(2, 10)) as u64,
                body: buf.skip(10),
            },
        )
    } else {
        None
    }
}

pub fn encode(p: &Packet) -> (o: Vec<u8>)
    ensures
        o@ == encoded(p@),
{
    let mut o: Vec<u8> = Vec::new();
    o.push(VER);
    o.push(p.typ);
    assert(o@ =~= seq![VER, p.typ]);
    codec::push_be(&mut o, p.msg_id, 8);
    codec::push_bytes(&mut o, p.body.as_slice());
    o
}

pub fn decode(buf: &[u8]) -> (r: Option<Packet>)
    ensures
        match r {
            Some(p) => decoded(buf@) == Some(p@),
            None => decoded(buf@) is None,
        },
{
    if buf.len() < HEADER_LEN {
        return None;
    }
    if buf[0] != VER {
        return None;
    }
    let msg_id: u64 = codec::read_be(buf, 2, 8);
    Some(Packet { typ: buf[1], msg_id, body: codec::tail_vec(buf, 10) })
}

/// Decoding what was encoded gives the message back.
pub proof fn packet_round_trip(p: PacketView)
    ensures
        decoded(encoded(p)) == Some(p),
{
    codec::lemma_be_u64(p.msg_id);
    let e = encoded(p);
    assert(e.subrange(2, 10) =~= codec::be_bytes(p.msg_id as nat, 8));
    assert(e.skip(10) =~= p.body);
}

/// A datagram that decodes is the encoding of what it decodes to: no two
/// datagrams hold the same message.
pub proof fn decoded_is_canonical(buf: Seq<u8>)
    ensures
        decoded(buf) matches Some(p) ==> encoded(p) == buf,
{
    if decoded(buf) is Some {
        let id = buf.subrange(2, 10);
        codec::lemma_be_value_bound(id);
        codec::lemma_pow256_values();
        codec::lemma_be_bytes_of_value(id);
        assert(encoded(decoded(buf)->0) =~= buf);
    }
}

/// The body of an ACK names the message that it confirms.
pub open spec fn ack_of(body: Seq<u8>) -> Option<u64> {
    if body.len() == 8 {
        Some(codec::be_value(body) as u64)
    } else {
        None
    }
}

pub fn ack(acked: u64) -> (p: Packet)
    ensures
        p@ == (PacketView { typ: T_ACK, msg_id: 0, body: codec::be_bytes(acked as nat, 8) }),
{
    let mut body: Vec<u8> = Vec::new();
    codec::push_be(&mut body, acked, 8);
    assert(body@ =~= codec::be_bytes(acked as nat, 8));
    Packet { typ: T_ACK, msg_id: 0, body }
}

pub fn parse_ack(body: &[u8]) -> (r: Option<u64>)
    ensures
        r == ack_of(body@),
{
    if body.len() != 8 {
        return None;
    }
    assert(body@.subrange(0, 8) =~= body@);
    Some(codec::read_be(body, 0, 8))
}

/// The body of a HELLO: replica id and index generation.
pub open spec fn hello_body(replica: Seq<u8>, gen: u64) -> Seq<u8> {
    replica + codec::be_bytes(gen as nat, 8)
}

/// What the body of a HELLO says.
pub open spec fn hello_of(body: Seq<u8>) -> Option<(Seq<u8>, u64)> {
    if body.len() == 24 {
        Some((body.take(16), codec::be_value(body.skip(16)) as u64))
    } else {
        None
    }
}

/// A HELLO; the sender fills in the message id.
pub fn hello(replica: &[u8; 16], gen: u64) -> (p: Packet)
    ensures
        p@ == (PacketView { typ: T_HELLO, msg_id: 0, body: hello_body(replica@, gen) }),
{
    let mut body: Vec<u8> = Vec::new();
    codec::push_bytes(&mut body, replica.as_slice());
    codec::push_be(&mut body, gen, 8);
    assert(body@ =~= hello_body(replica@, gen));
    Packet { typ: T_HELLO, msg_id: 0, body }
}

pub fn parse_hello(body: &[u8]) -> (r: Option<([u8; 16], u64)>)
    ensures
        match r {
            Some((replica, gen)) => hello_of(body@) == Some((replica@, gen)),
            None => hello_of(body@) is None,
        },
{
    if body.len() != 24 {
        return None;
    }
    let replica: [u8; 16] = codec::read_array::<16>(body, 0);
    let gen: u64 = codec::read_be(body, 16, 8);
    assert(body@.subrange(0, 16) =~= body@.take(16));
    assert(body@.subrange(16, 24) =~= body@.skip(16));
    Some((replica, gen))
}

/// The body of a WANT is the hash that it asks for.
pub open spec fn want_of(body: Seq<u8>) -> Option<Seq<u8>> {
    if body.len() == 32 {
        Some(body)
    } else {
        None
    }
}

pub fn want(hash: &[u8; 32]) -> (p: Packet)
    ensures
        p@ == (PacketView { typ: T_WANT, msg_id: 0, body: hash@ }),
{
    let mut body: Vec<u8> = Vec::new();
    codec::push_bytes(&mut body, hash.as_slice());
    assert(body@ =~= hash@);
    Packet { typ: T_WANT, msg_id: 0, body }
}

pub fn parse_want(body: &[u8]) -> (r: Option<[u8; 32]>)
    ensures
        match r {
            Some(h) => want_of(body@) == Some(h@),
            None => want_of(body@) is None,
        },
{
    if body.len() != 32 {
        return None;
    }
    assert(body@.subrange(0, 32) =~= body@);
    Some(codec::read_array::<32>(body, 0))
}

/// The body of a CHUNK: hash of the blob, its size, offset of the slice, the slice.
pub open spec fn chunk_body(hash: Seq<u8>, total: u64, offset: u64, data: Seq<u8>) -> Seq<u8> {
    hash + codec::be_bytes(total as nat, 8) + codec::be_bytes(offset as nat, 8) + data
}

/// What the body of a CHUNK says.
pub open spec fn chunk_of(body: Seq<u8>) -> Option<(Seq<u8>, u64, u64, Seq<u8>)> {
    if body.len() >= CHUNK_HEADER_LEN {
        Some(
            (
                body.take(32),
                codec::be_value(body.subrange(32, 40)) as u64,
                codec::be_value(body.subrange(40, 48)) as u64,
                body.skip(48),
            ),
        )
    } else {
        None
    }
}

pub fn chunk(hash: &[u8; 32], total: u64, offset: u64, data: &[u8]) -> (p: Packet)
    ensures
        p@ == (PacketView {
            typ: T_CHUNK,
            msg_id: 0,
            body: chunk_body(hash@, total, offset, data@),
        }),
{
    let mut body: Vec<u8> = Vec::new();
    codec::push_bytes(&mut body, hash.as_slice());
    codec::push_be(&mut body, total, 8);
    codec::push_be(&mut body, offset, 8);
    codec::push_bytes(&mut body, data);
    assert(body@ =~= chunk_body(hash@, total, offset, data@));
    Packet { typ: T_CHUNK, msg_id: 0, body }
}

pub fn parse_chunk(body: &[u8]) -> (r: Option<([u8; 32], u64, u64, &[u8])>)
    ensures
        match r {
            Some((hash, total, offset, data)) => chunk_of(body@) == Some(
                (hash@, total, offset, data@),
            ),
            None => chunk_of(body@) is None,
        },
{
    if body.len() < CHUNK_HEADER_LEN {
        return None;
    }
    let hash: [u8; 32] = codec::read_array::<32>(body, 0);
    let total: u64 = codec::read_be(body, 32, 8);
    let offset: u64 = codec::read_be(body, 40, 8);
    let data = slice_subrange(body, 48, body.len());
    assert(body@.subrange(0, 32) =~= body@.take(32));
    assert(body@.subrange(48, body@.len() as int) =~= body@.skip(48));
    Some((hash, total, offset, data))
}

/// The bodies of ACK, HELLO, WANT and CHUNK say what was put into them.
pub proof fn control_round_trip(
    acked: u64,
    replica: Seq<u8>,
    gen: u64,
    hash: Seq<u8>,
    total: u64,
    offset: u64,
    data: Seq<u8>,
)
    requires
        replica.len() == 16,
        hash.len() == 32,
    ensures
        ack_of(codec::be_bytes(acked as nat, 8)) == Some(acked),
        hello_of(hello_body(replica, gen)) == Some((replica, gen)),
        want_of(hash) == Some(hash),
        chunk_of(chunk_body(hash, total, offset, data)) == Some((hash, total, offset, data)),
{
    codec::lemma_be_u64(acked);
    codec::lemma_be_u64(gen);
    codec::lemma_be_u64(total);
    codec::lemma_be_u64(offset);
    let h = hello_body(replica, gen);
    assert(h.take(16) =~= replica);
    assert(h.skip(16) =~= codec::be_bytes(gen as nat, 8));
    let c = chunk_body(hash, total, offset, data);
    assert(c.take(32) =~= hash);
    assert(c.subrange(32, 40) =~= codec::be_bytes(total as nat, 8));
    assert(c.subrange(40, 48) =~= codec::be_bytes(offset as nat, 8));
    assert(c.skip(48) =~= data);
}

/// A slice of at most [`CHUNK_SIZE`] bytes makes a packet within [`MAX_PAYLOAD`].
pub proof fn chunk_packet_fits(
    msg_id: u64,
    hash: Seq<u8>,
    total: u64,
    offset: u64,
    data: Seq<u8>,
)
    requires
        hash.len() == 32,
        data.len() <= CHUNK_SIZE,
    ensures
        encoded(
            PacketView { typ: T_CHUNK, msg_id, body: chunk_body(hash, total, offset, data) },
        ).len() <= MAX_PAYLOAD,
{
    codec::lemma_be_u64(msg_id);
    codec::lemma_be_u64(total);
    codec::lemma_be_u64(offset);
}

/// A packet that confirms a message stays within [`MAX_PAYLOAD`].
pub proof fn ack_packet_fits(msg_id: u64, acked: u64)
    ensures
        encoded(
            PacketView { typ: T_ACK, msg_id, body: codec::be_bytes(acked as nat, 8) },
        ).len() <= MAX_PAYLOAD,
{
    codec::lemma_be_u64(msg_id);
    codec::lemma_be_u64(acked);
}

/// One record of the index on the wire.
pub open spec fn record_bytes(r: RecView) -> Seq<u8> {
    seq![
        if r.deleted {
            1u8
        } else {
            0u8
        },
    ] + codec::be_bytes(r.mtime as nat, 8) + codec::be_bytes(r.size as nat, 8) + r.hash
        + codec::be_bytes(encode_utf8(r.path).len(), 2) + encode_utf8(r.path)
}

/// The record at the front of a byte string, and how many bytes it takes.
pub open spec fn record_of(s: Seq<u8>) -> Option<(RecView, int)> {
    if s.len() < RECORD_HEADER_LEN {
        None
    } else {
        let end = RECORD_HEADER_LEN + codec::be_value(s.subrange(49, 51));
        let path = s.subrange(51, end);
        if end > s.len() || !valid_utf8(path) {
            None
        } else {
            Some(
                (
                    RecView {
                        path: decode_utf8(path),
                        size: codec::be_value(s.subrange(9, 17)) as u64,
                        mtime: codec::be_value(s.subrange(1, 9)) as u64,
                        hash: s.subrange(17, 49),
                        deleted: s[0] != 0,
                    },
                    end,
                ),
            )
        }
    }
}

/// Records one after the other.
pub open spec fn record_stream(recs: Seq<RecView>) -> Seq<u8>
    decreases recs.len(),
{
    if recs.len() == 0 {
        Seq::empty()
    } else {
        record_bytes(recs[0]) + record_stream(recs.drop_first())
    }
}

/// The records that a byte string holds from end to end.
pub open spec fn stream_records(s: Seq<u8>) -> Option<Seq<RecView>>
    decreases s.len(),
{
    if s.len() == 0 {
        Some(Seq::empty())
    } else {
        match record_of(s) {
            None => None,
            Some((r, end)) => match stream_records(s.skip(end)) {
                None => None,
                Some(rest) => Some(seq![r] + rest),
            },
        }
    }
}

/// One record of the index on the wire.
pub fn encode_record(r: &FileRec) -> (o: Vec<u8>)
    ensures
        o@ == record_bytes(r@),
{
    let path = r.path.as_str().as_bytes();
    let mut o: Vec<u8> = Vec::new();
    o.push(
        if r.deleted {
            1
        } else {
            0
        },
    );
    codec::push_be(&mut o, r.mtime, 8);
    codec::push_be(&mut o, r.size, 8);
    codec::push_bytes(&mut o, r.hash.as_slice());
    codec::push_be(&mut o, path.len() as u64, 2);
    codec::push_bytes(&mut o, path);
    assert(o@ =~= record_bytes(r@));
    o
}

/// Reads the record at `pos`, and moves `pos` behind it. Where there is none,
/// `pos` moves behind the fixed part of the record, if that is there.
pub fn decode_record(buf: &[u8], pos: &mut usize) -> (r: Option<FileRec>)
    ensures
        match r {
            Some(rec) => *old(pos) < *final(pos) <= buf@.len() && record_of(
                buf@.skip(*old(pos) as int),
            ) == Some((rec@, *final(pos) - *old(pos))),
            None => {
                &&& *old(pos) > buf@.len() || record_of(buf@.skip(*old(pos) as int)) is None
                &&& *final(pos) == if *old(pos) + RECORD_HEADER_LEN <= buf@.len() {
                    *old(pos) + RECORD_HEADER_LEN
                } else {
                    *old(pos) as int
                }
            },
        },
{
    let at: usize = *pos;
    let ghost s = buf@.skip(at as int);
    if at > buf.len() || buf.len() - at < RECORD_HEADER_LEN {
        return None;
    }
    let deleted = buf[at] != 0;
    let mtime: u64 = codec::read_be(buf, at + 1, 8);
    let size: u64 = codec::read_be(buf, at + 9, 8);
    let hash: [u8; 32] = codec::read_array::<32>(buf, at + 17);
    let wide: u64 = codec::read_be(buf, at + 49, 2);
    proof {
        codec::lemma_pow256_values();
        assert(buf@.subrange(at + 1, at + 9) =~= s.subrange(1, 9));
        assert(buf@.subrange(at + 9, at + 17) =~= s.subrange(9, 17));
        assert(buf@.subrange(at + 17, at + 49) =~= s.subrange(17, 49));
        assert(buf@.subrange(at + 49, at + 51) =~= s.subrange(49, 51));
    }
    let plen: usize = wide as usize;
    let start: usize = at + RECORD_HEADER_LEN;
    *pos = start;
    if buf.len() - start < plen {
        return None;
    }
    let next: usize = start + plen;
    assert(buf@.subrange(start as int, next as int) =~= s.subrange(51, 51 + plen));
    let path = match text::utf8_text(slice_subrange(buf, start, next)) {
        Some(p) => p.to_owned(),
        None => {
            return None;
        },
    };
    *pos = next;
    Some(FileRec { path, size, mtime, hash, deleted })
}

/// Appending a record appends its bytes.
proof fn lemma_stream_push(recs: Seq<RecView>, r: RecView)
    ensures
        record_stream(recs.push(r)) == record_stream(recs) + record_bytes(r),
    decreases recs.len(),
{
    if recs.len() == 0 {
        assert(recs.push(r).drop_first() =~= recs);
        assert(record_stream(recs.push(r)) =~= record_stream(recs) + record_bytes(r));
    } else {
        assert(recs.push(r).drop_first() =~= recs.drop_first().push(r));
        lemma_stream_push(recs.drop_first(), r);
        assert(record_stream(recs.push(r)) =~= record_stream(recs) + record_bytes(r));
    }
}

/// How many records from the front fit into `room` bytes.
pub open spec fn fitting(recs: Seq<RecView>, room: int) -> nat
    decreases recs.len(),
{
    if recs.len() == 0 || record_bytes(recs[0]).len() > room {
        0
    } else {
        1 + fitting(recs.drop_first(), room - record_bytes(recs[0]).len())
    }
}

/// How many records go into the first packet: as many as fit, and at least one.
pub open spec fn first_group(recs: Seq<RecView>) -> nat {
    if recs.len() == 0 {
        0
    } else {
        1 + fitting(recs.drop_first(), INDEX_ROOM - record_bytes(recs[0]).len())
    }
}

/// A packet takes no more records than there are.
pub proof fn lemma_fitting_len(recs: Seq<RecView>, room: int)
    ensures
        fitting(recs, room) <= recs.len(),
    decreases recs.len(),
{
    if recs.len() > 0 && record_bytes(recs[0]).len() <= room {
        lemma_fitting_len(recs.drop_first(), room - record_bytes(recs[0]).len());
    }
}

/// The records in groups, one group to a packet, in order.
pub open spec fn groups(recs: Seq<RecView>) -> Seq<Seq<RecView>>
    decreases recs.len(),
{
    if recs.len() == 0 {
        Seq::empty()
    } else {
        proof {
            lemma_fitting_len(recs.drop_first(), INDEX_ROOM - record_bytes(recs[0]).len());
        }
        let n = first_group(recs) as int;
        seq![recs.take(n)] + groups(recs.skip(n))
    }
}

/// The groups of an index: an empty index still makes one packet.
pub open spec fn index_parts(recs: Seq<RecView>) -> Seq<Seq<RecView>> {
    if recs.len() == 0 {
        seq![Seq::empty()]
    } else {
        groups(recs)
    }
}

/// The body of an INDEX packet.
pub open spec fn index_body(gen: u64, part: nat, parts: nat, recs: Seq<RecView>) -> Seq<u8> {
    codec::be_bytes(gen as nat, 8) + codec::be_bytes(part, 2) + codec::be_bytes(parts, 2)
        + record_stream(recs)
}

/// The bodies of the INDEX packets that carry an index.
pub open spec fn index_bodies(gen: u64, recs: Seq<RecView>) -> Seq<Seq<u8>> {
    let parts = index_parts(recs);
    Seq::new(parts.len(), |i: int| index_body(gen, i as nat, parts.len(), parts[i]))
}

/// What the body of an INDEX packet says: generation, part, number of parts,
/// records.
pub open spec fn index_of(body: Seq<u8>) -> Option<(u64, u16, u16, Seq<RecView>)> {
    if body.len() < INDEX_HEADER_LEN {
        None
    } else {
        match stream_records(body.skip(12)) {
            None => None,
            Some(recs) => Some(
                (
                    codec::be_value(body.take(8)) as u64,
                    codec::be_value(body.subrange(8, 10)) as u16,
                    codec::be_value(body.subrange(10, 12)) as u16,
                    recs,
                ),
            ),
        }
    }
}

/// The contents of a list of byte vectors.
pub open spec fn byte_views(v: Seq<Vec<u8>>) -> Seq<Seq<u8>> {
    Seq::new(v.len(), |i: int| v[i]@)
}

/// The record bytes of each group.
pub open spec fn group_streams(parts: Seq<Seq<RecView>>) -> Seq<Seq<u8>> {
    Seq::new(parts.len(), |i: int| record_stream(parts[i]))
}

/// Packs records, in order, into runs of bytes, each filled as far as the room of
/// a packet allows.
fn pack_records(recs: &[FileRec]) -> (runs: Vec<Vec<u8>>)
    ensures
        byte_views(runs@) == group_streams(groups(store::rec_views(recs@))),
{
    let ghost all = store::rec_views(recs@);
    let mut runs: Vec<Vec<u8>> = Vec::new();
    let mut at: usize = 0;
    let ghost mut done: Seq<Seq<RecView>> = Seq::empty();
    proof {
        assert(all.skip(0) =~= all);
        assert(done + groups(all) =~= groups(all));
    }
    while at < recs.len()
        invariant
            at <= recs@.len(),
            all == store::rec_views(recs@),
            byte_views(runs@) == group_streams(done),
            done + groups(all.skip(at as int)) == groups(all),
        decreases recs@.len() - at,
    {
        let ghost rest = all.skip(at as int);
        let start: usize = at;
        let mut run = encode_record(&recs[at]);
        at += 1;
        proof {
            assert(rest[0] == recs@[start as int]@);
            assert(rest.take(1) =~= seq![rest[0]]);
            assert(record_stream(rest.take(1).drop_first()) =~= Seq::<u8>::empty());
            assert(record_stream(rest.take(1)) =~= record_bytes(rest[0]));
            assert(rest.drop_first() =~= rest.skip(1));
        }
        let mut more = true;
        while more && at < recs.len()
            invariant
                start < at <= recs@.len(),
                all == store::rec_views(recs@),
                rest == all.skip(start as int),
                run@ == record_stream(rest.take(at - start)),
                more ==> at - start + fitting(rest.skip(at - start), INDEX_ROOM - run@.len())
                    == first_group(rest),
                !more ==> at - start == first_group(rest),
            decreases
                recs@.len() - at,
                if more {
                    1int
                } else {
                    0int
                },
        {
            let e = encode_record(&recs[at]);
            let ghost k = at - start;
            let ghost left = rest.skip(k);
            proof {
                assert(left[0] == recs@[at as int]@);
                assert(left.drop_first() =~= rest.skip(k + 1));
                assert(rest.take(k + 1) =~= rest.take(k).push(rest[k]));
                lemma_stream_push(rest.take(k), rest[k]);
            }
            if e.len() > INDEX_ROOM || run.len() > INDEX_ROOM - e.len() {
                more = false;
            } else {
                codec::push_bytes(&mut run, e.as_slice());
                at += 1;
            }
        }
        proof {
            let n = first_group(rest) as int;
            if more {
                assert(rest.skip(at - start) =~= Seq::empty());
            }
            assert(n == at - start);
            assert(groups(rest) == seq![rest.take(n)] + groups(rest.skip(n)));
            assert(rest.skip(n) =~= all.skip(at as int));
            let grown = done.push(rest.take(n));
            assert(grown + groups(all.skip(at as int)) =~= done + groups(rest));
            assert(group_streams(grown) =~= group_streams(done).push(run@));
            done = grown;
        }
        let ghost before = byte_views(runs@);
        let ghost last = run@;
        runs.push(run);
        assert(byte_views(runs@) =~= before.push(last));
    }
    assert(all.skip(at as int) =~= Seq::empty());
    assert(done =~= groups(all));
    runs
}

/// Split the index into as many INDEX packets as needed.
pub fn encode_index(gen: u64, recs: &[FileRec]) -> (out: Vec<Vec<u8>>)
    ensures
        byte_views(out@) == index_bodies(gen, store::rec_views(recs@)),
{
    let ghost all = store::rec_views(recs@);
    let mut runs = pack_records(recs);
    let ghost parts = index_parts(all);
    proof {
        assert(byte_views(runs@).len() == runs@.len());
    }
    if recs.len() == 0 {
        runs.push(Vec::new());
        assert(record_stream(parts[0]) =~= Seq::empty());
        assert(byte_views(runs@) =~= group_streams(parts));
    }
    let nparts: usize = runs.len();
    let mut out: Vec<Vec<u8>> = Vec::new();
    let mut i: usize = 0;
    while i < nparts
        invariant
            i <= nparts == runs@.len(),
            byte_views(runs@) == group_streams(parts),
            parts.len() == nparts,
            parts == index_parts(all),
            out@.len() == i,
            forall|j: int|
                0 <= j < i ==> (#[trigger] out@[j])@ == index_body(
                    gen,
                    j as nat,
                    parts.len(),
                    parts[j],
                ),
        decreases nparts - i,
    {
        let mut body: Vec<u8> = Vec::new();
        codec::push_be(&mut body, gen, 8);
        codec::push_be(&mut body, i as u64, 2);
        codec::push_be(&mut body, nparts as u64, 2);
        codec::push_bytes(&mut body, runs[i].as_slice());
        assert(byte_views(runs@)[i as int] == group_streams(parts)[i as int]);
        assert(body@ =~= index_body(gen, i as nat, parts.len(), parts[i as int]));
        out.push(body);
        i += 1;
    }
    assert(byte_views(out@) =~= index_bodies(gen, all));
    out
}

pub fn parse_index(body: &[u8]) -> (r: Option<(u64, u16, u16, Vec<FileRec>)>)
    ensures
        match r {
            Some((gen, part, parts, recs)) => index_of(body@) == Some(
                (gen, part, parts, store::rec_views(recs@)),
            ),
            None => index_of(body@) is None,
        },
{
    if body.len() < INDEX_HEADER_LEN {
        return None;
    }
    let gen: u64 = codec::read_be(body, 0, 8);
    let part: u64 = codec::read_be(body, 8, 2);
    let parts: u64 = codec::read_be(body, 10, 2);
    proof {
        codec::lemma_pow256_values();
        assert(body@.subrange(0, 8) =~= body@.take(8));
    }
    let mut pos: usize = INDEX_HEADER_LEN;
    let mut recs: Vec<FileRec> = Vec::new();
    let ghost s = body@.skip(12);
    proof {
        if let Some(all) = stream_records(s) {
            assert(store::rec_views(recs@) + all =~= all);
        }
    }
    while pos < body.len()
        invariant
            12 <= pos <= body.len(),
            s == body@.skip(12),
            match stream_records(s) {
                Some(all) => stream_records(body@.skip(pos as int)) matches Some(rest)
                    && store::rec_views(recs@) + rest == all,
                None => stream_records(body@.skip(pos as int)) is None,
            },
        decreases body@.len() - pos,
    {
        let ghost here = body@.skip(pos as int);
        let ghost at = pos;
        match decode_record(body, &mut pos) {
            None => {
                return None;
            },
            Some(rec) => {
                proof {
                    let end = pos - at;
                    assert(here.skip(end) =~= body@.skip(pos as int));
                    if let Some(all) = stream_records(s) {
                        let rest = stream_records(here)->0;
                        let after = stream_records(body@.skip(pos as int))->0;
                        assert(rest == seq![rec@] + after);
                        assert(store::rec_views(recs@.push(rec)) =~= store::rec_views(recs@).push(
                            rec@,
                        ));
                        assert(store::rec_views(recs@.push(rec)) + after =~= all);
                    }
                }
                recs.push(rec);
            },
        }
    }
    proof {
        assert(body@.skip(pos as int) =~= Seq::empty());
        if let Some(all) = stream_records(s) {
            assert(store::rec_views(recs@) =~= all);
        }
    }
    Some((gen, part as u16, parts as u16, recs))
}

/// A record whose path length fits the two bytes it is given.
pub open spec fn sendable(r: RecView) -> bool {
    r.hash.len() == 32 && encode_utf8(r.path).len() < 0x1_0000
}

/// The record at the front of a stream is the one that was put there.
proof fn lemma_record_round_trip(r: RecView, rest: Seq<u8>)
    requires
        sendable(r),
    ensures
        record_of(record_bytes(r) + rest) == Some((r, record_bytes(r).len() as int)),
        (record_bytes(r) + rest).skip(record_bytes(r).len() as int) == rest,
{
    let path = encode_utf8(r.path);
    codec::lemma_be_u64(r.mtime);
    codec::lemma_be_u64(r.size);
    codec::lemma_be_u16(path.len());
    let s = record_bytes(r) + rest;
    let end = record_bytes(r).len() as int;
    assert(s.subrange(1, 9) =~= codec::be_bytes(r.mtime as nat, 8));
    assert(s.subrange(9, 17) =~= codec::be_bytes(r.size as nat, 8));
    assert(s.subrange(17, 49) =~= r.hash);
    assert(s.subrange(49, 51) =~= codec::be_bytes(path.len(), 2));
    assert(s.subrange(51, end) =~= path);
    encode_utf8_valid_utf8(r.path);
    encode_utf8_decode_utf8(r.path);
    assert(s.skip(end) =~= rest);
}

/// A record that was encoded reads back from wherever it stands: all of it, up to
/// the byte behind it.
pub proof fn record_round_trip(before: Seq<u8>, r: RecView, after: Seq<u8>)
    requires
        sendable(r),
    ensures
        ({
            let buf = before + record_bytes(r) + after;
            record_of(buf.skip(before.len() as int)) == Some((r, record_bytes(r).len() as int))
        }),
{
    let buf = before + record_bytes(r) + after;
    assert(buf.skip(before.len() as int) =~= record_bytes(r) + after);
    lemma_record_round_trip(r, after);
}

/// A stream holds the records that were put into it.
#[verifier::spinoff_prover]
proof fn lemma_stream_round_trip(recs: Seq<RecView>)
    requires
        forall|i: int| 0 <= i < recs.len() ==> sendable(#[trigger] recs[i]),
    ensures
        stream_records(record_stream(recs)) == Some(recs),
    decreases recs.len(),
{
    if recs.len() > 0 {
        let rest = recs.drop_first();
        assert forall|i: int| 0 <= i < rest.len() implies sendable(#[trigger] rest[i]) by {
            assert(rest[i] == recs[i + 1]);
        }
        lemma_stream_round_trip(rest);
        let first = record_bytes(recs[0]);
        let tail = record_stream(rest);
        let whole = record_stream(recs);
        lemma_record_round_trip(recs[0], tail);
        assert(whole == first + tail);
        assert(record_of(whole) == Some((recs[0], first.len() as int)));
        assert(whole.skip(first.len() as int) == tail);
        assert(stream_records(whole) == Some(seq![recs[0]] + rest)) by {
            assert(whole.len() > 0);
            assert(stream_records(tail) == Some(rest));
        }
        assert(seq![recs[0]] + rest =~= recs);
    } else {
        assert(record_stream(recs).len() == 0);
        assert(recs =~= Seq::empty());
    }
}

/// The records of all groups, one group after the other.
pub open spec fn regrouped(parts: Seq<Seq<RecView>>) -> Seq<RecView>
    decreases parts.len(),
{
    if parts.len() == 0 {
        Seq::empty()
    } else {
        parts[0] + regrouped(parts.drop_first())
    }
}

/// Grouping neither drops nor moves a record, and bounds the groups' bytes.
proof fn lemma_groups(recs: Seq<RecView>)
    ensures
        regrouped(groups(recs)) == recs,
        forall|i: int| 0 <= i < groups(recs).len() ==> (#[trigger] groups(recs)[i]).len() > 0,
        forall|i: int|
            0 <= i < groups(recs).len() && record_bytes(groups(recs)[i][0]).len() <= INDEX_ROOM
                ==> record_stream(#[trigger] groups(recs)[i]).len() <= INDEX_ROOM,
        forall|i: int, j: int|
            0 <= i < groups(recs).len() && 0 <= j < groups(recs)[i].len() ==> recs.contains(
                #[trigger] groups(recs)[i][j],
            ),
    decreases recs.len(),
{
    let all = groups(recs);
    if recs.len() > 0 {
        lemma_fitting_len(recs.drop_first(), INDEX_ROOM - record_bytes(recs[0]).len());
        let n = first_group(recs) as int;
        let rest = recs.skip(n);
        lemma_groups(rest);
        assert(all.drop_first() =~= groups(rest));
        assert(recs.take(n) + rest =~= recs);
        if record_bytes(recs[0]).len() <= INDEX_ROOM {
            lemma_fitting_stream(recs.drop_first(), INDEX_ROOM - record_bytes(recs[0]).len());
            assert(recs.take(n).drop_first() =~= recs.drop_first().take(n - 1));
        }
        assert forall|i: int| 0 <= i < all.len() implies (#[trigger] all[i]).len() > 0 by {
            if i > 0 {
                assert(all[i] == groups(rest)[i - 1]);
            }
        }
        assert forall|i: int|
            0 <= i < all.len() && record_bytes(all[i][0]).len() <= INDEX_ROOM implies record_stream(
            #[trigger] all[i],
        ).len() <= INDEX_ROOM by {
            if i > 0 {
                assert(all[i] == groups(rest)[i - 1]);
            }
        }
        assert forall|i: int, j: int|
            0 <= i < all.len() && 0 <= j < all[i].len() implies recs.contains(
            #[trigger] all[i][j],
        ) by {
            if i > 0 {
                let r = groups(rest)[i - 1][j];
                assert(rest.contains(r));
                let k = choose|k: int| 0 <= k < rest.len() && rest[k] == r;
                assert(recs[n + k] == r);
            } else {
                assert(all[0][j] == recs[j]);
            }
        }
    }
}

/// What fits into some room takes no more bytes than that.
proof fn lemma_fitting_stream(recs: Seq<RecView>, room: int)
    requires
        0 <= room,
    ensures
        record_stream(recs.take(fitting(recs, room) as int)).len() <= room,
    decreases recs.len(),
{
    let n = fitting(recs, room) as int;
    lemma_fitting_len(recs, room);
    if n > 0 {
        let len = record_bytes(recs[0]).len();
        lemma_fitting_stream(recs.drop_first(), room - len);
        assert(recs.take(n).drop_first() =~= recs.drop_first().take(n - 1));
    }
}

/// The packets of an index give it back: each says the generation, its place
/// among the parts and its group of records, and the groups in order are the
/// index. Part numbers are two bytes wide.
pub proof fn index_round_trip(gen: u64, recs: Seq<RecView>)
    requires
        forall|i: int| 0 <= i < recs.len() ==> sendable(#[trigger] recs[i]),
    ensures
        index_bodies(gen, recs).len() == index_parts(recs).len() > 0,
        index_parts(recs).len() < 0x1_0000 ==> forall|i: int|
            0 <= i < index_parts(recs).len() ==> index_of(#[trigger] index_bodies(gen, recs)[i])
                == Some((gen, i as u16, index_parts(recs).len() as u16, index_parts(recs)[i])),
        forall|i: int|
            0 <= i < index_parts(recs).len() ==> (index_of(#[trigger] index_bodies(gen, recs)[i])
                matches Some((g, _, _, part)) && g == gen && part == index_parts(recs)[i]),
        regrouped(index_parts(recs)) == recs,
{
    let parts = index_parts(recs);
    lemma_groups(recs);
    if recs.len() == 0 {
        assert(parts.drop_first() =~= Seq::empty());
        assert(regrouped(parts) =~= recs);
    }
    assert forall|i: int| 0 <= i < parts.len() implies index_of(
        #[trigger] index_bodies(gen, recs)[i],
    ) == Some(
        (
            gen,
            codec::be_value(codec::be_bytes(i as nat, 2)) as u16,
            codec::be_value(codec::be_bytes(parts.len(), 2)) as u16,
            parts[i],
        ),
    ) by {
        let part = parts[i];
        assert forall|j: int| 0 <= j < part.len() implies sendable(#[trigger] part[j]) by {
            assert(recs.contains(groups(recs)[i][j]));
        }
        lemma_stream_round_trip(part);
        codec::lemma_be_u64(gen);
        codec::lemma_be_bytes_len(i as nat, 2);
        codec::lemma_be_bytes_len(parts.len(), 2);
        let body = index_bodies(gen, recs)[i];
        assert(body.take(8) =~= codec::be_bytes(gen as nat, 8));
        assert(body.subrange(8, 10) =~= codec::be_bytes(i as nat, 2));
        assert(body.subrange(10, 12) =~= codec::be_bytes(parts.len(), 2));
        assert(body.skip(12) =~= record_stream(part));
    }
    if parts.len() < 0x1_0000 {
        assert forall|i: int| 0 <= i < parts.len() implies index_of(
            #[trigger] index_bodies(gen, recs)[i],
        ) == Some((gen, i as u16, parts.len() as u16, parts[i])) by {
            codec::lemma_be_u16(i as nat);
            codec::lemma_be_u16(parts.len());
        }
    }
}

/// Every packet of an index stays within [`MAX_PAYLOAD`], as long as each record
/// fits into one: as long as the paths are within [`LONGEST_PATH`].
pub proof fn index_packets_fit(gen: u64, recs: Seq<RecView>, msg_id: u64, i: int)
    requires
        forall|k: int|
            0 <= k < recs.len() ==> (#[trigger] recs[k]).hash.len() == 32 && encode_utf8(
                recs[k].path,
            ).len() <= LONGEST_PATH,
        0 <= i < index_bodies(gen, recs).len(),
    ensures
        encoded(
            PacketView { typ: T_INDEX, msg_id, body: index_bodies(gen, recs)[i] },
        ).len() <= MAX_PAYLOAD,
{
    let parts = index_parts(recs);
    lemma_groups(recs);
    codec::lemma_be_u64(gen);
    codec::lemma_be_u64(msg_id);
    codec::lemma_be_bytes_len(i as nat, 2);
    codec::lemma_be_bytes_len(parts.len(), 2);
    if recs.len() > 0 {
        let first = parts[i][0];
        assert(recs.contains(groups(recs)[i][0]));
        codec::lemma_be_u64(first.mtime);
        codec::lemma_be_u64(first.size);
        codec::lemma_be_bytes_len(encode_utf8(first.path).len(), 2);
        assert(record_bytes(first).len() <= INDEX_ROOM);
        assert(record_stream(groups(recs)[i]).len() <= INDEX_ROOM);
    }
}

} // verus!
