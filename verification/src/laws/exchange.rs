//! The exchange with the peers: who is answered, what an announcement carries,
//! how a blob crosses, when a message is repeated.

use vstd::prelude::*;
use vstd::utf8::*;

use crate::codec;
use crate::fabric;
use crate::fabric::PeerView;
use crate::proto;
use crate::proto::{PacketView, CHUNK_SIZE, T_ACK, T_CHUNK, T_HELLO, T_INDEX};
use crate::store;
use crate::store::{RecView, MAX_FILE_BYTES};
use crate::sync;
use crate::sync::{ActionView, EngineView, PendingView, RETRY};

verus! {

/// The sender of a packet is a peer exactly if some peer has its app id; it is
/// then the first such peer.
pub proof fn the_sender_is_found_by_its_id(peers: Seq<PeerView>, app_id: Seq<u8>)
    ensures
        match sync::peer_of(peers, app_id) {
            Some(p) => exists|i: int|
                0 <= i < peers.len() && #[trigger] peers[i] == p && p.app_id == app_id && forall|
                    j: int,
                | 0 <= j < i ==> (#[trigger] peers[j]).app_id != app_id,
            None => forall|i: int| 0 <= i < peers.len() ==> (#[trigger] peers[i]).app_id != app_id,
        },
    decreases peers.len(),
{
    if peers.len() > 0 && peers[0].app_id != app_id {
        let rest = peers.drop_first();
        the_sender_is_found_by_its_id(rest, app_id);
        match sync::peer_of(rest, app_id) {
            Some(p) => {
                let i = choose|i: int|
                    0 <= i < rest.len() && #[trigger] rest[i] == p && p.app_id == app_id && forall|
                        j: int,
                    | 0 <= j < i ==> (#[trigger] rest[j]).app_id != app_id;
                assert(peers[i + 1] == p);
                assert forall|j: int| 0 <= j < i + 1 implies (#[trigger] peers[j]).app_id
                    != app_id by {
                    if j > 0 {
                        assert(rest[j - 1] == peers[j]);
                    }
                }
            },
            None => {
                assert forall|i: int| 0 <= i < peers.len() implies (#[trigger] peers[i]).app_id
                    != app_id by {
                    if i > 0 {
                        assert(rest[i - 1] == peers[i]);
                    }
                }
            },
        }
    } else if peers.len() > 0 {
        assert(peers[0].app_id == app_id);
    }
}

/// What a peer sends is confirmed and answered, whatever the id of the message: a
/// request (type 3) is answered with the blob that it names, an announcement (type
/// 2) with the merge of its records, a slice (type 4) with the installation of the
/// blob that it completes; a greeting (type 1) asks for nothing. A message with an
/// id is confirmed to the peer, once, and one without an id is not; the queue and
/// the peers stay as they are.
pub proof fn peers_are_answered(
    e: EngineView,
    sender: Seq<u8>,
    peer: PeerView,
    msg_id: u64,
    typ: u8,
    body: Seq<u8>,
)
    requires
        sync::peer_of(e.peers, sender) == Some(peer),
        1 <= typ <= 4,
    ensures
        ({
            let (after, action) = sync::handled(e, sender, PacketView { typ, msg_id, body });
            &&& msg_id != 0 ==> after.acks == e.acks.push((peer, msg_id))
            &&& msg_id == 0 ==> after.acks == e.acks
            &&& after.pending == e.pending && after.next_msg == e.next_msg && after.peers == e.peers
            &&& typ == 3 && body.len() == 32 ==> action == ActionView::Send(body)
            &&& typ == 3 && body.len() != 32 ==> action == ActionView::Nothing
            &&& typ == 1 ==> action == ActionView::Nothing
            &&& typ == 2 ==> action == match proto::index_of(body) {
                Some((_, _, _, recs)) => ActionView::Merge(recs),
                None => ActionView::Nothing,
            }
            &&& typ == 4 ==> action == match proto::chunk_of(body) {
                Some((hash, total, offset, data)) => match sync::assembled(
                    e,
                    hash,
                    total,
                    offset,
                    data,
                ).1 {
                    Some(blob) => ActionView::Install { hash, data: blob },
                    None => ActionView::Nothing,
                },
                None => ActionView::Nothing,
            }
            &&& typ != 4 ==> after.missing == e.missing && after.incoming == e.incoming
        }),
{
    if typ == 4 {
        if let Some((hash, total, offset, data)) = proto::chunk_of(body) {
            let noted = sync::ack_noted(e, sender, msg_id);
            assert(sync::progress(noted, hash, total) == sync::progress(e, hash, total));
        }
    }
}

/// A packet of another type changes nothing and is not answered.
pub proof fn other_packets_are_ignored(e: EngineView, sender: Seq<u8>, pkt: PacketView)
    requires
        pkt.typ > 4,
    ensures
        sync::handled(e, sender, pkt) == (e, ActionView::Nothing),
{
}

/// A confirmation (type 0) takes the messages with the id that it names out of the
/// queue, whoever sends it, and leaves all others where they are, in order.
pub proof fn a_confirmation_takes_out_its_message(
    e: EngineView,
    sender: Seq<u8>,
    msg_id: u64,
    body: Seq<u8>,
    at: int,
)
    requires
        0 <= at < e.pending.len(),
        forall|i: int|
            0 <= i < e.pending.len() && i != at ==> (#[trigger] e.pending[i]).id != e.pending[at].id,
        body.len() == 8,
    ensures
        ({
            let (after, action) = sync::handled(e, sender, PacketView { typ: 0, msg_id, body });
            &&& codec::be_value(body) == e.pending[at].id ==> after.pending == e.pending.take(at)
                + e.pending.skip(at + 1)
            &&& (forall|i: int|
                0 <= i < e.pending.len() ==> (#[trigger] e.pending[i]).id != codec::be_value(body))
                ==> after.pending == e.pending
            &&& action == ActionView::Nothing
            &&& after.acks == e.acks && after.missing == e.missing && after.incoming == e.incoming
            &&& after.next_msg == e.next_msg && after.last_index_sent == e.last_index_sent
        }),
{
    codec::lemma_be_value_bound(body);
    codec::lemma_pow256_values();
    let id = codec::be_value(body) as u64;
    let a = e.pending.take(at);
    let b = e.pending.skip(at + 1);
    if id == e.pending[at].id {
        assert forall|i: int| 0 <= i < a.len() implies (#[trigger] a[i]).id != id by {
            assert(a[i] == e.pending[i]);
        }
        assert forall|i: int| 0 <= i < b.len() implies (#[trigger] b[i]).id != id by {
            assert(b[i] == e.pending[at + 1 + i]);
        }
        let one = seq![e.pending[at]];
        assert(e.pending =~= a + (one + b));
        lemma_without_in_parts(a, one + b, id);
        lemma_without_in_parts(one, b, id);
        lemma_without_none(a, id);
        lemma_without_none(b, id);
        assert(one.drop_last() =~= Seq::empty());
        assert(sync::without_id(one.drop_last(), id) =~= Seq::empty());
        assert(sync::without_id(one, id) =~= Seq::empty());
        assert(sync::without_id(e.pending, id) =~= a + b);
    }
    if forall|i: int| 0 <= i < e.pending.len() ==> (#[trigger] e.pending[i]).id != id {
        lemma_without_none(e.pending, id);
    }
}

proof fn lemma_without_in_parts(a: Seq<PendingView>, b: Seq<PendingView>, id: u64)
    ensures
        sync::without_id(a + b, id) == sync::without_id(a, id) + sync::without_id(b, id),
    decreases b.len(),
{
    if b.len() == 0 {
        assert(a + b =~= a);
        assert(sync::without_id(a, id) + sync::without_id(b, id) =~= sync::without_id(a, id));
    } else {
        assert((a + b).drop_last() =~= a + b.drop_last());
        assert((a + b).last() == b.last());
        lemma_without_in_parts(a, b.drop_last(), id);
        assert(sync::without_id(a + b, id) =~= sync::without_id(a, id) + sync::without_id(b, id));
    }
}

proof fn lemma_without_none(a: Seq<PendingView>, id: u64)
    requires
        forall|i: int| 0 <= i < a.len() ==> (#[trigger] a[i]).id != id,
    ensures
        sync::without_id(a, id) == a,
    decreases a.len(),
{
    if a.len() > 0 {
        let front = a.drop_last();
        assert forall|i: int| 0 <= i < front.len() implies (#[trigger] front[i]).id != id by {
            assert(front[i] == a[i]);
        }
        lemma_without_none(front, id);
        assert(a.last() == a[a.len() - 1]);
        assert(sync::without_id(a, id) =~= a);
    }
}

/// A message that is put in the queue is the packet, under the next id, for the
/// device and app of the peer, and goes out with the next flush.
pub proof fn a_queued_message_is_its_packet(
    e: EngineView,
    dest: PeerView,
    pkt: PacketView,
    now: u64,
)
    ensures
        ({
            let after = sync::enqueued(e, dest, pkt);
            let p = after.pending.last();
            &&& after.pending.len() > 0
            &&& p.dest_device == dest.device && p.dest_app == dest.app_id
            &&& proto::decoded(p.encoded) == Some(
                PacketView { typ: pkt.typ, msg_id: e.next_msg, body: pkt.body },
            )
            &&& p.id == e.next_msg
            &&& p.tries == 0
            &&& sync::sends(p, now)
            &&& after.acks == e.acks && after.peers == e.peers && after.missing == e.missing
            &&& after.incoming == e.incoming && after.last_index_sent == e.last_index_sent
        }),
{
    proto::packet_round_trip(PacketView { msg_id: e.next_msg, ..pkt });
}

/// Packets for several peers: every peer gets every packet, in order.
pub proof fn every_peer_gets_every_packet(peers: Seq<PeerView>, pkts: Seq<PacketView>)
    ensures
        sync::to_peers(peers, pkts).len() == peers.len() * pkts.len(),
        forall|j: int, i: int|
            0 <= j < peers.len() && 0 <= i < pkts.len() ==> #[trigger] message_at(
                peers,
                pkts,
                j,
                i,
            ) == (peers[j], pkts[i]),
    decreases peers.len(),
{
    let n = pkts.len() as int;
    if peers.len() == 0 {
        assert(0 * n == 0) by (nonlinear_arith);
    } else {
        let init = peers.drop_last();
        let k = init.len() as int;
        every_peer_gets_every_packet(init, pkts);
        assert((k + 1) * n == k * n + n) by (nonlinear_arith);
        assert forall|j: int, i: int| 0 <= j < peers.len() && 0 <= i < n implies #[trigger] message_at(
            peers,
            pkts,
            j,
            i,
        ) == (peers[j], pkts[i]) by {
            if j < k {
                assert(0 <= j * n + i < k * n) by (nonlinear_arith)
                    requires
                        0 <= j < k,
                        0 <= i < n,
                ;
                assert(message_at(peers, pkts, j, i) == message_at(init, pkts, j, i));
            } else {
                assert(message_at(peers, pkts, j, i) == sync::to_peer(peers.last(), pkts)[i]);
            }
        }
    }
}

/// The message with the `i`-th packet for the `j`-th peer.
pub open spec fn message_at(
    peers: Seq<PeerView>,
    pkts: Seq<PacketView>,
    j: int,
    i: int,
) -> (PeerView, PacketView) {
    sync::to_peers(peers, pkts)[j * pkts.len() + i]
}

/// A packet as it arrives, under some id.
pub open spec fn under(pkt: PacketView, id: u64) -> PacketView {
    PacketView { typ: pkt.typ, msg_id: id, body: pkt.body }
}

/// The records that the INDEX packets among `pkts` carry, one after the other.
pub open spec fn carried(pkts: Seq<PacketView>) -> Seq<RecView>
    decreases pkts.len(),
{
    if pkts.len() == 0 {
        Seq::empty()
    } else {
        (match proto::index_of(pkts[0].body) {
            Some((_, _, _, recs)) => if pkts[0].typ == T_INDEX {
                recs
            } else {
                Seq::empty()
            },
            None => Seq::empty(),
        }) + carried(pkts.drop_first())
    }
}

/// The index of a replica after it has handled packets of a sender in turn, and
/// merged what they asked it to merge. The ids are those under which they come.
pub open spec fn heard(
    e: EngineView,
    files: Map<Seq<char>, RecView>,
    sender: Seq<u8>,
    pkts: Seq<PacketView>,
    ids: Seq<u64>,
) -> Map<Seq<char>, RecView>
    decreases pkts.len(),
{
    if pkts.len() == 0 {
        files
    } else {
        let (after, action) = sync::handled(e, sender, under(pkts[0], ids[0]));
        let merged = match action {
            ActionView::Merge(recs) => store::merge_all(files, recs),
            _ => files,
        };
        heard(after, merged, sender, pkts.drop_first(), ids.drop_first())
    }
}

proof fn lemma_parts_heard(
    e: EngineView,
    files: Map<Seq<char>, RecView>,
    sender: Seq<u8>,
    pkts: Seq<PacketView>,
    parts: Seq<Seq<RecView>>,
    ids: Seq<u64>,
)
    requires
        sync::peer_of(e.peers, sender) is Some,
        pkts.len() == parts.len(),
        forall|i: int|
            0 <= i < pkts.len() ==> (#[trigger] pkts[i]).typ == T_INDEX && (proto::index_of(
                pkts[i].body,
            ) matches Some((_, _, _, recs)) && recs == parts[i]),
    ensures
        carried(pkts) == proto::regrouped(parts),
        heard(e, files, sender, pkts, ids) == sync::merge_parts(files, parts),
    decreases pkts.len(),
{
    if pkts.len() > 0 {
        let rest = pkts.drop_first();
        let tail = parts.drop_first();
        assert(pkts[0].typ == T_INDEX);
        assert(proto::index_of(pkts[0].body) is Some);
        assert forall|i: int| 0 <= i < rest.len() implies (#[trigger] rest[i]).typ == T_INDEX && (
        proto::index_of(rest[i].body) matches Some((_, _, _, recs)) && recs == tail[i]) by {
            assert(rest[i] == pkts[i + 1]);
        }
        let (after, action) = sync::handled(e, sender, under(pkts[0], ids[0]));
        assert(after.peers == e.peers);
        assert(action == ActionView::Merge(parts[0]));
        lemma_parts_heard(
            after,
            store::merge_all(files, parts[0]),
            sender,
            rest,
            tail,
            ids.drop_first(),
        );
    } else {
        assert(carried(pkts) =~= proto::regrouped(parts));
    }
}

/// An announcement is a HELLO with the id of the replica and the generation, and
/// INDEX packets that carry the whole index, tombstones included, in order. A
/// replica to which the sender is a peer, and which handles them in turn, under
/// whatever ids, has then merged the whole index.
pub proof fn an_announcement_carries_the_whole_index(
    replica: Seq<u8>,
    gen: u64,
    recs: Seq<RecView>,
    e: EngineView,
    files: Map<Seq<char>, RecView>,
    sender: Seq<u8>,
    ids: Seq<u64>,
)
    requires
        replica.len() == 16,
        forall|i: int| 0 <= i < recs.len() ==> proto::sendable(#[trigger] recs[i]),
        sync::peer_of(e.peers, sender) is Some,
    ensures
        ({
            let pkts = sync::index_packets(replica, gen, recs);
            &&& pkts.len() > 1
            &&& pkts[0].typ == T_HELLO && proto::hello_of(pkts[0].body) == Some((replica, gen))
            &&& forall|i: int| 0 < i < pkts.len() ==> (#[trigger] pkts[i]).typ == T_INDEX
            &&& carried(pkts.drop_first()) == recs
            &&& heard(e, files, sender, pkts, ids) == store::merge_all(files, recs)
        }),
{
    let pkts = sync::index_packets(replica, gen, recs);
    let parts = proto::index_parts(recs);
    let rest = pkts.drop_first();
    proto::index_round_trip(gen, recs);
    proto::control_round_trip(
        0,
        replica,
        gen,
        Seq::new(32, |i: int| 0u8),
        0,
        0,
        Seq::empty(),
    );
    assert forall|i: int| 0 <= i < rest.len() implies (#[trigger] rest[i]).typ == T_INDEX && (
    proto::index_of(rest[i].body) matches Some((_, _, _, r)) && r == parts[i]) by {
        assert(rest[i] == pkts[i + 1]);
        assert(rest[i].body == proto::index_bodies(gen, recs)[i]);
    }
    let (after, action) = sync::handled(e, sender, under(pkts[0], ids[0]));
    assert(action == ActionView::Nothing);
    assert(after.peers == e.peers);
    lemma_parts_heard(after, files, sender, rest, parts, ids.drop_first());
    sync::lemma_merge_parts(files, parts);
}

/// The index is announced to every peer unless there is none, or this generation
/// was announced before; and not again until the next generation. Announcing puts
/// the announcement in the queue for each peer, and does nothing else.
pub proof fn an_index_is_announced_once(
    e: EngineView,
    replica: Seq<u8>,
    gen: u64,
    recs: Seq<RecView>,
    again: Seq<RecView>,
)
    requires
        sync::valid(e),
        e.next_msg + sync::to_peers(e.peers, sync::index_packets(replica, gen, recs)).len()
            <= u64::MAX,
    ensures
        ({
            let after = sync::index_announced(e, replica, gen, recs);
            let msgs = sync::to_peers(e.peers, sync::index_packets(replica, gen, recs));
            &&& e.peers.len() == 0 ==> after == e
            &&& e.last_index_sent == gen ==> after == e
            &&& e.peers.len() > 0 && e.last_index_sent != gen ==> {
                &&& after.pending == e.pending + sync::waiting_from(e.next_msg, msgs)
                &&& after.next_msg == e.next_msg + msgs.len()
                &&& after.last_index_sent == gen
                &&& after.acks == e.acks && after.peers == e.peers && after.missing == e.missing
                &&& after.incoming == e.incoming
            }
            &&& sync::index_announced(after, replica, gen, again) == after
        }),
{
    let msgs = sync::to_peers(e.peers, sync::index_packets(replica, gen, recs));
    sync::ids_are_given_in_turn(e, msgs);
    sync::lemma_enqueue_frame(e, msgs);
}

/// A request that an engine queues for a missing blob is answered by any engine
/// to which the asking app is a peer: with that blob.
pub proof fn requests_are_answered(
    e: EngineView,
    i: int,
    j: int,
    other: EngineView,
    sender: Seq<u8>,
    id: u64,
)
    requires
        sync::valid(e),
        0 <= i < sync::requested(e).len(),
        0 <= j < e.peers.len(),
        sync::requested(e)[i].len() == 32,
        sync::peer_of(other.peers, sender) is Some,
    ensures
        ({
            let msg = sync::want_at(sync::requested(e), e.peers, i, j);
            let p = sync::waiting(id, msg.0, msg.1);
            &&& p.dest_device == e.peers[j].device && p.dest_app == e.peers[j].app_id
            &&& proto::decoded(p.encoded) matches Some(pkt) && sync::handled(other, sender, pkt).1
                == ActionView::Send(sync::requested(e)[i])
        }),
{
    sync::requests_are_distinct(e);
    let msg = sync::want_at(sync::requested(e), e.peers, i, j);
    proto::packet_round_trip(PacketView { msg_id: id, ..msg.1 });
}

/// The slices of a blob make the blob: each byte stands in the slice of its
/// offset, slices follow each other without gaps, and the last one ends the blob.
pub proof fn slices_make_the_blob(data: Seq<u8>, x: int)
    requires
        0 <= x < data.len() <= MAX_FILE_BYTES,
    ensures
        ({
            let i = x / 2048;
            &&& 0 <= i < sync::chunk_count(data.len())
            &&& sync::offset_of(i) == x - x % 2048
            &&& x % 2048 < sync::slice_of(data, i).len()
            &&& sync::slice_of(data, i)[x % 2048] == data[x]
        }),
        sync::chunk_count(0) == 1,
        forall|i: int|
            0 <= i < sync::chunk_count(data.len()) ==> 0 < (#[trigger] sync::slice_of(
                data,
                i,
            )).len() <= 2048 && i * 2048 + sync::slice_of(data, i).len() <= data.len(),
{
}

/// A blob that is asked for is put in the queue for the peer that asked: all its
/// slices, in order, each in a CHUNK packet that says the hash and the size of the
/// blob and the offset of the slice. Nothing is sent to an app that is no peer, or
/// of a blob over the cap.
pub proof fn a_wanted_blob_is_queued(
    e: EngineView,
    sender: Seq<u8>,
    hash: Seq<u8>,
    data: Seq<u8>,
)
    requires
        sync::valid(e),
        hash.len() == 32,
        e.next_msg + sync::chunk_count(data.len()) <= u64::MAX,
    ensures
        ({
            let after = sync::chunks_sent(e, sender, hash, data);
            let n = sync::chunk_count(data.len()) as int;
            &&& sync::peer_of(e.peers, sender) is None ==> after == e
            &&& data.len() > MAX_FILE_BYTES ==> after == e
            &&& sync::peer_of(e.peers, sender) matches Some(peer) ==> (data.len() <= MAX_FILE_BYTES
                ==> {
                &&& after.pending.len() == e.pending.len() + n
                &&& forall|k: int| 0 <= k < e.pending.len() ==> #[trigger] after.pending[k] == e.pending[k]
                &&& forall|i: int| #![trigger sync::slice_of(data, i)]
                    0 <= i < n ==> {
                        let p = after.pending[e.pending.len() + i];
                        &&& p.dest_device == peer.device && p.dest_app == peer.app_id
                        &&& p.id == e.next_msg + i
                        &&& proto::decoded(p.encoded) matches Some(pkt) && pkt.typ == T_CHUNK
                            && proto::chunk_of(pkt.body) == Some(
                            (hash, data.len() as u64, sync::offset_of(i), sync::slice_of(data, i)),
                        )
                    }
            })
        }),
{
    if let Some(peer) = sync::peer_of(e.peers, sender) {
        if data.len() <= MAX_FILE_BYTES {
            let msgs = sync::to_peer(peer, sync::chunk_packets(hash, data));
            let after = sync::chunks_sent(e, sender, hash, data);
            let n = sync::chunk_count(data.len()) as int;
            sync::ids_are_given_in_turn(e, msgs);
            assert forall|i: int| #![trigger sync::slice_of(data, i)] 0 <= i < n implies {
                let p = after.pending[e.pending.len() + i];
                &&& p.dest_device == peer.device && p.dest_app == peer.app_id
                &&& p.id == e.next_msg + i
                &&& proto::decoded(p.encoded) matches Some(pkt) && pkt.typ == T_CHUNK
                    && proto::chunk_of(pkt.body) == Some(
                    (hash, data.len() as u64, sync::offset_of(i), sync::slice_of(data, i)),
                )
            } by {
                let p = after.pending[e.pending.len() + i];
                assert(p == sync::waiting_from(e.next_msg, msgs)[i]);
                proto::packet_round_trip(
                    PacketView { msg_id: (e.next_msg + i) as u64, ..msgs[i].1 },
                );
                sync::chunk_packets_say_slices(hash, data, i);
            }
        }
    }
}

/// The state without regard to the ACKs that wait.
spec fn but_acks(e: EngineView, acks: Seq<(PeerView, u64)>) -> EngineView {
    EngineView { acks, ..e }
}

/// The state of a replica after it has handled CHUNK packets of a blob in some
/// order, under some ids.
pub open spec fn fed(
    e: EngineView,
    sender: Seq<u8>,
    hash: Seq<u8>,
    data: Seq<u8>,
    order: Seq<int>,
    ids: Seq<u64>,
) -> EngineView
    decreases order.len(),
{
    if order.len() == 0 {
        e
    } else {
        sync::handled(
            fed(e, sender, hash, data, order.drop_last(), ids),
            sender,
            under(sync::chunk_packets(hash, data)[order.last()], ids[order.len() - 1]),
        ).0
    }
}

proof fn lemma_fed_is_delivered(
    e: EngineView,
    sender: Seq<u8>,
    hash: Seq<u8>,
    data: Seq<u8>,
    order: Seq<int>,
    ids: Seq<u64>,
)
    requires
        sync::peer_of(e.peers, sender) is Some,
        hash.len() == 32,
        data.len() <= MAX_FILE_BYTES,
        forall|i: int|
            0 <= i < order.len() ==> 0 <= #[trigger] order[i] < sync::chunk_count(data.len()),
    ensures
        ({
            let f = fed(e, sender, hash, data, order, ids);
            &&& f == but_acks(sync::delivered(e, hash, data, order), f.acks)
            &&& f.peers == e.peers
        }),
    decreases order.len(),
{
    if order.len() > 0 {
        let init = order.drop_last();
        let i = order.last();
        assert forall|k: int| 0 <= k < init.len() implies 0 <= #[trigger] init[k]
            < sync::chunk_count(data.len()) by {
            assert(init[k] == order[k]);
        }
        assert(0 <= order[order.len() - 1] < sync::chunk_count(data.len()));
        lemma_fed_is_delivered(e, sender, hash, data, init, ids);
        sync::chunk_packets_say_slices(hash, data, i);
    }
}

/// A blob crosses from one device to another: its CHUNK packets, handled in any
/// order and however often one is repeated before the last comes, give the blob,
/// with the last one that was missing and not before. If it is what its hash
/// names, it is then no longer missing.
pub proof fn a_blob_crosses(
    e: EngineView,
    sender: Seq<u8>,
    hash: Seq<u8>,
    data: Seq<u8>,
    order: Seq<int>,
    ids: Seq<u64>,
)
    requires
        sync::peer_of(e.peers, sender) is Some,
        hash.len() == 32,
        data.len() <= MAX_FILE_BYTES,
        !e.incoming.dom().contains(hash),
        order.len() > 0,
        forall|i: int|
            0 <= i < order.len() ==> 0 <= #[trigger] order[i] < sync::chunk_count(data.len()),
        exists|i: int|
            0 <= i < sync::chunk_count(data.len()) && !(#[trigger] order.drop_last().contains(i)),
    ensures
        ({
            let (after, action) = sync::handled(
                fed(e, sender, hash, data, order.drop_last(), ids),
                sender,
                under(sync::chunk_packets(hash, data)[order.last()], ids[order.len() - 1]),
            );
            let whole = forall|i: int|
                0 <= i < sync::chunk_count(data.len()) ==> #[trigger] order.contains(i);
            &&& whole ==> action == (ActionView::Install { hash, data })
            &&& whole ==> after.incoming == e.incoming
            &&& whole && store::sha256_of(data) == hash ==> forall|h: Seq<u8>| #[trigger]
                after.missing.contains(h) <==> e.missing.contains(h) && h != hash
            &&& whole && store::sha256_of(data) != hash ==> after.missing == e.missing
            &&& !whole ==> action == ActionView::Nothing && after.missing == e.missing
        }),
{
    let init = order.drop_last();
    assert forall|k: int| 0 <= k < init.len() implies 0 <= #[trigger] init[k] < sync::chunk_count(
        data.len(),
    ) by {
        assert(init[k] == order[k]);
    }
    assert(0 <= order[order.len() - 1] < sync::chunk_count(data.len()));
    lemma_fed_is_delivered(e, sender, hash, data, init, ids);
    sync::chunk_packets_say_slices(hash, data, order.last());
    sync::transfer_completes(e, hash, data, order, Seq::empty());
    taking_out_a_hash(e.missing, hash);
}

/// What is in a list is in front of its last item or is that item.
proof fn lemma_in_front_or_last(list: Seq<Seq<u8>>, x: Seq<u8>)
    requires
        list.len() > 0,
    ensures
        list.contains(x) <==> list.drop_last().contains(x) || x == list.last(),
{
    let init = list.drop_last();
    if init.contains(x) {
        let k = choose|k: int| 0 <= k < init.len() && init[k] == x;
        assert(list[k] == x);
    }
    if list.contains(x) {
        let k = choose|k: int| 0 <= k < list.len() && list[k] == x;
        if k < init.len() {
            assert(init[k] == x);
        }
    }
    assert(list[list.len() - 1] == list.last());
}

/// Taking a hash out of a list takes out that one and no other, and keeps the
/// order of the others.
pub proof fn taking_out_a_hash(list: Seq<Seq<u8>>, h: Seq<u8>)
    ensures
        forall|x: Seq<u8>| #[trigger]
            sync::without_hash(list, h).contains(x) <==> list.contains(x) && x != h,
        !list.contains(h) ==> sync::without_hash(list, h) == list,
    decreases list.len(),
{
    if list.len() > 0 {
        let init = list.drop_last();
        let last = list.last();
        taking_out_a_hash(init, h);
        let w = sync::without_hash(list, h);
        let b = sync::without_hash(init, h);
        assert forall|x: Seq<u8>| #[trigger] w.contains(x) <==> list.contains(x) && x != h by {
            lemma_in_front_or_last(list, x);
            if last != h {
                assert(w == b.push(last));
                assert(w.contains(x) <==> b.contains(x) || x == last) by {
                    if b.contains(x) {
                        let k = choose|k: int| 0 <= k < b.len() && b[k] == x;
                        assert(w[k] == x);
                    }
                    if x == last {
                        assert(w[b.len() as int] == x);
                    }
                }
            }
        }
        if !list.contains(h) {
            assert(list[list.len() - 1] != h);
            assert(!init.contains(h)) by {
                if init.contains(h) {
                    let k = choose|k: int| 0 <= k < init.len() && init[k] == h;
                    assert(list[k] == h);
                }
            }
            assert(init.push(last) =~= list);
        }
    }
}

/// Noting hashes as missing adds those that were not, behind those that were, and
/// loses none.
pub proof fn noting_hashes(list: Seq<Seq<u8>>, more: Seq<Seq<u8>>)
    ensures
        forall|x: Seq<u8>| #[trigger]
            sync::with_hashes(list, more).contains(x) <==> list.contains(x) || more.contains(x),
        list.len() <= sync::with_hashes(list, more).len(),
        sync::with_hashes(list, more).take(list.len() as int) == list,
    decreases more.len(),
{
    let w = sync::with_hashes(list, more);
    if more.len() == 0 {
        assert(w.take(list.len() as int) =~= list);
    } else {
        let init = more.drop_last();
        let last = more.last();
        let b = sync::with_hashes(list, init);
        noting_hashes(list, init);
        assert forall|x: Seq<u8>| #[trigger] w.contains(x) <==> list.contains(x) || more.contains(
            x,
        ) by {
            lemma_in_front_or_last(more, x);
            if !b.contains(last) {
                assert(w == b.push(last));
                if b.contains(x) {
                    let k = choose|k: int| 0 <= k < b.len() && b[k] == x;
                    assert(w[k] == x);
                }
                assert(w[b.len() as int] == last);
            }
        }
        assert(w.take(list.len() as int) =~= list);
    }
}

/// A flush goes through the queue message by message: one that is due and has
/// tries left is sent to the node, for its device and app, under the token; one
/// that is due and has none left is dropped unsent; the others wait. After the
/// queue go the ACKs: one to each sender, with the id that it confirms. They are
/// then gone.
pub proof fn a_flush_goes_message_by_message(
    token: Seq<u8>,
    a: Seq<PendingView>,
    b: Seq<PendingView>,
    p: PendingView,
    now: u64,
)
    ensures
        sync::queue_datagrams(token, a + b, now) == sync::queue_datagrams(token, a, now)
            + sync::queue_datagrams(token, b, now),
        sync::flush_queue(a + b, now) == sync::flush_queue(a, now) + sync::flush_queue(b, now),
        ({
            let due = match p.last {
                None => true,
                Some(t) => now - t >= 400_000_000,
            };
            &&& !due ==> sync::queue_datagrams(token, seq![p], now).len() == 0
                && sync::flush_queue(seq![p], now) == seq![p]
            &&& due && p.tries >= 16 ==> sync::queue_datagrams(token, seq![p], now).len() == 0
                && sync::flush_queue(seq![p], now).len() == 0
            &&& due && p.tries < 16 ==> sync::queue_datagrams(token, seq![p], now) == seq![
                fabric::send_request(token, p.dest_device, p.dest_app, p.encoded),
            ] && sync::flush_queue(seq![p], now) == seq![
                PendingView {
                    id: p.id,
                    dest_device: p.dest_device,
                    dest_app: p.dest_app,
                    encoded: p.encoded,
                    last: Some(now),
                    tries: (p.tries + 1) as u32,
                },
            ]
        }),
    decreases b.len(),
{
    let one = seq![p];
    assert(one.drop_last() =~= Seq::empty());
    assert(sync::queue_datagrams(token, one.drop_last(), now) =~= Seq::empty());
    assert(sync::flush_queue(one.drop_last(), now) =~= Seq::empty());
    if let Some(q) = sync::flushed(p, now) {
        assert(sync::flush_queue(one, now) =~= seq![q]);
    }
    if sync::sends(p, now) {
        assert(sync::queue_datagrams(token, one, now) =~= seq![
            fabric::send_request(token, p.dest_device, p.dest_app, p.encoded),
        ]);
    }
    if b.len() == 0 {
        assert(a + b =~= a);
        assert(sync::queue_datagrams(token, a + b, now) =~= sync::queue_datagrams(token, a, now)
            + sync::queue_datagrams(token, b, now));
        assert(sync::flush_queue(a + b, now) =~= sync::flush_queue(a, now) + sync::flush_queue(
            b,
            now,
        ));
    } else {
        assert((a + b).drop_last() =~= a + b.drop_last());
        a_flush_goes_message_by_message(token, a, b.drop_last(), p, now);
        assert(sync::queue_datagrams(token, a + b, now) =~= sync::queue_datagrams(token, a, now)
            + sync::queue_datagrams(token, b, now));
        assert(sync::flush_queue(a + b, now) =~= sync::flush_queue(a, now) + sync::flush_queue(
            b,
            now,
        ));
    }
}

/// What a flush sends behind the queue: for each ACK that waits a datagram to its
/// peer whose payload is an ACK of the message, and then no ACK waits any more.
pub proof fn a_flush_sends_the_acks(e: EngineView, now: u64, i: int)
    requires
        e.token.len() == 16,
        0 <= i < e.acks.len(),
        e.acks[i].0.device.len() == 16,
        e.acks[i].0.app_id.len() == 16,
    ensures
        ({
            let out = sync::flush_datagrams(e, now);
            let n = sync::queue_datagrams(e.token, e.pending, now).len();
            let d = out[n + i];
            &&& out.len() == n + e.acks.len()
            &&& d.subrange(1, 17) == e.token
            &&& d.subrange(17, 33) == e.acks[i].0.device
            &&& d.subrange(33, 49) == e.acks[i].0.app_id
            &&& proto::decoded(d.skip(49)) matches Some(pkt) && pkt.typ == T_ACK && pkt.msg_id == 0
                && proto::ack_of(pkt.body) == Some(e.acks[i].1)
        }),
        sync::flush_state(e, now).acks.len() == 0,
{
    let body = codec::be_bytes(e.acks[i].1 as nat, 8);
    let pkt = PacketView { typ: T_ACK, msg_id: 0, body };
    codec::lemma_be_u64(e.acks[i].1);
    proto::packet_round_trip(pkt);
    let n = sync::queue_datagrams(e.token, e.pending, now).len();
    let d = sync::flush_datagrams(e, now)[n + i];
    assert(d == sync::ack_datagrams(e.token, e.acks)[i]);
    assert(d.subrange(1, 17) =~= e.token);
    assert(d.subrange(17, 33) =~= e.acks[i].0.device);
    assert(d.subrange(33, 49) =~= e.acks[i].0.app_id);
    assert(d.skip(49) =~= proto::encoded(pkt));
}

/// Times at least [`RETRY`] apart.
pub open spec fn spaced(times: Seq<u64>) -> bool {
    forall|i: int| 0 <= i < times.len() - 1 ==> #[trigger] times[i] + RETRY <= times[i + 1]
}

/// A message that is not confirmed is repeated at every flush that is long enough
/// after the one before, until it has been sent sixteen times.
pub proof fn retries_are_made(p: PendingView, times: Seq<u64>)
    requires
        p.tries <= 16,
        spaced(times),
        times.len() > 0 ==> (p.last matches Some(t) ==> t + RETRY <= times[0]),
    ensures
        sync::times_sent(p, times) == if times.len() < 16 - p.tries {
            times.len() as int
        } else {
            16 - p.tries
        },
    decreases times.len(),
{
    if times.len() > 0 && p.tries < 16 {
        let q = sync::flushed(p, times[0])->0;
        let rest = times.drop_first();
        assert forall|i: int| 0 <= i < rest.len() - 1 implies #[trigger] rest[i] + RETRY
            <= rest[i + 1] by {
            assert(times[i + 1] + RETRY <= times[i + 2]);
        }
        if rest.len() > 0 {
            assert(times[0] + RETRY <= times[1]);
        }
        retries_are_made(q, rest);
    }
}

/// A slice is taken for what it says or not at all: one of a blob over the cap, one
/// that reaches over the end of the blob, and one that says another size than the
/// slices before it, change nothing. Any other is written where it says, over what
/// came before, and nothing else of the blob changes.
pub proof fn a_slice_lands_where_it_says(
    e: EngineView,
    hash: Seq<u8>,
    total: u64,
    offset: u64,
    data: Seq<u8>,
)
    requires
        sync::valid(e),
    ensures
        ({
            let (after, whole) = sync::assembled(e, hash, total, offset, data);
            let known = e.incoming.dom().contains(hash);
            let odd = total > 32 * 1024 * 1024 || offset + data.len() > total || (known
                && e.incoming[hash].total != total);
            &&& odd ==> after == e && whole is None
            &&& !odd ==> {
                let buf = match whole {
                    Some(b) => b,
                    None => after.incoming[hash].buf,
                };
                &&& whole is None ==> after.incoming.dom().contains(hash)
                    && after.incoming[hash].total == total && after.incoming[hash].got.contains(offset)
                &&& whole is Some ==> !after.incoming.dom().contains(hash)
                &&& buf.len() == total
                &&& forall|i: int| 0 <= i < data.len() ==> #[trigger] data[i] == buf[offset + i]
                &&& forall|x: int|
                    0 <= x < total && !(offset <= x < offset + data.len()) ==> #[trigger] buf[x]
                        == if known {
                        e.incoming[hash].buf[x]
                    } else {
                        0u8
                    }
                &&& forall|h: Seq<u8>|
                    h != hash ==> (#[trigger] after.incoming.dom().contains(h)
                        == e.incoming.dom().contains(h)) && after.incoming[h] == e.incoming[h]
            }
            &&& after.missing == e.missing && after.pending == e.pending && after.acks == e.acks
        }),
{
}

/// What a tick puts in the queue. The index is announced, whole and to every peer,
/// if the app is approved and the generation was not announced before, at every
/// sixteenth tick; and, announced before or not, after a change or when it was
/// invalidated. It is not announced while the app is not approved, nor at other
/// ticks. Up to four missing blobs are then asked for, at every tick.
pub proof fn what_a_tick_queues(
    e: EngineView,
    replica: Seq<u8>,
    gen: u64,
    recs: Seq<RecView>,
    ticks: u64,
    changed: bool,
)
    requires
        sync::valid(e),
        e.next_msg + sync::to_peers(e.peers, sync::index_packets(replica, gen, recs)).len()
            + sync::wants(sync::requested(e), e.peers).len() <= u64::MAX,
    ensures
        ({
            let after = sync::ticked(e, replica, gen, recs, ticks, changed);
            let index = sync::to_peers(e.peers, sync::index_packets(replica, gen, recs));
            let asked = sync::wants(sync::requested(e), e.peers);
            let quiet = e.pending + sync::waiting_from(e.next_msg, asked);
            let loud = e.pending + sync::waiting_from(e.next_msg, index + asked);
            &&& e.approved && e.peers.len() > 0 && gen > 0 && (changed || (e.forced
                && e.last_index_sent == 0)) ==> after.pending == loud
            &&& e.approved && e.peers.len() > 0 && ticks % 16 == 0 && !changed && e.last_index_sent
                != gen ==> after.pending == loud
            &&& !e.approved ==> after.pending == quiet
            &&& !changed && !e.forced && ticks % 16 != 0 ==> after.pending == quiet
            &&& !changed && e.last_index_sent == gen ==> after.pending == quiet
            &&& e.peers.len() == 0 ==> after.pending == e.pending
            &&& !after.forced
            &&& after.acks == e.acks && after.missing == e.missing && after.peers == e.peers
        }),
{
    let index = sync::to_peers(e.peers, sync::index_packets(replica, gen, recs));
    let asked = sync::wants(sync::requested(e), e.peers);
    let e1 = if changed {
        sync::invalidated(e)
    } else {
        e
    };
    sync::lemma_enqueue_frame(e1, index);
    sync::ids_are_given_in_turn(e1, index);
    sync::requests_are_distinct(e);
    let e2 = if e1.approved && (e1.forced || ticks % 16 == 0) {
        sync::index_announced(e1, replica, gen, recs)
    } else {
        e1
    };
    let e3 = EngineView { forced: false, ..e2 };
    assert(sync::valid(e3));
    assert(sync::requested(e3) == sync::requested(e));
    sync::lemma_enqueue_frame(e3, asked);
    sync::ids_are_given_in_turn(e3, asked);
    assert(sync::waiting_from(e.next_msg, index + asked) =~= sync::waiting_from(
        e.next_msg,
        index,
    ) + sync::waiting_from((e.next_msg + index.len()) as u64, asked));
    assert(e.pending + sync::waiting_from(e.next_msg, index + asked) =~= e.pending
        + sync::waiting_from(e.next_msg, index) + sync::waiting_from(
        (e.next_msg + index.len()) as u64,
        asked,
    ));
    if e.peers.len() == 0 {
        assert(sync::requested(e).len() * e.peers.len() == 0) by (nonlinear_arith)
            requires
                e.peers.len() == 0,
        ;
        assert(asked =~= Seq::empty());
        assert(sync::waiting_from(e.next_msg, asked) =~= Seq::empty());
        assert(e.pending + sync::waiting_from(e.next_msg, asked) =~= e.pending);
    }
}

/// A blob is whole as soon as every slice of it has arrived, and not before: the
/// slices start at the multiples of 2048.
pub proof fn a_blob_is_whole_when_every_slice_is_there(
    e: EngineView,
    hash: Seq<u8>,
    total: u64,
    offset: u64,
    data: Seq<u8>,
)
    requires
        total <= 32 * 1024 * 1024,
        offset + data.len() <= total,
        e.incoming.dom().contains(hash) ==> e.incoming[hash].total == total,
    ensures
        ({
            let (after, whole) = sync::assembled(e, hash, total, offset, data);
            let known = e.incoming.dom().contains(hash);
            &&& whole is Some <==> forall|o: u64|
                o < total && #[trigger] (o as int % 2048) == 0 ==> o == offset || (known
                    && e.incoming[hash].got.contains(o))
            &&& whole is None ==> forall|o: u64| #[trigger]
                after.incoming[hash].got.contains(o) <==> o == offset || (known
                    && e.incoming[hash].got.contains(o))
        }),
{
    let slot = sync::progress(e, hash, total);
    let got = slot.got.insert(offset);
    if sync::covered(got, total) {
        assert forall|o: u64| o < total && #[trigger] (o as int % 2048) == 0 implies got.contains(
            o,
        ) by {
            let i = o as int / 2048;
            assert(i * CHUNK_SIZE == o);
            assert(sync::offset_of(i) == o);
        }
    }
    if forall|o: u64|
        o < total && #[trigger] (o as int % 2048) == 0 ==> o == offset || (
        e.incoming.dom().contains(hash) && e.incoming[hash].got.contains(o)) {
        assert forall|i: int| 0 <= i && i * CHUNK_SIZE < total implies got.contains(
            #[trigger] sync::offset_of(i),
        ) by {
            let o = sync::offset_of(i);
            assert(o as int % 2048 == 0);
        }
    }
}

/// A blob that arrived is no longer missing if it is the one that was asked for;
/// another one under its name changes nothing.
pub proof fn only_the_right_blob_is_no_longer_missing(
    e: EngineView,
    hash: Seq<u8>,
    digest: Seq<u8>,
    h: Seq<u8>,
)
    ensures
        ({
            let after = sync::digest_noted(e, hash, digest);
            &&& digest != hash ==> after == e
            &&& digest == hash ==> !after.missing.contains(hash)
            &&& h != hash ==> (after.missing.contains(h) <==> e.missing.contains(h))
            &&& after.pending == e.pending && after.incoming == e.incoming && after.acks == e.acks
        }),
{
    taking_out_a_hash(e.missing, hash);
}

/// What was assembled is weighed by the hash of its bytes.
pub proof fn a_whole_blob_is_weighed_by_its_hash(
    e: EngineView,
    hash: Seq<u8>,
    total: u64,
    offset: u64,
    data: Seq<u8>,
)
    ensures
        ({
            let (mid, whole) = sync::assembled(e, hash, total, offset, data);
            let (after, result) = sync::received(e, hash, total, offset, data);
            &&& result == whole
            &&& after.incoming == mid.incoming && after.pending == mid.pending && after.acks
                == mid.acks
            &&& whole matches Some(blob) ==> (store::sha256_of(blob) == hash
                ==> !after.missing.contains(hash))
            &&& whole matches Some(blob) ==> (store::sha256_of(blob) != hash ==> after.missing
                == e.missing)
            &&& whole is None ==> after.missing == e.missing
        }),
{
    taking_out_a_hash(e.missing, hash);
}

/// Four missing blobs are asked for at a time, those that are missing longest;
/// all, where there are no more.
pub proof fn the_longest_missing_are_asked_for(e: EngineView, i: int)
    requires
        0 <= i < sync::requested(e).len(),
    ensures
        sync::requested(e).len() <= 4,
        sync::requested(e).len() == 4 || sync::requested(e).len() == e.missing.len(),
        e.missing.len() >= 4 ==> sync::requested(e).len() == 4,
        sync::requested(e)[i] == e.missing[i],
{
}

/// A token of zeros is none, and every other one is one.
pub proof fn a_token_of_zeros_is_none(token: Seq<u8>)
    ensures
        sync::no_token(token) <==> token == Seq::new(token.len(), |i: int| 0u8),
{
    if sync::no_token(token) {
        assert(token =~= Seq::new(token.len(), |i: int| 0u8));
    }
}

} // verus!
