//! Peer sync: HELLO / INDEX / WANT / CHUNK with ACK + retry.

use std::collections::HashSet;
use vstd::prelude::*;
use vstd::slice::slice_subrange;
use vstd::utf8::*;

use crate::codec;
use crate::fabric;
use crate::fabric::{DirectoryView, Peer, PeerView};
use crate::proto;
use crate::proto::{CHUNK_SIZE, T_ACK, T_CHUNK, T_HELLO, T_INDEX, T_WANT};
use crate::proto::{Packet, PacketView};
use crate::store;
use crate::store::{FileRec, RecView, Store, MAX_FILE_BYTES};

verus! {

broadcast use vstd::std_specs::hash::group_hash_axioms;

/// How often a message is sent before it is given up.
pub const MAX_TRIES: u32 = 16;

/// Nanoseconds between two tries.
pub const RETRY: u64 = 400_000_000;

/// How many blobs are asked for at a time.
pub const MAX_WANTS: usize = 4;

/// A message that waits for its ACK.
struct Pending {
    id: u64,
    dest_device: [u8; 16],
    dest_app: [u8; 16],
    encoded: Vec<u8>,
    /// When it was last sent.
    last: Option<u64>,
    tries: u32,
}

/// What is known of a message that waits.
#[verifier::ext_equal]
pub struct PendingView {
    pub id: u64,
    pub dest_device: Seq<u8>,
    pub dest_app: Seq<u8>,
    pub encoded: Seq<u8>,
    pub last: Option<u64>,
    pub tries: u32,
}

impl View for Pending {
    type V = PendingView;

    closed spec fn view(&self) -> PendingView {
        PendingView {
            id: self.id,
            dest_device: self.dest_device@,
            dest_app: self.dest_app@,
            encoded: self.encoded@,
            last: self.last,
            tries: self.tries,
        }
    }
}

/// A blob that is coming in.
struct Incoming {
    hash: [u8; 32],
    total: u64,
    buf: Vec<u8>,
    got: HashSet<u64>,
}

/// How far a blob has come in: its size, its bytes so far, and the offsets of
/// the slices that have arrived.
#[verifier::ext_equal]
pub struct IncomingView {
    pub total: u64,
    pub buf: Seq<u8>,
    pub got: Set<u64>,
}

impl View for Incoming {
    type V = IncomingView;

    closed spec fn view(&self) -> IncomingView {
        IncomingView { total: self.total, buf: self.buf@, got: self.got@ }
    }
}

/// The state of the sync with the peers.
pub struct Engine {
    pub token: [u8; 16],
    pub app_id: [u8; 16],
    pub device_uuid: [u8; 16],
    pub approved: bool,
    pub peers: Vec<Peer>,
    next_msg: u64,
    pending: Vec<Pending>,
    incoming: Vec<Incoming>,
    /// Hashes we still need from the network.
    pub missing: Vec<[u8; 32]>,
    last_index_sent: u64,
    /// Whether the next tick announces the index whatever its number.
    forced: bool,
    /// Immediate ACKs to flush (not retried).
    acks: Vec<(Peer, u64)>,
}

/// The state of the sync, as values.
#[verifier::ext_equal]
pub struct EngineView {
    pub token: Seq<u8>,
    pub app_id: Seq<u8>,
    pub device_uuid: Seq<u8>,
    pub approved: bool,
    pub peers: Seq<PeerView>,
    pub next_msg: u64,
    pub pending: Seq<PendingView>,
    pub incoming: Map<Seq<u8>, IncomingView>,
    pub missing: Seq<Seq<u8>>,
    pub last_index_sent: u64,
    pub forced: bool,
    pub acks: Seq<(PeerView, u64)>,
}

/// The waiting messages of a list.
closed spec fn pending_views(v: Seq<Pending>) -> Seq<PendingView> {
    Seq::new(v.len(), |i: int| v[i]@)
}

/// The ACKs of a list.
pub open spec fn ack_views(v: Seq<(Peer, u64)>) -> Seq<(PeerView, u64)> {
    Seq::new(v.len(), |i: int| (v[i].0@, v[i].1))
}

/// Whether a blob with this hash is coming in.
closed spec fn comes_in(v: Seq<Incoming>, hash: Seq<u8>) -> bool {
    exists|i: int| 0 <= i < v.len() && #[trigger] v[i].hash@ == hash
}

/// Where a blob that is coming in stands in the list.
closed spec fn comes_at(v: Seq<Incoming>, hash: Seq<u8>) -> int {
    choose|i: int| 0 <= i < v.len() && #[trigger] v[i].hash@ == hash
}

/// The blobs that are coming in, by hash.
closed spec fn incoming_map(v: Seq<Incoming>) -> Map<Seq<u8>, IncomingView> {
    Map::new(|h: Seq<u8>| comes_in(v, h), |h: Seq<u8>| v[comes_at(v, h)]@)
}

/// No hash stands in the list twice.
closed spec fn one_each(v: Seq<Incoming>) -> bool {
    forall|i: int, j: int|
        0 <= i < j < v.len() ==> (#[trigger] v[i]).hash@ != (#[trigger] v[j]).hash@
}

impl View for Engine {
    type V = EngineView;

    closed spec fn view(&self) -> EngineView {
        EngineView {
            token: self.token@,
            app_id: self.app_id@,
            device_uuid: self.device_uuid@,
            approved: self.approved,
            peers: fabric::peer_views(self.peers@),
            next_msg: self.next_msg,
            pending: pending_views(self.pending@),
            incoming: incoming_map(self.incoming@),
            missing: store::hash_views(self.missing@),
            last_index_sent: self.last_index_sent,
            forced: self.forced,
            acks: ack_views(self.acks@),
        }
    }
}

/// What holds of the state at all times: the ids of waiting messages rise and lie
/// below the next one (but for the last there is), no message is tried too often,
/// what comes in is within the cap and in a buffer of its size, no hash is missing
/// twice.
pub open spec fn valid(e: EngineView) -> bool {
    &&& e.next_msg >= 1
    &&& forall|i: int, j: int|
        0 <= i < j < e.pending.len() ==> (#[trigger] e.pending[i]).id < (#[trigger] e.pending[j]).id
    &&& forall|i: int|
        0 <= i < e.pending.len() ==> (#[trigger] e.pending[i]).tries <= MAX_TRIES && (
        e.pending[i].id < e.next_msg || e.pending[i].id == e.next_msg == u64::MAX)
    &&& forall|h: Seq<u8>| #[trigger]
        e.incoming.dom().contains(h) ==> e.incoming[h].buf.len() == e.incoming[h].total
            && e.incoming[h].total <= MAX_FILE_BYTES
    &&& e.missing.no_duplicates()
}

/// A message as it waits under its id, not yet sent.
pub open spec fn waiting(id: u64, dest: PeerView, pkt: PacketView) -> PendingView {
    PendingView {
        id,
        dest_device: dest.device,
        dest_app: dest.app_id,
        encoded: proto::encoded(PacketView { msg_id: id, ..pkt }),
        last: None,
        tries: 0,
    }
}

/// The state after a message has been put in the queue.
pub open spec fn enqueued(e: EngineView, dest: PeerView, pkt: PacketView) -> EngineView {
    let id = e.next_msg;
    let kept = if e.pending.len() > 0 && e.pending.last().id == id {
        e.pending.drop_last()
    } else {
        e.pending
    };
    EngineView {
        next_msg: if id < u64::MAX {
            (id + 1) as u64
        } else {
            id
        },
        pending: kept.push(waiting(id, dest, pkt)),
        ..e
    }
}

/// The state after messages have been put in the queue one after the other.
pub open spec fn enqueue_all(e: EngineView, msgs: Seq<(PeerView, PacketView)>) -> EngineView
    decreases msgs.len(),
{
    if msgs.len() == 0 {
        e
    } else {
        enqueued(enqueue_all(e, msgs.drop_last()), msgs.last().0, msgs.last().1)
    }
}

/// Queueing in two goes.
pub proof fn lemma_enqueue_more(
    e: EngineView,
    a: Seq<(PeerView, PacketView)>,
    b: Seq<(PeerView, PacketView)>,
)
    ensures
        enqueue_all(e, a + b) == enqueue_all(enqueue_all(e, a), b),
    decreases b.len(),
{
    if b.len() == 0 {
        assert(a + b =~= a);
    } else {
        assert((a + b).drop_last() =~= a + b.drop_last());
        lemma_enqueue_more(e, a, b.drop_last());
    }
}

/// Queueing touches nothing but the queue.
pub proof fn lemma_enqueue_frame(e: EngineView, msgs: Seq<(PeerView, PacketView)>)
    ensures
        ({
            let q = enqueue_all(e, msgs);
            &&& q == EngineView { next_msg: q.next_msg, pending: q.pending, ..e }
            &&& valid(e) ==> valid(q)
        }),
    decreases msgs.len(),
{
    if msgs.len() > 0 {
        lemma_enqueue_frame(e, msgs.drop_last());
        if valid(e) {
            lemma_enqueued_valid(enqueue_all(e, msgs.drop_last()), msgs.last().0, msgs.last().1);
        }
    }
}

proof fn lemma_enqueued_valid(e: EngineView, dest: PeerView, pkt: PacketView)
    requires
        valid(e),
    ensures
        valid(enqueued(e, dest, pkt)),
{
    let q = enqueued(e, dest, pkt);
    let n = q.pending.len() - 1;
    assert forall|i: int, j: int| 0 <= i < j < q.pending.len() implies (#[trigger] q.pending[i]).id
        < (#[trigger] q.pending[j]).id by {
        assert(q.pending[i] == e.pending[i]);
        if j < n {
            assert(q.pending[j] == e.pending[j]);
        } else if i < e.pending.len() - 1 {
            assert(e.pending[i].id < e.pending[e.pending.len() - 1].id);
        }
    }
}

/// The state with the index to be announced again at the next tick.
pub open spec fn invalidated(e: EngineView) -> EngineView {
    EngineView { last_index_sent: 0, forced: true, ..e }
}

/// Validity rests on the queue, on what comes in, and on what is missing.
proof fn lemma_valid_frame(a: EngineView, b: EngineView)
    requires
        valid(a),
        b.next_msg == a.next_msg,
        b.pending == a.pending,
        b.incoming == a.incoming,
        b.missing.no_duplicates(),
    ensures
        valid(b),
{
}

/// A well-formed engine is in a valid state.
pub proof fn wf_is_valid(e: &Engine)
    requires
        e.wf(),
    ensures
        valid(e@),
{
}

impl Engine {
    /// The state is valid, and no blob comes in twice.
    pub closed spec fn wf(self) -> bool {
        valid(self@) && one_each(self.incoming@)
    }

    /// Force the next tick to re-broadcast INDEX (after a local web write).
    pub fn invalidate_index(&mut self)
        requires
            old(self).wf(),
        ensures
            final(self).wf(),
            final(self)@ == invalidated(old(self)@),
    {
        self.last_index_sent = 0;
        self.forced = true;
        proof {
            lemma_valid_frame(old(self)@, self@);
        }
    }

    pub fn new(token: [u8; 16]) -> (e: Self)
        ensures
            e.wf(),
            e@ == (EngineView {
                token: token@,
                app_id: Seq::new(16, |i: int| 0u8),
                device_uuid: Seq::new(16, |i: int| 0u8),
                approved: false,
                peers: Seq::empty(),
                next_msg: 1,
                pending: Seq::empty(),
                incoming: Map::empty(),
                missing: Seq::empty(),
                last_index_sent: 0,
                forced: false,
                acks: Seq::empty(),
            }),
    {
        let e = Engine {
            token,
            app_id: [0u8; 16],
            device_uuid: [0u8; 16],
            approved: false,
            peers: Vec::new(),
            next_msg: 1,
            pending: Vec::new(),
            incoming: Vec::new(),
            missing: Vec::new(),
            last_index_sent: 0,
            forced: false,
            acks: Vec::new(),
        };
        assert(e@.app_id =~= Seq::new(16, |i: int| 0u8));
        assert(e@.device_uuid =~= Seq::new(16, |i: int| 0u8));
        assert(e@.peers =~= Seq::empty());
        assert(e@.pending =~= Seq::empty());
        assert(e@.incoming =~= Map::empty());
        assert(e@.missing =~= Seq::empty());
        assert(e@.acks =~= Seq::empty());
        e
    }

    /// Takes over what a directory reply says; refuses one that cannot be read.
    pub fn refresh_dir(&mut self, raw: &[u8], alias: &str) -> (r: Result<(), String>)
        requires
            old(self).wf(),
        ensures
            final(self).wf(),
            match (r, fabric::directory_of(raw@, alias@)) {
                (Ok(()), Some(d)) => final(self)@ == (EngineView {
                    app_id: d.app_id,
                    device_uuid: d.device_uuid,
                    approved: d.approved,
                    peers: d.peers,
                    ..old(self)@
                }),
                (Err(msg), None) => msg@ == "bad directory"@ && final(self)@ == old(self)@,
                _ => false,
            },
    {
        match fabric::parse_directory(raw, alias) {
            Some(dir) => {
                self.app_id = dir.app_id;
                self.device_uuid = dir.device_uuid;
                self.approved = dir.approved;
                self.peers = dir.peers;
                Ok(())
            },
            None => Err("bad directory".to_owned()),
        }
    }

    /// Puts a message for a peer in the queue, under the next id.
    pub fn enqueue(&mut self, dest: &Peer, pkt: Packet)
        requires
            old(self).wf(),
        ensures
            final(self).wf(),
            final(self)@ == enqueued(old(self)@, dest@, pkt@),
    {
        let mut pkt = pkt;
        let id: u64 = self.next_msg;
        proof {
            lemma_enqueued_valid(self@, dest@, pkt@);
        }
        self.next_msg = self.next_msg.saturating_add(1);
        pkt.msg_id = id;
        let encoded = proto::encode(&pkt);
        let ghost before = pending_views(self.pending@);
        let n: usize = self.pending.len();
        if n > 0 && self.pending[n - 1].id == id {
            let _ = self.pending.pop();
            assert(pending_views(self.pending@) =~= before.drop_last());
        }
        let ghost kept = pending_views(self.pending@);
        let p = Pending {
            id,
            dest_device: dest.device,
            dest_app: dest.app_id,
            encoded,
            last: None,
            tries: 0,
        };
        let ghost pv = p@;
        self.pending.push(p);
        assert(pending_views(self.pending@) =~= kept.push(pv));
    }
}

/// Packets of a list.
pub open spec fn packet_views(v: Seq<Packet>) -> Seq<PacketView> {
    Seq::new(v.len(), |i: int| v[i]@)
}

/// Packets for one peer.
pub open spec fn to_peer(peer: PeerView, pkts: Seq<PacketView>) -> Seq<(PeerView, PacketView)> {
    Seq::new(pkts.len(), |i: int| (peer, pkts[i]))
}

/// Packets for each of the peers, one peer after the other.
pub open spec fn to_peers(peers: Seq<PeerView>, pkts: Seq<PacketView>) -> Seq<
    (PeerView, PacketView),
>
    decreases peers.len(),
{
    if peers.len() == 0 {
        Seq::empty()
    } else {
        to_peers(peers.drop_last(), pkts) + to_peer(peers.last(), pkts)
    }
}

/// The packets that announce an index: HELLO, then the INDEX parts.
pub open spec fn index_packets(replica: Seq<u8>, gen: u64, recs: Seq<RecView>) -> Seq<PacketView> {
    let bodies = proto::index_bodies(gen, recs);
    seq![
        PacketView { typ: T_HELLO, msg_id: 0, body: proto::hello_body(replica, gen) },
    ] + Seq::new(bodies.len(), |i: int| PacketView { typ: T_INDEX, msg_id: 0, body: bodies[i] })
}

/// A WANT for each hash to each peer, one hash after the other.
pub open spec fn wants(hashes: Seq<Seq<u8>>, peers: Seq<PeerView>) -> Seq<(PeerView, PacketView)>
    decreases hashes.len(),
{
    if hashes.len() == 0 {
        Seq::empty()
    } else {
        wants(hashes.drop_last(), peers) + to_peers(
            peers,
            seq![PacketView { typ: T_WANT, msg_id: 0, body: hashes.last() }],
        )
    }
}

/// How many slices a blob is cut into.
pub open spec fn chunk_count(len: nat) -> nat {
    if len == 0 {
        1
    } else {
        ((len + CHUNK_SIZE - 1) / CHUNK_SIZE as int) as nat
    }
}

/// The `i`-th slice of a blob.
pub open spec fn slice_of(data: Seq<u8>, i: int) -> Seq<u8> {
    let start = i * CHUNK_SIZE;
    data.subrange(
        start,
        if start + CHUNK_SIZE < data.len() {
            start + CHUNK_SIZE
        } else {
            data.len() as int
        },
    )
}

/// The CHUNK packets that carry a blob.
pub open spec fn chunk_packets(hash: Seq<u8>, data: Seq<u8>) -> Seq<PacketView> {
    Seq::new(
        chunk_count(data.len()),
        |i: int|
            PacketView {
                typ: T_CHUNK,
                msg_id: 0,
                body: proto::chunk_body(
                    hash,
                    data.len() as u64,
                    (i * CHUNK_SIZE) as u64,
                    slice_of(data, i),
                ),
            },
    )
}

/// The first peer with the given app id.
pub open spec fn peer_of(peers: Seq<PeerView>, app_id: Seq<u8>) -> Option<PeerView>
    decreases peers.len(),
{
    if peers.len() == 0 {
        None
    } else if peers[0].app_id == app_id {
        Some(peers[0])
    } else {
        peer_of(peers.drop_first(), app_id)
    }
}

/// The state after an ACK has been noted for the sender of a message: messages
/// without an id and senders that are no peers get none.
pub open spec fn ack_noted(e: EngineView, sender: Seq<u8>, msg_id: u64) -> EngineView {
    match peer_of(e.peers, sender) {
        Some(peer) => if msg_id == 0 {
            e
        } else {
            EngineView { acks: e.acks.push((peer, msg_id)), ..e }
        },
        None => e,
    }
}

/// The state after the index has been announced to the peers, unless it already
/// was in this generation.
pub open spec fn index_announced(
    e: EngineView,
    replica: Seq<u8>,
    gen: u64,
    recs: Seq<RecView>,
) -> EngineView {
    if e.peers.len() == 0 || e.last_index_sent == gen {
        e
    } else {
        EngineView {
            last_index_sent: gen,
            ..enqueue_all(e, to_peers(e.peers, index_packets(replica, gen, recs)))
        }
    }
}

/// The hashes that are asked for next: the first of those that are missing.
pub open spec fn requested(e: EngineView) -> Seq<Seq<u8>> {
    if e.missing.len() > MAX_WANTS {
        e.missing.take(MAX_WANTS as int)
    } else {
        e.missing
    }
}

/// The state after the first missing blobs have been asked for.
pub open spec fn missing_requested(e: EngineView) -> EngineView {
    enqueue_all(e, wants(requested(e), e.peers))
}

/// The state after a blob has been sent off to the app that asked for it, if it
/// is a peer and the blob is within the cap.
pub open spec fn chunks_sent(
    e: EngineView,
    sender: Seq<u8>,
    hash: Seq<u8>,
    data: Seq<u8>,
) -> EngineView {
    match peer_of(e.peers, sender) {
        Some(peer) => if data.len() > MAX_FILE_BYTES {
            e
        } else {
            enqueue_all(e, to_peer(peer, chunk_packets(hash, data)))
        },
        None => e,
    }
}

impl Engine {
    /// Queues packets for one peer.
    fn enqueue_packets(&mut self, peer: &Peer, pkts: &Vec<Packet>)
        requires
            old(self).wf(),
        ensures
            final(self).wf(),
            final(self)@ == enqueue_all(old(self)@, to_peer(peer@, packet_views(pkts@))),
    {
        let ghost msgs = to_peer(peer@, packet_views(pkts@));
        let mut i: usize = 0;
        while i < pkts.len()
            invariant
                i <= pkts@.len() == msgs.len(),
                msgs == to_peer(peer@, packet_views(pkts@)),
                self.wf(),
                self@ == enqueue_all(old(self)@, msgs.take(i as int)),
            decreases pkts@.len() - i,
        {
            self.enqueue(peer, pkts[i].clone());
            assert(msgs.take(i + 1).drop_last() =~= msgs.take(i as int));
            i += 1;
        }
        assert(msgs.take(msgs.len() as int) =~= msgs);
    }

    /// Queues packets for each of the peers.
    fn enqueue_to_all(&mut self, peers: &Vec<Peer>, pkts: &Vec<Packet>)
        requires
            old(self).wf(),
        ensures
            final(self).wf(),
            final(self)@ == enqueue_all(
                old(self)@,
                to_peers(fabric::peer_views(peers@), packet_views(pkts@)),
            ),
    {
        let ghost all = fabric::peer_views(peers@);
        let ghost pv = packet_views(pkts@);
        let mut i: usize = 0;
        while i < peers.len()
            invariant
                i <= peers@.len(),
                all == fabric::peer_views(peers@),
                pv == packet_views(pkts@),
                self.wf(),
                self@ == enqueue_all(old(self)@, to_peers(all.take(i as int), pv)),
            decreases peers@.len() - i,
        {
            proof {
                assert(all.take(i + 1).drop_last() =~= all.take(i as int));
                lemma_enqueue_more(
                    old(self)@,
                    to_peers(all.take(i as int), pv),
                    to_peer(all[i as int], pv),
                );
            }
            self.enqueue_packets(&peers[i], pkts);
            i += 1;
        }
        assert(all.take(all.len() as int) =~= all);
    }

    fn peer_for_app(&self, app_id: &[u8; 16]) -> (r: Option<Peer>)
        ensures
            match r {
                Some(p) => peer_of(self@.peers, app_id@) == Some(p@),
                None => peer_of(self@.peers, app_id@) is None,
            },
    {
        let ghost all = fabric::peer_views(self.peers@);
        let mut i: usize = 0;
        assert(all.skip(0) =~= all);
        while i < self.peers.len()
            invariant
                i <= self.peers@.len(),
                all == fabric::peer_views(self.peers@),
                peer_of(all.skip(i as int), app_id@) == peer_of(all, app_id@),
            decreases self.peers@.len() - i,
        {
            proof {
                assert(all.skip(i as int)[0] == self.peers@[i as int]@);
                assert(all.skip(i as int).drop_first() =~= all.skip(i + 1));
            }
            if codec::bytes_eq(self.peers[i].app_id.as_slice(), app_id.as_slice()) {
                return Some(self.peers[i].clone());
            }
            i += 1;
        }
        None
    }

    fn queue_ack(&mut self, sender_app: &[u8; 16], msg_id: u64)
        requires
            old(self).wf(),
        ensures
            final(self).wf(),
            final(self)@ == ack_noted(old(self)@, sender_app@, msg_id),
    {
        if msg_id == 0 {
            return;
        }
        if let Some(peer) = self.peer_for_app(sender_app) {
            let ghost before = ack_views(self.acks@);
            let ghost pv = peer@;
            self.acks.push((peer, msg_id));
            assert(ack_views(self.acks@) =~= before.push((pv, msg_id)));
            proof {
                lemma_valid_frame(old(self)@, self@);
            }
        }
    }

    /// Announces the index to the peers, unless it already was in this
    /// generation.
    pub fn broadcast_index(&mut self, store: &Store)
        requires
            old(self).wf(),
        ensures
            final(self).wf(),
            final(self)@ == index_announced(
                old(self)@,
                store.replica_id@,
                store.gen,
                store::entry_recs(store.files.seq()),
            ),
    {
        if self.peers.len() == 0 {
            return;
        }
        if self.last_index_sent == store.gen {
            return;
        }
        let recs = store.records();
        let bodies = proto::encode_index(store.gen, recs.as_slice());
        let mut pkts: Vec<Packet> = Vec::new();
        pkts.push(proto::hello(&store.replica_id, store.gen));
        let ghost want = index_packets(store.replica_id@, store.gen, store::rec_views(recs@));
        let mut i: usize = 0;
        while i < bodies.len()
            invariant
                i <= bodies@.len(),
                pkts@.len() == i + 1,
                proto::byte_views(bodies@) == proto::index_bodies(
                    store.gen,
                    store::rec_views(recs@),
                ),
                want == index_packets(store.replica_id@, store.gen, store::rec_views(recs@)),
                want.len() == bodies@.len() + 1,
                forall|j: int| 0 <= j <= i ==> (#[trigger] pkts@[j])@ == want[j],
            decreases bodies@.len() - i,
        {
            let body = codec::tail_vec(bodies[i].as_slice(), 0);
            assert(proto::byte_views(bodies@)[i as int] == bodies@[i as int]@);
            assert(body@ =~= bodies@[i as int]@);
            let p = Packet { typ: T_INDEX, msg_id: 0, body };
            assert(p@ == want[i + 1]);
            pkts.push(p);
            i += 1;
        }
        assert(packet_views(pkts@) =~= want);
        let peers = fabric::clone_peers(&self.peers);
        self.enqueue_to_all(&peers, &pkts);
        let ghost queued = self@;
        self.last_index_sent = store.gen;
        proof {
            lemma_valid_frame(queued, self@);
        }
    }

    /// Asks every peer for the first missing blobs.
    pub fn request_missing(&mut self)
        requires
            old(self).wf(),
        ensures
            final(self).wf(),
            final(self)@ == missing_requested(old(self)@),
            requested(old(self)@).no_duplicates(),
            final(self)@.missing == old(self)@.missing,
            final(self)@.peers == old(self)@.peers,
    {
        let ghost start = self@;
        let mut n: usize = self.missing.len();
        if n > MAX_WANTS {
            n = MAX_WANTS;
        }
        let ghost hashes = requested(start);
        let peers = fabric::clone_peers(&self.peers);
        let mut i: usize = 0;
        while i < n
            invariant
                i <= n == hashes.len(),
                n <= start.missing.len(),
                start == old(self)@,
                forall|j: int| 0 <= j < n ==> #[trigger] hashes[j] == start.missing[j],
                fabric::peer_views(peers@) == start.peers,
                self.wf(),
                self@ == enqueue_all(start, wants(hashes.take(i as int), start.peers)),
                self@.missing == start.missing,
            decreases n - i,
        {
            let h: [u8; 32] = self.missing[i];
            let mut pkts: Vec<Packet> = Vec::new();
            pkts.push(proto::want(&h));
            let ghost more = seq![PacketView { typ: T_WANT, msg_id: 0, body: hashes[i as int] }];
            proof {
                assert(self@.missing[i as int] == h@);
                assert(packet_views(pkts@) =~= more);
                assert(hashes.take(i + 1).drop_last() =~= hashes.take(i as int));
                lemma_enqueue_more(
                    start,
                    wants(hashes.take(i as int), start.peers),
                    to_peers(start.peers, more),
                );
                lemma_enqueue_frame(self@, to_peers(start.peers, more));
            }
            self.enqueue_to_all(&peers, &pkts);
            i += 1;
        }
        proof {
            assert(hashes.take(hashes.len() as int) =~= hashes);
            lemma_enqueue_frame(start, wants(hashes, start.peers));
        }
    }

    /// Queues the slices of a blob for the app that asked for it.
    pub fn send_chunks(&mut self, sender_app: [u8; 16], hash: [u8; 32], data: &[u8])
        requires
            old(self).wf(),
        ensures
            final(self).wf(),
            final(self)@ == chunks_sent(old(self)@, sender_app@, hash@, data@),
    {
        let peer = match self.peer_for_app(&sender_app) {
            Some(p) => p,
            None => {
                return;
            },
        };
        if data.len() as u64 > MAX_FILE_BYTES {
            return;
        }
        let total: u64 = data.len() as u64;
        let ghost start = self@;
        let ghost msgs = to_peer(peer@, chunk_packets(hash@, data@));
        if data.len() == 0 {
            self.enqueue(&peer, proto::chunk(&hash, 0, 0, data));
            proof {
                assert(slice_of(data@, 0) =~= data@);
                assert(msgs.last() == (peer@, chunk_packets(hash@, data@)[0]));
                assert(enqueue_all(start, msgs.drop_last()) == start);
            }
            return;
        }
        let mut off: usize = 0;
        let ghost mut k: int = 0;
        while off < data.len()
            invariant
                off <= data.len() <= MAX_FILE_BYTES,
                total == data.len(),
                data.len() > 0,
                0 <= k,
                off < data.len() ==> off == k * CHUNK_SIZE,
                k > 0 ==> (k - 1) * CHUNK_SIZE < data.len(),
                off == data.len() ==> k * CHUNK_SIZE >= data.len(),
                msgs == to_peer(peer@, chunk_packets(hash@, data@)),
                k <= msgs.len(),
                self.wf(),
                self@ == enqueue_all(start, msgs.take(k)),
            decreases data.len() - off,
        {
            let end: usize = if data.len() - off > CHUNK_SIZE {
                off + CHUNK_SIZE
            } else {
                data.len()
            };
            assert(k < msgs.len());
            let piece = slice_subrange(data, off, end);
            assert(piece@ =~= slice_of(data@, k));
            self.enqueue(&peer, proto::chunk(&hash, total, off as u64, piece));
            assert(msgs.take(k + 1).drop_last() =~= msgs.take(k));
            off = end;
            proof {
                k = k + 1;
            }
        }
        assert(k == msgs.len());
        assert(msgs.take(k) =~= msgs);
    }
}

/// The offset of the `i`-th slice.
pub open spec fn offset_of(i: int) -> u64 {
    (i * CHUNK_SIZE) as u64
}

/// Whether the slices of a blob of this size have all arrived.
pub open spec fn covered(got: Set<u64>, total: u64) -> bool {
    forall|i: int| 0 <= i && i * CHUNK_SIZE < total ==> got.contains(#[trigger] offset_of(i))
}

/// `buf` with `data` written over it from `off` on.
pub open spec fn spliced(buf: Seq<u8>, off: int, data: Seq<u8>) -> Seq<u8> {
    Seq::new(
        buf.len(),
        |i: int|
            if off <= i < off + data.len() {
                data[i - off]
            } else {
                buf[i]
            },
    )
}

/// A blob of which nothing has arrived.
pub open spec fn nothing_yet(total: u64) -> IncomingView {
    IncomingView { total, buf: Seq::new(total as nat, |i: int| 0u8), got: Set::empty() }
}

/// How far a blob has come in; one that is new starts with nothing.
pub open spec fn progress(e: EngineView, hash: Seq<u8>, total: u64) -> IncomingView {
    if e.incoming.dom().contains(hash) {
        e.incoming[hash]
    } else {
        nothing_yet(total)
    }
}

/// The list without `h`.
pub open spec fn without_hash(list: Seq<Seq<u8>>, h: Seq<u8>) -> Seq<Seq<u8>>
    decreases list.len(),
{
    if list.len() == 0 {
        list
    } else {
        let before = without_hash(list.drop_last(), h);
        if list.last() == h {
            before
        } else {
            before.push(list.last())
        }
    }
}

/// The list with each of `more` in it once.
pub open spec fn with_hashes(list: Seq<Seq<u8>>, more: Seq<Seq<u8>>) -> Seq<Seq<u8>>
    decreases more.len(),
{
    if more.len() == 0 {
        list
    } else {
        store::with_hash(with_hashes(list, more.drop_last()), more.last())
    }
}

/// What comes of a slice before the blob is looked at: the state, and the whole
/// blob if it is now complete. A slice is ignored if the blob is over the cap, if
/// it does not lie within the blob, or if the size differs from that of the
/// slices before it.
pub open spec fn assembled(
    e: EngineView,
    hash: Seq<u8>,
    total: u64,
    offset: u64,
    data: Seq<u8>,
) -> (EngineView, Option<Seq<u8>>) {
    let slot = progress(e, hash, total);
    if total > MAX_FILE_BYTES || offset + data.len() > total || slot.total != total {
        (e, None)
    } else {
        let buf = spliced(slot.buf, offset as int, data);
        let got = slot.got.insert(offset);
        if covered(got, total) {
            (EngineView { incoming: e.incoming.remove(hash), ..e }, Some(buf))
        } else {
            (
                EngineView {
                    incoming: e.incoming.insert(hash, IncomingView { total, buf, got }),
                    ..e
                },
                None,
            )
        }
    }
}

/// The state after a complete blob turned out to have a digest: its hash is no
/// longer missing if that is what was asked for.
pub open spec fn digest_noted(e: EngineView, hash: Seq<u8>, digest: Seq<u8>) -> EngineView {
    EngineView {
        missing: if digest == hash {
            without_hash(e.missing, hash)
        } else {
            e.missing
        },
        ..e
    }
}

/// What comes of a slice of a blob: the state, and the whole blob if it is now
/// complete. A blob that is not what its hash names is still missing.
pub open spec fn received(
    e: EngineView,
    hash: Seq<u8>,
    total: u64,
    offset: u64,
    data: Seq<u8>,
) -> (EngineView, Option<Seq<u8>>) {
    let (after, whole) = assembled(e, hash, total, offset, data);
    match whole {
        Some(blob) => (digest_noted(after, hash, store::sha256_of(blob)), whole),
        None => (after, whole),
    }
}

/// A list without duplicates has none with one more hash in it once.
proof fn lemma_with_hash(list: Seq<Seq<u8>>, h: Seq<u8>)
    requires
        list.no_duplicates(),
    ensures
        store::with_hash(list, h).no_duplicates(),
{
    let w = store::with_hash(list, h);
    assert forall|i: int, j: int| 0 <= i < w.len() && 0 <= j < w.len() && i != j implies w[i]
        != w[j] by {
        if i < list.len() && j < list.len() {
            assert(list[i] != list[j]);
        } else if i < list.len() {
            assert(list.contains(list[i]));
        } else {
            assert(list.contains(list[j]));
        }
    }
}

/// Taking out a hash leaves the others, each as often as it was there.
proof fn lemma_without_hash(list: Seq<Seq<u8>>, h: Seq<u8>)
    ensures
        forall|i: int|
            0 <= i < without_hash(list, h).len() ==> (#[trigger] without_hash(list, h)[i]) != h
                && list.contains(without_hash(list, h)[i]),
        list.no_duplicates() ==> without_hash(list, h).no_duplicates(),
    decreases list.len(),
{
    if list.len() > 0 {
        let init = list.drop_last();
        let last = list.last();
        lemma_without_hash(init, h);
        let w = without_hash(list, h);
        let b = without_hash(init, h);
        assert forall|i: int| 0 <= i < w.len() implies (#[trigger] w[i]) != h && list.contains(
            w[i],
        ) by {
            if i < b.len() {
                assert(w[i] == b[i]);
                let k = choose|k: int| 0 <= k < init.len() && init[k] == b[i];
                assert(list[k] == w[i]);
            } else {
                assert(list[list.len() - 1] == w[i]);
            }
        }
        if list.no_duplicates() {
            assert forall|i: int, j: int| 0 <= i < init.len() && 0 <= j < init.len() && i != j
                implies init[i] != init[j] by {
                assert(list[i] != list[j]);
            }
            assert forall|i: int, j: int| 0 <= i < w.len() && 0 <= j < w.len() && i != j implies w[i]
                != w[j] by {
                let x = if i < j { i } else { j };
                assert(w[x] == b[x]);
                if i < b.len() && j < b.len() {
                    assert(b[i] != b[j]);
                } else {
                    let k = choose|k: int| 0 <= k < init.len() && init[k] == b[x];
                    assert(list[k] != list[list.len() - 1]);
                }
            }
        }
    }
}

/// Waiting messages without the one of the given id.
pub open spec fn without_id(pending: Seq<PendingView>, id: u64) -> Seq<PendingView>
    decreases pending.len(),
{
    if pending.len() == 0 {
        pending
    } else {
        let before = without_id(pending.drop_last(), id);
        if pending.last().id == id {
            before
        } else {
            before.push(pending.last())
        }
    }
}

/// Taking out messages leaves some of those that were there.
proof fn lemma_without_id(pending: Seq<PendingView>, id: u64)
    ensures
        forall|i: int|
            0 <= i < without_id(pending, id).len() ==> (#[trigger] without_id(pending, id)[i]).id
                != id && pending.contains(without_id(pending, id)[i]),
        (forall|i: int| 0 <= i < pending.len() ==> (#[trigger] pending[i]).id != id)
            ==> without_id(pending, id) == pending,
    decreases pending.len(),
{
    if pending.len() > 0 {
        let init = pending.drop_last();
        lemma_without_id(init, id);
        let w = without_id(pending, id);
        let b = without_id(init, id);
        assert forall|i: int| 0 <= i < w.len() implies (#[trigger] w[i]).id != id
            && pending.contains(w[i]) by {
            if i < b.len() {
                assert(w[i] == b[i]);
                let k = choose|k: int| 0 <= k < init.len() && init[k] == b[i];
                assert(pending[k] == w[i]);
            } else {
                assert(pending[pending.len() - 1] == w[i]);
            }
        }
        if forall|i: int| 0 <= i < pending.len() ==> (#[trigger] pending[i]).id != id {
            assert forall|i: int| 0 <= i < init.len() implies (#[trigger] init[i]).id != id by {
                assert(init[i] == pending[i]);
            }
            assert(pending[pending.len() - 1].id != id);
            assert(init.push(pending.last()) =~= pending);
        }
    }
}

/// Ids that rise occur once, so one removal is enough.
proof fn lemma_without_one(pending: Seq<PendingView>, id: u64, at: int)
    requires
        0 <= at < pending.len(),
        pending[at].id == id,
        forall|i: int, j: int|
            0 <= i < j < pending.len() ==> (#[trigger] pending[i]).id < (#[trigger] pending[j]).id,
    ensures
        without_id(pending, id) == pending.remove(at),
    decreases pending.len(),
{
    let init = pending.drop_last();
    if at == pending.len() - 1 {
        assert forall|i: int| 0 <= i < init.len() implies (#[trigger] init[i]).id != id by {
            assert(pending[i].id < pending[at].id);
        }
        lemma_without_id(init, id);
        assert(pending.remove(at) =~= init);
    } else {
        assert forall|i: int, j: int| 0 <= i < j < init.len() implies (#[trigger] init[i]).id < (
        #[trigger] init[j]).id by {
            assert(pending[i].id < pending[j].id);
        }
        lemma_without_one(init, id, at);
        assert(pending[at].id < pending[pending.len() - 1].id);
        assert(pending.remove(at) =~= init.remove(at).push(pending.last()));
    }
}

/// What a packet asks of the caller.
#[derive(Debug, PartialEq, Eq)]
pub enum Action {
    Nothing,
    /// Merge these records into the index.
    Merge(Vec<FileRec>),
    /// Send the blob of this hash to the sender.
    Send([u8; 32]),
    /// Write this blob to the paths that name its hash.
    Install { hash: [u8; 32], data: Vec<u8> },
}

/// What an action says.
#[verifier::ext_equal]
pub enum ActionView {
    Nothing,
    Merge(Seq<RecView>),
    Send(Seq<u8>),
    Install { hash: Seq<u8>, data: Seq<u8> },
}

impl View for Action {
    type V = ActionView;

    open spec fn view(&self) -> ActionView {
        match self {
            Action::Nothing => ActionView::Nothing,
            Action::Merge(recs) => ActionView::Merge(store::rec_views(recs@)),
            Action::Send(hash) => ActionView::Send(hash@),
            Action::Install { hash, data } => ActionView::Install { hash: hash@, data: data@ },
        }
    }
}

/// What comes of a packet: the state, and what the caller has to do. But for ACKs,
/// a packet from an app that is no peer is ignored.
pub open spec fn handled(e: EngineView, sender: Seq<u8>, pkt: PacketView) -> (
    EngineView,
    ActionView,
) {
    if pkt.typ == T_ACK {
        (
            match proto::ack_of(pkt.body) {
                Some(id) => EngineView { pending: without_id(e.pending, id), ..e },
                None => e,
            },
            ActionView::Nothing,
        )
    } else if peer_of(e.peers, sender) is None {
        (e, ActionView::Nothing)
    } else if pkt.typ == T_HELLO {
        (ack_noted(e, sender, pkt.msg_id), ActionView::Nothing)
    } else if pkt.typ == T_INDEX {
        (
            ack_noted(e, sender, pkt.msg_id),
            match proto::index_of(pkt.body) {
                Some((_, _, _, recs)) => ActionView::Merge(recs),
                None => ActionView::Nothing,
            },
        )
    } else if pkt.typ == T_WANT {
        (
            ack_noted(e, sender, pkt.msg_id),
            match proto::want_of(pkt.body) {
                Some(hash) => ActionView::Send(hash),
                None => ActionView::Nothing,
            },
        )
    } else if pkt.typ == T_CHUNK {
        let noted = ack_noted(e, sender, pkt.msg_id);
        match proto::chunk_of(pkt.body) {
            Some((hash, total, offset, data)) => {
                let (after, whole) = received(noted, hash, total, offset, data);
                (
                    after,
                    match whole {
                        Some(blob) => ActionView::Install { hash, data: blob },
                        None => ActionView::Nothing,
                    },
                )
            },
            None => (noted, ActionView::Nothing),
        }
    } else {
        (e, ActionView::Nothing)
    }
}

/// An entry of the list is what the map holds.
proof fn lemma_incoming_at(v: Seq<Incoming>, i: int)
    requires
        one_each(v),
        0 <= i < v.len(),
    ensures
        comes_in(v, v[i].hash@),
        comes_at(v, v[i].hash@) == i,
        incoming_map(v).dom().contains(v[i].hash@),
        incoming_map(v)[v[i].hash@] == v[i]@,
{
    let h = v[i].hash@;
    assert(comes_in(v, h));
    let k = comes_at(v, h);
    assert(v[k].hash@ == v[i].hash@);
}

/// A new hash at the end of the list adds it to the map.
proof fn lemma_incoming_push(v: Seq<Incoming>, x: Incoming)
    requires
        one_each(v),
        !incoming_map(v).dom().contains(x.hash@),
    ensures
        one_each(v.push(x)),
        incoming_map(v.push(x)) == incoming_map(v).insert(x.hash@, x@),
{
    let w = v.push(x);
    assert forall|i: int, j: int| 0 <= i < j < w.len() implies (#[trigger] w[i]).hash@ != (
    #[trigger] w[j]).hash@ by {
        if j == v.len() {
            lemma_incoming_at(v, i);
        } else {
            assert(v[i].hash@ != v[j].hash@);
        }
    }
    let m = incoming_map(v).insert(x.hash@, x@);
    lemma_incoming_at(w, v.len() as int);
    assert forall|h: Seq<u8>| #[trigger] incoming_map(w).dom().contains(h) == m.dom().contains(h) by {
        if comes_in(w, h) {
            let i = comes_at(w, h);
            if i < v.len() {
                assert(v[i].hash@ == h);
            }
        }
        if comes_in(v, h) {
            assert(w[comes_at(v, h)].hash@ == h);
        }
    }
    assert forall|h: Seq<u8>| #[trigger] m.dom().contains(h) implies incoming_map(w)[h] == m[h] by {
        if h != x.hash@ {
            let i = comes_at(v, h);
            assert(w[i] == v[i]);
            lemma_incoming_at(w, i);
        }
    }
    assert(incoming_map(w) =~= m);
}

/// Taking an entry out takes its hash out of the map.
proof fn lemma_incoming_remove(v: Seq<Incoming>, at: int)
    requires
        one_each(v),
        0 <= at < v.len(),
    ensures
        one_each(v.update(at, v.last()).drop_last()),
        incoming_map(v.update(at, v.last()).drop_last()) == incoming_map(v).remove(v[at].hash@),
{
    let w = v.update(at, v.last()).drop_last();
    let n = v.len() - 1;
    assert forall|i: int, j: int| 0 <= i < j < w.len() implies (#[trigger] w[i]).hash@ != (
    #[trigger] w[j]).hash@ by {
        let i0 = if i == at { n } else { i };
        let j0 = if j == at { n } else { j };
        assert(w[i] == v[i0] && w[j] == v[j0]);
        if i0 < j0 {
            assert(v[i0].hash@ != v[j0].hash@);
        } else {
            assert(v[j0].hash@ != v[i0].hash@);
        }
    }
    let m = incoming_map(v).remove(v[at].hash@);
    assert forall|h: Seq<u8>| #[trigger] incoming_map(w).dom().contains(h) == m.dom().contains(h) by {
        if comes_in(w, h) {
            let i = comes_at(w, h);
            let i0 = if i == at { n } else { i };
            assert(w[i] == v[i0]);
            lemma_incoming_at(v, i0);
            lemma_incoming_at(v, at);
        }
        if comes_in(v, h) && h != v[at].hash@ {
            let i = comes_at(v, h);
            if i == n {
                assert(w[at].hash@ == h);
            } else {
                assert(w[i].hash@ == h);
            }
        }
    }
    assert forall|h: Seq<u8>| #[trigger] m.dom().contains(h) implies incoming_map(w)[h] == m[h] by {
        assert(incoming_map(w).dom().contains(h));
        let i = comes_at(w, h);
        let i0 = if i == at { n } else { i };
        assert(w[i] == v[i0]);
        lemma_incoming_at(v, i0);
    }
    assert(incoming_map(w) =~= m);
}

/// Writes `data` over `buf` from `off` on.
fn splice(buf: &mut Vec<u8>, off: usize, data: &[u8])
    requires
        off + data@.len() <= old(buf)@.len(),
    ensures
        final(buf)@ == spliced(old(buf)@, off as int, data@),
{
    let mut k: usize = 0;
    let ghost start = buf@;
    while k < data.len()
        invariant
            k <= data@.len(),
            buf.len() == start.len(),
            off + data@.len() <= buf.len(),
            forall|i: int|
                0 <= i < buf@.len() ==> #[trigger] buf@[i] == if off <= i < off + k {
                    data@[i - off]
                } else {
                    start[i]
                },
        decreases data@.len() - k,
    {
        buf[off + k] = data[k];
        k += 1;
    }
    assert(buf@ =~= spliced(start, off as int, data@));
}

/// Whether the slices of a blob of this size have all arrived.
fn all_slices(got: &HashSet<u64>, total: u64) -> (b: bool)
    requires
        total <= MAX_FILE_BYTES,
    ensures
        b == covered(got@, total),
{
    let mut o: u64 = 0;
    let ghost mut k: int = 0;
    while o < total
        invariant
            o <= total <= MAX_FILE_BYTES,
            0 <= k,
            o < total ==> o == k * CHUNK_SIZE,
            o == total ==> k * CHUNK_SIZE >= total,
            forall|i: int| 0 <= i < k ==> got@.contains(#[trigger] offset_of(i)),
        decreases total - o,
    {
        assert(offset_of(k) == o);
        if !got.contains(&o) {
            return false;
        }
        let left: u64 = total - o;
        let n: u64 = if left > CHUNK_SIZE as u64 {
            CHUNK_SIZE as u64
        } else {
            left
        };
        o = o + n;
        proof {
            k = k + 1;
        }
    }
    true
}

/// Takes a hash out of a list.
fn remove_hash(list: &mut Vec<[u8; 32]>, h: &[u8; 32])
    ensures
        store::hash_views(final(list)@) == without_hash(store::hash_views(old(list)@), h@),
{
    let ghost all = store::hash_views(list@);
    let mut kept: Vec<[u8; 32]> = Vec::new();
    let mut i: usize = 0;
    assert(store::hash_views(kept@) =~= without_hash(all.take(0), h@));
    while i < list.len()
        invariant
            i <= list@.len(),
            all == store::hash_views(list@),
            store::hash_views(kept@) == without_hash(all.take(i as int), h@),
        decreases list@.len() - i,
    {
        proof {
            assert(all.take(i + 1).drop_last() =~= all.take(i as int));
            assert(all.take(i + 1).last() == list@[i as int]@);
        }
        if !codec::bytes_eq(list[i].as_slice(), h.as_slice()) {
            let ghost before = store::hash_views(kept@);
            kept.push(list[i]);
            assert(store::hash_views(kept@) =~= before.push(list@[i as int]@));
        }
        i += 1;
    }
    assert(all.take(all.len() as int) =~= all);
    *list = kept;
}

impl Engine {
    /// Where a blob that is coming in stands.
    fn find_incoming(&self, hash: &[u8; 32]) -> (r: Option<usize>)
        ensures
            match r {
                Some(i) => i < self.incoming@.len() && self.incoming@[i as int].hash@ == hash@,
                None => !comes_in(self.incoming@, hash@),
            },
    {
        let mut i: usize = 0;
        while i < self.incoming.len()
            invariant
                i <= self.incoming@.len(),
                forall|j: int| 0 <= j < i ==> (#[trigger] self.incoming@[j]).hash@ != hash@,
            decreases self.incoming@.len() - i,
        {
            if codec::bytes_eq(self.incoming[i].hash.as_slice(), hash.as_slice()) {
                return Some(i);
            }
            i += 1;
        }
        None
    }

    /// Puts a slice of a blob in its place; gives the whole blob if it is now
    /// complete.
    pub fn assemble(&mut self, hash: &[u8; 32], total: u64, offset: u64, data: &[u8]) -> (r: Option<
        Vec<u8>,
    >)
        requires
            old(self).wf(),
        ensures
            final(self).wf(),
            final(self)@ == assembled(old(self)@, hash@, total, offset, data@).0,
            match r {
                Some(blob) => assembled(old(self)@, hash@, total, offset, data@).1 == Some(blob@),
                None => assembled(old(self)@, hash@, total, offset, data@).1 is None,
            },
    {
        if total > MAX_FILE_BYTES {
            return None;
        }
        if offset > total || data.len() as u64 > total - offset {
            return None;
        }
        let ghost before = self@;
        let ghost slot = progress(before, hash@, total);
        let mut entry = match self.find_incoming(hash) {
            Some(at) => {
                proof {
                    lemma_incoming_at(self.incoming@, at as int);
                    lemma_incoming_remove(self.incoming@, at as int);
                }
                if self.incoming[at].total != total {
                    return None;
                }
                self.incoming.swap_remove(at)
            },
            None => {
                assert(incoming_map(self.incoming@).remove(hash@) =~= incoming_map(
                    self.incoming@,
                ));
                let buf = vec![0u8; total as usize];
                assert(buf@ =~= Seq::new(total as nat, |i: int| 0u8));
                let e = Incoming { hash: *hash, total, buf, got: HashSet::new() };
                assert(e@ =~= nothing_yet(total));
                e
            },
        };
        assert(entry@ == slot);
        assert(entry.hash@ == hash@);
        let ghost rest = incoming_map(self.incoming@);
        assert(rest == before.incoming.remove(hash@));
        splice(&mut entry.buf, offset as usize, data);
        let _ = entry.got.insert(offset);
        if !all_slices(&entry.got, total) {
            proof {
                lemma_incoming_push(self.incoming@, entry);
                assert(before.incoming.remove(hash@).insert(hash@, entry@)
                    =~= before.incoming.insert(hash@, entry@));
            }
            self.incoming.push(entry);
            assert(self@ =~= assembled(before, hash@, total, offset, data@).0);
            return None;
        }
        assert(self@ =~= assembled(before, hash@, total, offset, data@).0);
        Some(entry.buf)
    }

    /// Notes the digest of a complete blob: its hash is no longer missing if that
    /// is what was asked for.
    pub fn note_digest(&mut self, hash: &[u8; 32], digest: &[u8; 32])
        requires
            old(self).wf(),
        ensures
            final(self).wf(),
            final(self)@ == digest_noted(old(self)@, hash@, digest@),
    {
        if codec::bytes_eq(digest.as_slice(), hash.as_slice()) {
            remove_hash(&mut self.missing, hash);
            proof {
                lemma_without_hash(old(self)@.missing, hash@);
                lemma_valid_frame(old(self)@, self@);
            }
        }
    }

    /// Takes in a slice of a blob; gives the whole blob if it is now complete.
    pub fn on_chunk(&mut self, hash: &[u8; 32], total: u64, offset: u64, data: &[u8]) -> (r: Option<
        Vec<u8>,
    >)
        requires
            old(self).wf(),
        ensures
            final(self).wf(),
            final(self)@ == received(old(self)@, hash@, total, offset, data@).0,
            match r {
                Some(blob) => received(old(self)@, hash@, total, offset, data@).1 == Some(blob@),
                None => received(old(self)@, hash@, total, offset, data@).1 is None,
            },
    {
        let blob = self.assemble(hash, total, offset, data)?;
        let digest = store::sha256(blob.as_slice());
        self.note_digest(hash, &digest);
        Some(blob)
    }

    /// Takes a confirmed message out of the queue.
    fn confirm(&mut self, id: u64)
        requires
            old(self).wf(),
        ensures
            final(self).wf(),
            final(self)@ == (EngineView {
                pending: without_id(old(self)@.pending, id),
                ..old(self)@
            }),
    {
        let ghost all = self@.pending;
        let mut i: usize = 0;
        while i < self.pending.len()
            invariant
                i <= self.pending@.len(),
                self.wf(),
                self@ == old(self)@,
                all == self@.pending,
                all == pending_views(self.pending@),
                forall|j: int| 0 <= j < i ==> (#[trigger] all[j]).id != id,
            decreases self.pending@.len() - i,
        {
            assert(all[i as int].id == self.pending@[i as int].id);
            if self.pending[i].id == id {
                proof {
                    lemma_without_one(all, id, i as int);
                }
                let _ = self.pending.remove(i);
                assert(pending_views(self.pending@) =~= all.remove(i as int));
                assert forall|a: int, b: int|
                    0 <= a < b < self@.pending.len() implies (#[trigger] self@.pending[a]).id < (
                #[trigger] self@.pending[b]).id by {
                    let a0 = if a < i { a } else { a + 1 };
                    let b0 = if b < i { b } else { b + 1 };
                    assert(all[a0].id < all[b0].id);
                }
                assert forall|a: int| 0 <= a < self@.pending.len() implies (
                #[trigger] self@.pending[a]).tries <= MAX_TRIES && (self@.pending[a].id
                    < self@.next_msg || self@.pending[a].id == self@.next_msg == u64::MAX) by {
                    let a0 = if a < i { a } else { a + 1 };
                    assert(all[a0] == self@.pending[a]);
                }
                assert(self@ =~= (EngineView { pending: without_id(all, id), ..old(self)@ }));
                return;
            }
            i += 1;
        }
        proof {
            lemma_without_id(all, id);
        }
    }

    /// Takes in a packet, and says what the caller has to do.
    pub fn on_packet(&mut self, sender_app: [u8; 16], pkt: Packet) -> (a: Action)
        requires
            old(self).wf(),
        ensures
            final(self).wf(),
            final(self)@ == handled(old(self)@, sender_app@, pkt@).0,
            a@ == handled(old(self)@, sender_app@, pkt@).1,
    {
        if pkt.typ == T_ACK {
            if let Some(id) = proto::parse_ack(pkt.body.as_slice()) {
                self.confirm(id);
            }
            return Action::Nothing;
        }
        if self.peer_for_app(&sender_app).is_none() {
            return Action::Nothing;
        }
        if pkt.typ == T_HELLO {
            self.queue_ack(&sender_app, pkt.msg_id);
            return Action::Nothing;
        }
        if pkt.typ == T_INDEX {
            self.queue_ack(&sender_app, pkt.msg_id);
            return match proto::parse_index(pkt.body.as_slice()) {
                Some((_, _, _, recs)) => Action::Merge(recs),
                None => Action::Nothing,
            };
        }
        if pkt.typ == T_WANT {
            self.queue_ack(&sender_app, pkt.msg_id);
            return match proto::parse_want(pkt.body.as_slice()) {
                Some(hash) => Action::Send(hash),
                None => Action::Nothing,
            };
        }
        if pkt.typ == T_CHUNK {
            self.queue_ack(&sender_app, pkt.msg_id);
            return match proto::parse_chunk(pkt.body.as_slice()) {
                Some((hash, total, offset, data)) => match self.on_chunk(
                    &hash,
                    total,
                    offset,
                    data,
                ) {
                    Some(blob) => Action::Install { hash, data: blob },
                    None => Action::Nothing,
                },
                None => Action::Nothing,
            };
        }
        Action::Nothing
    }

    /// Adds hashes that a merge asked for to the missing ones.
    pub fn note_missing(&mut self, hashes: &[[u8; 32]])
        requires
            old(self).wf(),
        ensures
            final(self).wf(),
            final(self)@ == (EngineView {
                missing: with_hashes(old(self)@.missing, store::hash_views(hashes@)),
                ..old(self)@
            }),
    {
        let ghost all = store::hash_views(hashes@);
        let mut i: usize = 0;
        while i < hashes.len()
            invariant
                i <= hashes@.len(),
                all == store::hash_views(hashes@),
                self.wf(),
                self@ == (EngineView {
                    missing: with_hashes(old(self)@.missing, all.take(i as int)),
                    ..old(self)@
                }),
            decreases hashes@.len() - i,
        {
            let ghost before = self@;
            proof {
                assert(all.take(i + 1).drop_last() =~= all.take(i as int));
                assert(all.take(i + 1).last() == hashes@[i as int]@);
            }
            store::add_hash(&mut self.missing, &hashes[i]);
            proof {
                lemma_with_hash(before.missing, hashes@[i as int]@);
                lemma_valid_frame(before, self@);
            }
            i += 1;
        }
        assert(all.take(all.len() as int) =~= all);
    }
}

/// Whether it is time to try a message: it was never sent, or long enough ago.
pub open spec fn due(p: PendingView, now: u64) -> bool {
    match p.last {
        None => true,
        Some(t) => now >= t + RETRY,
    }
}

/// Whether a flush sends a message.
pub open spec fn sends(p: PendingView, now: u64) -> bool {
    due(p, now) && p.tries < MAX_TRIES
}

/// What a flush leaves of a message: nothing, if it is due and has been tried
/// often enough.
pub open spec fn flushed(p: PendingView, now: u64) -> Option<PendingView> {
    if !due(p, now) {
        Some(p)
    } else if p.tries >= MAX_TRIES {
        None
    } else {
        Some(PendingView { last: Some(now), tries: (p.tries + 1) as u32, ..p })
    }
}

/// What a flush leaves of the queue.
pub open spec fn flush_queue(pending: Seq<PendingView>, now: u64) -> Seq<PendingView>
    decreases pending.len(),
{
    if pending.len() == 0 {
        pending
    } else {
        let before = flush_queue(pending.drop_last(), now);
        match flushed(pending.last(), now) {
            Some(p) => before.push(p),
            None => before,
        }
    }
}

/// The datagrams that a flush sends from the queue.
pub open spec fn queue_datagrams(token: Seq<u8>, pending: Seq<PendingView>, now: u64) -> Seq<Seq<u8>>
    decreases pending.len(),
{
    if pending.len() == 0 {
        Seq::empty()
    } else {
        let before = queue_datagrams(token, pending.drop_last(), now);
        let p = pending.last();
        if sends(p, now) {
            before.push(fabric::send_request(token, p.dest_device, p.dest_app, p.encoded))
        } else {
            before
        }
    }
}

/// The datagrams that carry ACKs.
pub open spec fn ack_datagrams(token: Seq<u8>, acks: Seq<(PeerView, u64)>) -> Seq<Seq<u8>> {
    Seq::new(
        acks.len(),
        |i: int|
            fabric::send_request(
                token,
                acks[i].0.device,
                acks[i].0.app_id,
                proto::encoded(
                    PacketView {
                        typ: T_ACK,
                        msg_id: 0,
                        body: codec::be_bytes(acks[i].1 as nat, 8),
                    },
                ),
            ),
    )
}

/// The state after a flush: the queue went out, no ACK is left.
pub open spec fn flush_state(e: EngineView, now: u64) -> EngineView {
    EngineView { pending: flush_queue(e.pending, now), acks: Seq::empty(), ..e }
}

/// What a flush sends: what is due of the queue, then the ACKs.
pub open spec fn flush_datagrams(e: EngineView, now: u64) -> Seq<Seq<u8>> {
    queue_datagrams(e.token, e.pending, now) + ack_datagrams(e.token, e.acks)
}

/// A flush keeps the order of the queue, and the ids in it.
proof fn lemma_flush_queue(pending: Seq<PendingView>, now: u64)
    ensures
        forall|i: int|
            0 <= i < flush_queue(pending, now).len() ==> exists|k: int|
                0 <= k < pending.len() && flushed(#[trigger] pending[k], now) == Some(
                    #[trigger] flush_queue(pending, now)[i],
                ),
        (forall|i: int, j: int|
            0 <= i < j < pending.len() ==> (#[trigger] pending[i]).id < (#[trigger] pending[j]).id)
            ==> (forall|i: int, j: int|
            0 <= i < j < flush_queue(pending, now).len() ==> (#[trigger] flush_queue(
                pending,
                now,
            )[i]).id < (#[trigger] flush_queue(pending, now)[j]).id),
    decreases pending.len(),
{
    let q = flush_queue(pending, now);
    if pending.len() > 0 {
        let init = pending.drop_last();
        let b = flush_queue(init, now);
        lemma_flush_queue(init, now);
        assert forall|i: int| 0 <= i < q.len() implies exists|k: int|
            0 <= k < pending.len() && flushed(#[trigger] pending[k], now) == Some(
                #[trigger] q[i],
            ) by {
            if i < b.len() {
                let k = choose|k: int|
                    0 <= k < init.len() && flushed(#[trigger] init[k], now) == Some(b[i]);
                assert(q[i] == b[i]);
                assert(flushed(pending[k], now) == Some(q[i]));
            } else {
                assert(flushed(pending[pending.len() - 1], now) == Some(q[i]));
            }
        }
        if forall|i: int, j: int|
            0 <= i < j < pending.len() ==> (#[trigger] pending[i]).id < (#[trigger] pending[j]).id {
            assert forall|i: int, j: int| 0 <= i < j < init.len() implies (#[trigger] init[i]).id
                < (#[trigger] init[j]).id by {
                assert(pending[i].id < pending[j].id);
            }
            assert forall|i: int, j: int| 0 <= i < j < q.len() implies (#[trigger] q[i]).id < (
            #[trigger] q[j]).id by {
                assert(q[i] == b[i]);
                if j < b.len() {
                    assert(q[j] == b[j]);
                } else {
                    let k = choose|k: int|
                        0 <= k < init.len() && flushed(#[trigger] init[k], now) == Some(b[i]);
                    assert(pending[k].id < pending[pending.len() - 1].id);
                }
            }
        }
    }
}

proof fn lemma_flush_valid(e: EngineView, now: u64)
    requires
        valid(e),
    ensures
        valid(flush_state(e, now)),
{
    let q = flush_queue(e.pending, now);
    lemma_flush_queue(e.pending, now);
    assert forall|i: int| 0 <= i < q.len() implies (#[trigger] q[i]).tries <= MAX_TRIES && (
    q[i].id < e.next_msg || q[i].id == e.next_msg == u64::MAX) by {
        let k = choose|k: int|
            0 <= k < e.pending.len() && flushed(#[trigger] e.pending[k], now) == Some(q[i]);
        assert(e.pending[k].tries <= MAX_TRIES);
    }
}

/// Whether the directory is to be read again at this tick.
pub fn refresh_due(ticks: u64) -> (b: bool)
    ensures
        b == (ticks % 8 == 0),
{
    ticks % 8 == 0
}

/// Whether a failure to read the directory is worth a line in the log.
pub fn complaint_due(ticks: u64) -> (b: bool)
    ensures
        b == (ticks % 32 == 0),
{
    ticks % 32 == 0
}

/// Whether a token is none: all zero.
pub open spec fn no_token(token: Seq<u8>) -> bool {
    forall|i: int| 0 <= i < token.len() ==> token[i] == 0
}

/// The state at a tick before anything is sent: the index is announced if it
/// changed or was invalidated, and at every sixteenth tick; then missing blobs
/// are asked for.
pub open spec fn ticked(
    e: EngineView,
    replica: Seq<u8>,
    gen: u64,
    recs: Seq<RecView>,
    ticks: u64,
    changed: bool,
) -> EngineView {
    let e1 = if changed {
        invalidated(e)
    } else {
        e
    };
    let e2 = if e1.approved && (e1.forced || ticks % 16 == 0) {
        index_announced(e1, replica, gen, recs)
    } else {
        e1
    };
    missing_requested(EngineView { forced: false, ..e2 })
}

impl Engine {
    /// Whether the node has given this app a token.
    pub fn registered(&self) -> (b: bool)
        ensures
            b == !no_token(self@.token),
    {
        let mut i: usize = 0;
        while i < 16
            invariant
                i <= 16,
                forall|j: int| 0 <= j < i ==> self.token@[j] == 0,
            decreases 16 - i,
        {
            if self.token[i] != 0 {
                return true;
            }
            i += 1;
        }
        false
    }

    /// Sends what is due of the queue.
    fn flush_pending(&mut self, now: u64) -> (out: Vec<Vec<u8>>)
        requires
            old(self).wf(),
        ensures
            final(self).wf(),
            final(self)@ == (EngineView {
                pending: flush_queue(old(self)@.pending, now),
                ..old(self)@
            }),
            proto::byte_views(out@) == queue_datagrams(
                old(self)@.token,
                old(self)@.pending,
                now,
            ),
    {
        let ghost all = self@.pending;
        let ghost token = self@.token;
        let mut out: Vec<Vec<u8>> = Vec::new();
        let mut i: usize = 0;
        let ghost mut k: int = 0;
        proof {
            assert(all.skip(0) =~= all);
            assert(flush_queue(all.take(0), now) + all =~= all);
            assert(proto::byte_views(out@) =~= queue_datagrams(token, all.take(0), now));
        }
        while i < self.pending.len()
            invariant
                0 <= k <= all.len(),
                i <= self.pending@.len(),
                i == flush_queue(all.take(k), now).len(),
                pending_views(self.pending@) == flush_queue(all.take(k), now) + all.skip(k),
                proto::byte_views(out@) == queue_datagrams(token, all.take(k), now),
                all == old(self)@.pending,
                token == self.token@,
                one_each(self.incoming@),
                self@ == (EngineView { pending: pending_views(self.pending@), ..old(self)@ }),
            decreases all.len() - k,
        {
            let ghost done = flush_queue(all.take(k), now);
            let ghost cur = pending_views(self.pending@);
            proof {
                assert(cur[i as int] == all[k]);
                assert(all.take(k + 1).drop_last() =~= all.take(k));
                assert(all.take(k + 1).last() == all[k]);
            }
            let waited = match self.pending[i].last {
                None => true,
                Some(t) => now >= t && now - t >= RETRY,
            };
            assert(waited == due(all[k], now));
            if !waited {
                i += 1;
                assert(cur =~= done.push(all[k]) + all.skip(k + 1));
            } else if self.pending[i].tries >= MAX_TRIES {
                let _ = self.pending.remove(i);
                assert(pending_views(self.pending@) =~= cur.remove(i as int));
                assert(cur.remove(i as int) =~= done + all.skip(k + 1));
            } else {
                let d = fabric::send_payload(
                    &self.token,
                    &self.pending[i].dest_device,
                    &self.pending[i].dest_app,
                    self.pending[i].encoded.as_slice(),
                );
                let ghost before = proto::byte_views(out@);
                let ghost dv = d@;
                out.push(d);
                assert(proto::byte_views(out@) =~= before.push(dv));
                let tries: u32 = self.pending[i].tries;
                self.pending[i].last = Some(now);
                self.pending[i].tries = tries + 1;
                proof {
                    let p = flushed(all[k], now)->0;
                    assert(pending_views(self.pending@) =~= cur.update(i as int, p));
                    assert(cur.update(i as int, p) =~= done.push(p) + all.skip(k + 1));
                }
                i += 1;
            }
            proof {
                k = k + 1;
            }
        }
        proof {
            assert(k == all.len());
            assert(all.take(k) =~= all);
            assert(pending_views(self.pending@) =~= flush_queue(all, now));
            lemma_flush_valid(old(self)@, now);
            lemma_valid_frame(flush_state(old(self)@, now), self@);
        }
        out
    }

    /// Send due retries and queued ACKs: gives the datagrams for the node.
    pub fn flush(&mut self, now: u64) -> (out: Vec<Vec<u8>>)
        requires
            old(self).wf(),
        ensures
            final(self).wf(),
            final(self)@ == flush_state(old(self)@, now),
            proto::byte_views(out@) == flush_datagrams(old(self)@, now),
    {
        let ghost start = self@;
        let mut out = self.flush_pending(now);
        let ghost first = proto::byte_views(out@);
        let ghost more = ack_datagrams(start.token, start.acks);
        let mut i: usize = 0;
        assert(first =~= first + more.take(0));
        while i < self.acks.len()
            invariant
                i <= self.acks@.len() == more.len(),
                start.acks == ack_views(self.acks@),
                start.token == self.token@,
                more == ack_datagrams(start.token, start.acks),
                proto::byte_views(out@) == first + more.take(i as int),
            decreases self.acks@.len() - i,
        {
            let pkt = proto::encode(&proto::ack(self.acks[i].1));
            let d = fabric::send_payload(
                &self.token,
                &self.acks[i].0.device,
                &self.acks[i].0.app_id,
                pkt.as_slice(),
            );
            let ghost before = proto::byte_views(out@);
            let ghost dv = d@;
            assert(start.acks[i as int] == (self.acks@[i as int].0@, self.acks@[i as int].1));
            assert(dv == more[i as int]);
            out.push(d);
            assert(proto::byte_views(out@) =~= before.push(dv));
            assert(proto::byte_views(out@) =~= first + more.take(i + 1));
            i += 1;
        }
        assert(more.take(more.len() as int) =~= more);
        let ghost before = self@;
        self.acks = Vec::new();
        proof {
            assert(ack_views(self.acks@) =~= Seq::empty());
            lemma_valid_frame(before, self@);
        }
        out
    }

    /// One tick, after a scan that changed the index or did not: gives the
    /// datagrams for the node. Nothing happens without a token.
    pub fn tick(&mut self, store: &Store, ticks: u64, changed: bool, now: u64) -> (out: Vec<
        Vec<u8>,
    >)
        requires
            old(self).wf(),
        ensures
            final(self).wf(),
            no_token(old(self)@.token) ==> final(self)@ == old(self)@ && proto::byte_views(out@)
                == Seq::<Seq<u8>>::empty(),
            !no_token(old(self)@.token) ==> {
                let e = ticked(
                    old(self)@,
                    store.replica_id@,
                    store.gen,
                    store::entry_recs(store.files.seq()),
                    ticks,
                    changed,
                );
                final(self)@ == flush_state(e, now) && proto::byte_views(out@) == flush_datagrams(
                    e,
                    now,
                )
            },
    {
        if !self.registered() {
            let out: Vec<Vec<u8>> = Vec::new();
            assert(proto::byte_views(out@) =~= Seq::empty());
            return out;
        }
        if changed {
            self.invalidate_index();
        }
        if self.approved && (self.forced || ticks % 16 == 0) {
            self.broadcast_index(store);
        }
        let ghost announced = self@;
        self.forced = false;
        proof {
            lemma_valid_frame(announced, self@);
        }
        self.request_missing();
        self.flush(now)
    }
}

/// Whether the slices of a blob of `len` bytes all occur in an order of arrival.
pub open spec fn all_arrive(order: Seq<int>, len: nat) -> bool {
    forall|i: int| 0 <= i < chunk_count(len) ==> #[trigger] order.contains(i)
}

/// The state after slices of a blob have arrived in some order.
pub open spec fn delivered(
    e: EngineView,
    hash: Seq<u8>,
    data: Seq<u8>,
    order: Seq<int>,
) -> EngineView
    decreases order.len(),
{
    if order.len() == 0 {
        e
    } else {
        received(
            delivered(e, hash, data, order.drop_last()),
            hash,
            data.len() as u64,
            offset_of(order.last()),
            slice_of(data, order.last()),
        ).0
    }
}

/// Whether what has come in is what the slices in `order` bring.
spec fn in_step(v: IncomingView, data: Seq<u8>, order: Seq<int>) -> bool {
    &&& v.total == data.len()
    &&& v.buf.len() == data.len()
    &&& forall|x: int|
        0 <= x < data.len() && order.contains(x / CHUNK_SIZE as int) ==> #[trigger] v.buf[x] == data[x]
    &&& forall|o: u64| #[trigger]
        v.got.contains(o) <==> exists|j: int| #[trigger] order.contains(j) && o == offset_of(j)
}

/// One more slice.
proof fn lemma_slice_arrives(v: IncomingView, data: Seq<u8>, order: Seq<int>, j: int)
    requires
        in_step(v, data, order),
        data.len() <= MAX_FILE_BYTES,
        0 <= j < chunk_count(data.len()),
    ensures
        offset_of(j) + slice_of(data, j).len() <= data.len(),
        in_step(
            IncomingView {
                total: v.total,
                buf: spliced(v.buf, offset_of(j) as int, slice_of(data, j)),
                got: v.got.insert(offset_of(j)),
            },
            data,
            order.push(j),
        ),
{
    let piece = slice_of(data, j);
    let off = offset_of(j) as int;
    let buf = spliced(v.buf, off, piece);
    let got = v.got.insert(offset_of(j));
    let grown = order.push(j);
    assert(off == j * CHUNK_SIZE);
    assert forall|k: int| #[trigger] grown.contains(k) <==> order.contains(k) || k == j by {
        if order.contains(k) {
            let i = choose|i: int| 0 <= i < order.len() && order[i] == k;
            assert(grown[i] == k);
        }
        assert(grown[order.len() as int] == j);
    }
    assert forall|x: int|
        0 <= x < data.len() && grown.contains(x / CHUNK_SIZE as int) implies #[trigger] buf[x]
        == data[x] by {
        if off <= x < off + piece.len() {
        } else {
            assert(x / CHUNK_SIZE as int != j);
            assert(v.buf[x] == data[x]);
        }
    }
    assert forall|o: u64| #[trigger] got.contains(o) <==> exists|k: int| #[trigger]
        grown.contains(k) && o == offset_of(k) by {
        if v.got.contains(o) {
            let k = choose|k: int| #[trigger] order.contains(k) && o == offset_of(k);
            assert(grown.contains(k));
        }
        if o == offset_of(j) {
            assert(grown.contains(j));
        }
        if exists|k: int| #[trigger] grown.contains(k) && o == offset_of(k) {
            let k = choose|k: int| #[trigger] grown.contains(k) && o == offset_of(k);
            if k != j {
                assert(order.contains(k));
            }
        }
    }
}

/// A blob is complete when all its slices have arrived, and then it is the blob.
proof fn lemma_slices_complete(v: IncomingView, data: Seq<u8>, order: Seq<int>)
    requires
        in_step(v, data, order),
        data.len() <= MAX_FILE_BYTES,
        order.len() > 0,
        forall|i: int| 0 <= i < order.len() ==> 0 <= #[trigger] order[i] < chunk_count(data.len()),
    ensures
        covered(v.got, v.total) <==> all_arrive(order, data.len()),
        all_arrive(order, data.len()) ==> v.buf == data,
{
    let n = chunk_count(data.len());
    if covered(v.got, v.total) {
        assert forall|i: int| 0 <= i < n implies #[trigger] order.contains(i) by {
            if data.len() == 0 {
                assert(order[0] == 0);
            } else {
                assert(v.got.contains(offset_of(i)));
                let j = choose|j: int| #[trigger] order.contains(j) && offset_of(i) == offset_of(j);
                let k = choose|k: int| 0 <= k < order.len() && order[k] == j;
                assert(0 <= order[k] < n);
                assert(i == j);
            }
        }
    }
    if all_arrive(order, data.len()) {
        assert forall|i: int| 0 <= i && i * CHUNK_SIZE < v.total implies v.got.contains(
            #[trigger] offset_of(i),
        ) by {
            assert(i < n);
            assert(order.contains(i));
        }
        assert forall|x: int| 0 <= x < data.len() implies v.buf[x] == data[x] by {
            assert(0 <= x / CHUNK_SIZE as int && x / CHUNK_SIZE as int * CHUNK_SIZE <= x);
            assert(x / (CHUNK_SIZE as int) < n);
            assert(order.contains(x / CHUNK_SIZE as int));
        }
        assert(v.buf =~= data);
    }
}

/// Where a transfer stands before it is complete.
proof fn lemma_transfer_so_far(e: EngineView, hash: Seq<u8>, data: Seq<u8>, order: Seq<int>)
    requires
        !e.incoming.dom().contains(hash),
        data.len() <= MAX_FILE_BYTES,
        forall|i: int| 0 <= i < order.len() ==> 0 <= #[trigger] order[i] < chunk_count(data.len()),
        !all_arrive(order, data.len()),
    ensures
        in_step(
            progress(delivered(e, hash, data, order), hash, data.len() as u64),
            data,
            order,
        ),
        delivered(e, hash, data, order) == (EngineView {
            incoming: delivered(e, hash, data, order).incoming,
            ..e
        }),
        delivered(e, hash, data, order).incoming.remove(hash) == e.incoming,
    decreases order.len(),
{
    if order.len() == 0 {
        let v = nothing_yet(data.len() as u64);
        assert(forall|k: int| !order.contains(k));
        assert(in_step(v, data, order));
        assert(e.incoming.remove(hash) =~= e.incoming);
    } else {
        let init = order.drop_last();
        let j = order.last();
        assert(!all_arrive(init, data.len())) by {
            if all_arrive(init, data.len()) {
                assert forall|i: int| 0 <= i < chunk_count(data.len()) implies #[trigger]
                order.contains(i) by {
                    assert(init.contains(i));
                    let k = choose|k: int| 0 <= k < init.len() && init[k] == i;
                    assert(order[k] == i);
                }
            }
        }
        assert forall|i: int| 0 <= i < init.len() implies 0 <= #[trigger] init[i] < chunk_count(
            data.len(),
        ) by {
            assert(init[i] == order[i]);
        }
        lemma_transfer_so_far(e, hash, data, init);
        let before = delivered(e, hash, data, init);
        let v = progress(before, hash, data.len() as u64);
        assert(0 <= order[order.len() - 1] < chunk_count(data.len()));
        lemma_slice_arrives(v, data, init, j);
        assert(init.push(j) =~= order);
        let w = IncomingView {
            total: v.total,
            buf: spliced(v.buf, offset_of(j) as int, slice_of(data, j)),
            got: v.got.insert(offset_of(j)),
        };
        lemma_slices_complete(w, data, order);
        assert(before.incoming.insert(hash, w).remove(hash) =~= before.incoming.remove(hash));
    }
}

/// A blob that is sent in slices comes out whole, whatever the order in which
/// the slices arrive and however often one arrives before the last: with the
/// last missing slice, and not earlier. Nothing of the transfer is then left. If
/// the blob is what its hash names, it is no longer missing, and goes to every
/// live path that names it; else it is as missing as before, and goes nowhere.
pub proof fn transfer_completes(
    e: EngineView,
    hash: Seq<u8>,
    data: Seq<u8>,
    order: Seq<int>,
    files: Seq<(Seq<char>, RecView)>,
)
    requires
        !e.incoming.dom().contains(hash),
        data.len() <= MAX_FILE_BYTES,
        order.len() > 0,
        forall|i: int| 0 <= i < order.len() ==> 0 <= #[trigger] order[i] < chunk_count(data.len()),
        !all_arrive(order.drop_last(), data.len()),
    ensures
        delivered(e, hash, data, order.drop_last()).missing == e.missing,
        ({
            let (after, whole) = received(
                delivered(e, hash, data, order.drop_last()),
                hash,
                data.len() as u64,
                offset_of(order.last()),
                slice_of(data, order.last()),
            );
            let digest = store::sha256_of(data);
            &&& all_arrive(order, data.len()) ==> whole == Some(data)
            &&& all_arrive(order, data.len()) && digest == hash ==> after == (EngineView {
                missing: without_hash(e.missing, hash),
                ..e
            }) && store::blob_targets(files, hash, data.len(), digest) == store::holders(
                files,
                hash,
            )
            &&& all_arrive(order, data.len()) && digest != hash ==> after == e
                && store::blob_targets(files, hash, data.len(), digest) == Seq::<
                (Seq<char>, u64),
            >::empty()
            &&& !all_arrive(order, data.len()) ==> whole is None && after.missing == e.missing
        }),
{
    let init = order.drop_last();
    let j = order.last();
    assert forall|i: int| 0 <= i < init.len() implies 0 <= #[trigger] init[i] < chunk_count(
        data.len(),
    ) by {
        assert(init[i] == order[i]);
    }
    lemma_transfer_so_far(e, hash, data, init);
    let v = progress(delivered(e, hash, data, init), hash, data.len() as u64);
    assert(0 <= order[order.len() - 1] < chunk_count(data.len()));
    lemma_slice_arrives(v, data, init, j);
    assert(init.push(j) =~= order);
    let w = IncomingView {
        total: v.total,
        buf: spliced(v.buf, offset_of(j) as int, slice_of(data, j)),
        got: v.got.insert(offset_of(j)),
    };
    lemma_slices_complete(w, data, order);
}

/// The packets that carry a blob say its slices.
pub proof fn chunk_packets_say_slices(hash: Seq<u8>, data: Seq<u8>, i: int)
    requires
        hash.len() == 32,
        data.len() <= MAX_FILE_BYTES,
        0 <= i < chunk_count(data.len()),
    ensures
        proto::chunk_of(chunk_packets(hash, data)[i].body) == Some(
            (hash, data.len() as u64, offset_of(i), slice_of(data, i)),
        ),
        slice_of(data, i).len() <= CHUNK_SIZE,
{
    proto::control_round_trip(
        0,
        Seq::new(16, |k: int| 0u8),
        0,
        hash,
        data.len() as u64,
        offset_of(i),
        slice_of(data, i),
    );
}

/// Everything that is sent makes packets within [`proto::MAX_PAYLOAD`]: the
/// announcement of an index with paths of at most [`proto::LONGEST_PATH`] bytes,
/// requests, slices, and ACKs.
pub proof fn queued_packets_fit(
    replica: Seq<u8>,
    gen: u64,
    recs: Seq<RecView>,
    hash: Seq<u8>,
    data: Seq<u8>,
    id: u64,
)
    requires
        replica.len() == 16,
        forall|k: int|
            0 <= k < recs.len() ==> (#[trigger] recs[k]).hash.len() == 32 && encode_utf8(
                recs[k].path,
            ).len() <= proto::LONGEST_PATH,
        hash.len() == 32,
        data.len() <= MAX_FILE_BYTES,
    ensures
        forall|i: int|
            0 <= i < index_packets(replica, gen, recs).len() ==> proto::encoded(
                PacketView { msg_id: id, ..#[trigger] index_packets(replica, gen, recs)[i] },
            ).len() <= proto::MAX_PAYLOAD,
        proto::encoded(PacketView { typ: T_WANT, msg_id: id, body: hash }).len()
            <= proto::MAX_PAYLOAD,
        forall|i: int|
            0 <= i < chunk_packets(hash, data).len() ==> proto::encoded(
                PacketView { msg_id: id, ..#[trigger] chunk_packets(hash, data)[i] },
            ).len() <= proto::MAX_PAYLOAD,
        proto::encoded(
            PacketView { typ: T_ACK, msg_id: 0, body: codec::be_bytes(id as nat, 8) },
        ).len() <= proto::MAX_PAYLOAD,
{
    proto::ack_packet_fits(0, id);
    codec::lemma_be_u64(id);
    codec::lemma_be_u64(gen);
    let pkts = index_packets(replica, gen, recs);
    assert forall|i: int| 0 <= i < pkts.len() implies proto::encoded(
        PacketView { msg_id: id, ..#[trigger] pkts[i] },
    ).len() <= proto::MAX_PAYLOAD by {
        if i > 0 {
            proto::index_packets_fit(gen, recs, id, i - 1);
        }
    }
    let chunks = chunk_packets(hash, data);
    assert forall|i: int| 0 <= i < chunks.len() implies proto::encoded(
        PacketView { msg_id: id, ..#[trigger] chunks[i] },
    ).len() <= proto::MAX_PAYLOAD by {
        chunk_packets_say_slices(hash, data, i);
        proto::chunk_packet_fits(
            id,
            hash,
            data.len() as u64,
            (i * CHUNK_SIZE) as u64,
            slice_of(data, i),
        );
    }
}

/// A message that has been confirmed is not in the queue any more, and nothing
/// else of the state has changed.
pub proof fn confirmed_is_forgotten(e: EngineView, sender: Seq<u8>, msg_id: u64, id: u64)
    ensures
        ({
            let pkt = PacketView { typ: T_ACK, msg_id, body: codec::be_bytes(id as nat, 8) };
            let (after, action) = handled(e, sender, pkt);
            &&& forall|i: int|
                0 <= i < after.pending.len() ==> (#[trigger] after.pending[i]).id != id
                    && e.pending.contains(after.pending[i])
            &&& after == EngineView { pending: after.pending, ..e }
            &&& action == ActionView::Nothing
        }),
{
    codec::lemma_be_u64(id);
    lemma_without_id(e.pending, id);
}

/// An app that is no peer, such as one of a contact, is ignored: what it sends
/// changes nothing and is not answered. (An ACK is taken from anyone.)
pub proof fn strangers_get_no_answer(e: EngineView, sender: Seq<u8>, pkt: PacketView)
    requires
        peer_of(e.peers, sender) is None,
    ensures
        ({
            let (after, action) = handled(e, sender, pkt);
            &&& pkt.typ != T_ACK ==> after == e && action == ActionView::Nothing
            &&& after == EngineView { pending: after.pending, ..e }
            &&& action == ActionView::Nothing
        }),
{
}

/// How often a message is sent in a run of flushes at the given times.
pub open spec fn times_sent(p: PendingView, times: Seq<u64>) -> nat
    decreases times.len(),
{
    if times.len() == 0 {
        0
    } else {
        let now = times[0];
        match flushed(p, now) {
            Some(q) => times_sent(q, times.drop_first()) + if sends(p, now) {
                1nat
            } else {
                0nat
            },
            None => 0,
        }
    }
}

/// A message is sent at most [`MAX_TRIES`] times, however often the queue is
/// flushed.
pub proof fn retries_are_bounded(p: PendingView, times: Seq<u64>)
    requires
        p.tries <= MAX_TRIES,
    ensures
        times_sent(p, times) + p.tries <= MAX_TRIES,
    decreases times.len(),
{
    if times.len() > 0 {
        if let Some(q) = flushed(p, times[0]) {
            retries_are_bounded(q, times.drop_first());
        }
    }
}

/// A message goes out with the first flush, and is not repeated within
/// [`RETRY`].
pub proof fn retries_are_spaced(p: PendingView, first: u64, next: u64)
    requires
        p.tries < MAX_TRIES,
    ensures
        p.last is None ==> sends(p, first),
        sends(p, first) && next < first + RETRY ==> (flushed(p, first) matches Some(q) && !sends(
            q,
            next,
        ) && flushed(q, next) == Some(q)),
{
}

/// The index after the parts of an announcement have been merged in turn.
pub open spec fn merge_parts(
    files: Map<Seq<char>, RecView>,
    parts: Seq<Seq<RecView>>,
) -> Map<Seq<char>, RecView>
    decreases parts.len(),
{
    if parts.len() == 0 {
        files
    } else {
        merge_parts(store::merge_all(files, parts[0]), parts.drop_first())
    }
}

pub proof fn lemma_merge_parts(files: Map<Seq<char>, RecView>, parts: Seq<Seq<RecView>>)
    ensures
        merge_parts(files, parts) == store::merge_all(files, proto::regrouped(parts)),
    decreases parts.len(),
{
    if parts.len() > 0 {
        lemma_merge_parts(store::merge_all(files, parts[0]), parts.drop_first());
        store::merge_in_parts(files, parts[0], proto::regrouped(parts.drop_first()));
    }
}

/// An index that a peer announces arrives whole: each of its packets asks for
/// its part to be merged, and the parts in turn come to the whole index.
pub proof fn announcement_arrives_whole(
    e: EngineView,
    sender: Seq<u8>,
    msg_id: u64,
    files: Map<Seq<char>, RecView>,
    gen: u64,
    recs: Seq<RecView>,
)
    requires
        peer_of(e.peers, sender) is Some,
        forall|i: int| 0 <= i < recs.len() ==> proto::sendable(#[trigger] recs[i]),
    ensures
        forall|i: int|
            0 <= i < proto::index_parts(recs).len() ==> handled(
                e,
                sender,
                PacketView {
                    typ: T_INDEX,
                    msg_id,
                    body: #[trigger] proto::index_bodies(gen, recs)[i],
                },
            ).1 == ActionView::Merge(proto::index_parts(recs)[i]),
        merge_parts(files, proto::index_parts(recs)) == store::merge_all(files, recs),
{
    proto::index_round_trip(gen, recs);
    lemma_merge_parts(files, proto::index_parts(recs));
    assert forall|i: int| 0 <= i < proto::index_parts(recs).len() implies handled(
        e,
        sender,
        PacketView { typ: T_INDEX, msg_id, body: #[trigger] proto::index_bodies(gen, recs)[i] },
    ).1 == ActionView::Merge(proto::index_parts(recs)[i]) by {
        let body = proto::index_bodies(gen, recs)[i];
        assert(proto::index_of(body) is Some);
    }
}

/// Taking out one message leaves the others.
proof fn lemma_without_keeps(pending: Seq<PendingView>, id: u64, k: int)
    requires
        0 <= k < pending.len(),
        pending[k].id != id,
    ensures
        without_id(pending, id).contains(pending[k]),
    decreases pending.len(),
{
    let w = without_id(pending, id);
    if k == pending.len() - 1 {
        assert(w[w.len() - 1] == pending[k]);
    } else {
        let init = pending.drop_last();
        lemma_without_keeps(init, id, k);
        let b = without_id(init, id);
        let i = choose|i: int| 0 <= i < b.len() && b[i] == init[k];
        assert(w[i] == pending[k]);
    }
}

/// A flush leaves every message that has tries left.
proof fn lemma_flush_keeps(pending: Seq<PendingView>, now: u64, k: int)
    requires
        0 <= k < pending.len(),
        flushed(pending[k], now) is Some,
    ensures
        flush_queue(pending, now).contains(flushed(pending[k], now)->0),
    decreases pending.len(),
{
    let q = flush_queue(pending, now);
    if k == pending.len() - 1 {
        assert(q[q.len() - 1] == flushed(pending[k], now)->0);
    } else {
        let init = pending.drop_last();
        lemma_flush_keeps(init, now, k);
        let b = flush_queue(init, now);
        let i = choose|i: int| 0 <= i < b.len() && b[i] == flushed(init[k], now)->0;
        assert(q[i] == b[i]);
    }
}

/// A message stays in the queue until it is confirmed or has used up its tries:
/// neither another message, nor any packet but its own ACK, nor a flush takes it
/// out before.
pub proof fn unconfirmed_stays_queued(
    e: EngineView,
    k: int,
    dest: PeerView,
    msg: PacketView,
    sender: Seq<u8>,
    pkt: PacketView,
    now: u64,
)
    requires
        valid(e),
        0 <= k < e.pending.len(),
    ensures
        e.next_msg < u64::MAX ==> enqueued(e, dest, msg).pending.contains(e.pending[k]),
        !(pkt.typ == T_ACK && proto::ack_of(pkt.body) == Some(e.pending[k].id)) ==> handled(
            e,
            sender,
            pkt,
        ).0.pending.contains(e.pending[k]),
        e.pending[k].tries < MAX_TRIES ==> (flushed(e.pending[k], now) matches Some(p)
            && flush_state(e, now).pending.contains(p) && p.id == e.pending[k].id && p.encoded
            == e.pending[k].encoded),
{
    let p = e.pending[k];
    if e.next_msg < u64::MAX {
        let q = enqueued(e, dest, msg).pending;
        assert(e.pending[e.pending.len() - 1].id < e.next_msg);
        assert(q[k] == p);
    }
    if pkt.typ == T_ACK {
        if let Some(id) = proto::ack_of(pkt.body) {
            if id != p.id {
                lemma_without_keeps(e.pending, id, k);
            }
        }
    }
    if p.tries < MAX_TRIES {
        lemma_flush_keeps(e.pending, now, k);
    }
}

/// Invalidating the index makes the next tick announce it to every peer,
/// whatever the number of the tick, once the app is approved and there has been
/// a change to announce at all.
pub proof fn invalidating_forces_the_next_tick(
    e: EngineView,
    replica: Seq<u8>,
    gen: u64,
    recs: Seq<RecView>,
    ticks: u64,
    changed: bool,
)
    requires
        e.approved,
        gen > 0,
    ensures
        ({
            let start = invalidated(e);
            let queued = enqueue_all(start, to_peers(e.peers, index_packets(replica, gen, recs)));
            e.peers.len() > 0 ==> ticked(start, replica, gen, recs, ticks, changed)
                == missing_requested(
                EngineView { forced: false, last_index_sent: gen, ..queued },
            )
        }),
{
    let start = invalidated(e);
    assert(invalidated(start) == start);
    lemma_enqueue_frame(start, to_peers(e.peers, index_packets(replica, gen, recs)));
}

/// Messages as they wait under ids that follow each other.
pub open spec fn waiting_from(first: u64, msgs: Seq<(PeerView, PacketView)>) -> Seq<PendingView> {
    Seq::new(msgs.len(), |i: int| waiting((first + i) as u64, msgs[i].0, msgs[i].1))
}

/// Messages that are put in the queue get the next ids in turn, as long as there
/// are ids, and join the queue behind all that waits there, which stays as it is.
pub proof fn ids_are_given_in_turn(e: EngineView, msgs: Seq<(PeerView, PacketView)>)
    requires
        valid(e),
        e.next_msg + msgs.len() <= u64::MAX,
    ensures
        enqueue_all(e, msgs).next_msg == e.next_msg + msgs.len(),
        enqueue_all(e, msgs).pending == e.pending + waiting_from(e.next_msg, msgs),
    decreases msgs.len(),
{
    if msgs.len() == 0 {
        assert(e.pending + waiting_from(e.next_msg, msgs) =~= e.pending);
    } else {
        let init = msgs.drop_last();
        let q = enqueue_all(e, init);
        ids_are_given_in_turn(e, init);
        lemma_enqueue_frame(e, init);
        if q.pending.len() > 0 {
            assert(q.pending[q.pending.len() - 1].id < q.next_msg);
        }
        assert(waiting_from(e.next_msg, msgs) =~= waiting_from(e.next_msg, init).push(
            waiting(q.next_msg, msgs.last().0, msgs.last().1),
        ));
        assert(enqueue_all(e, msgs).pending =~= e.pending + waiting_from(e.next_msg, msgs));
    }
}

/// Something that is done to an engine.
pub enum Call {
    Queue { dest: PeerView, pkt: PacketView },
    Announce { replica: Seq<u8>, gen: u64, recs: Seq<RecView> },
    Request,
    Chunks { sender: Seq<u8>, hash: Seq<u8>, data: Seq<u8> },
    Packet { sender: Seq<u8>, pkt: PacketView },
    Note { hashes: Seq<Seq<u8>> },
    Invalidate,
    Directory { dir: DirectoryView },
    Flush { now: u64 },
    Tick { replica: Seq<u8>, gen: u64, recs: Seq<RecView>, ticks: u64, changed: bool, now: u64 },
}

/// The state after a call.
pub open spec fn called(e: EngineView, c: Call) -> EngineView {
    match c {
        Call::Queue { dest, pkt } => enqueued(e, dest, pkt),
        Call::Announce { replica, gen, recs } => index_announced(e, replica, gen, recs),
        Call::Request => missing_requested(e),
        Call::Chunks { sender, hash, data } => chunks_sent(e, sender, hash, data),
        Call::Packet { sender, pkt } => handled(e, sender, pkt).0,
        Call::Note { hashes } => EngineView { missing: with_hashes(e.missing, hashes), ..e },
        Call::Invalidate => invalidated(e),
        Call::Directory { dir } => EngineView {
            app_id: dir.app_id,
            device_uuid: dir.device_uuid,
            approved: dir.approved,
            peers: dir.peers,
            ..e
        },
        Call::Flush { now } => flush_state(e, now),
        Call::Tick { replica, gen, recs, ticks, changed, now } => if no_token(e.token) {
            e
        } else {
            flush_state(ticked(e, replica, gen, recs, ticks, changed), now)
        },
    }
}

/// The messages that announce an index, unless it already was announced.
pub open spec fn announcement(
    e: EngineView,
    replica: Seq<u8>,
    gen: u64,
    recs: Seq<RecView>,
) -> Seq<(PeerView, PacketView)> {
    if e.peers.len() == 0 || e.last_index_sent == gen {
        Seq::empty()
    } else {
        to_peers(e.peers, index_packets(replica, gen, recs))
    }
}

/// The messages that a call puts in the queue.
pub open spec fn queued_by(e: EngineView, c: Call) -> Seq<(PeerView, PacketView)> {
    match c {
        Call::Queue { dest, pkt } => seq![(dest, pkt)],
        Call::Announce { replica, gen, recs } => announcement(e, replica, gen, recs),
        Call::Request => wants(requested(e), e.peers),
        Call::Chunks { sender, hash, data } => match peer_of(e.peers, sender) {
            Some(peer) => if data.len() > MAX_FILE_BYTES {
                Seq::empty()
            } else {
                to_peer(peer, chunk_packets(hash, data))
            },
            None => Seq::empty(),
        },
        Call::Tick { replica, gen, recs, ticks, changed, now } => if no_token(e.token) {
            Seq::empty()
        } else {
            let e1 = if changed {
                invalidated(e)
            } else {
                e
            };
            (if e1.approved && (e1.forced || ticks % 16 == 0) {
                announcement(e1, replica, gen, recs)
            } else {
                Seq::empty()
            }) + wants(requested(e), e.peers)
        },
        _ => Seq::empty(),
    }
}

/// The ids that messages get when they are put in the queue one after the other.
pub open spec fn ids_of(e: EngineView, msgs: Seq<(PeerView, PacketView)>) -> Seq<u64> {
    Seq::new(msgs.len(), |i: int| enqueue_all(e, msgs.take(i + 1)).pending.last().id)
}

/// The state after a run of calls.
pub open spec fn run(e: EngineView, calls: Seq<Call>) -> EngineView
    decreases calls.len(),
{
    if calls.len() == 0 {
        e
    } else {
        run(called(e, calls[0]), calls.drop_first())
    }
}

/// The ids that are given in a run of calls, in order.
pub open spec fn ids_given(e: EngineView, calls: Seq<Call>) -> Seq<u64>
    decreases calls.len(),
{
    if calls.len() == 0 {
        Seq::empty()
    } else {
        ids_of(e, queued_by(e, calls[0])) + ids_given(called(e, calls[0]), calls.drop_first())
    }
}

/// The next id after messages have been put in the queue: one further for each,
/// up to the last id there is.
proof fn lemma_next_id(e: EngineView, msgs: Seq<(PeerView, PacketView)>)
    ensures
        enqueue_all(e, msgs).next_msg == if e.next_msg + msgs.len() < u64::MAX {
            e.next_msg + msgs.len()
        } else {
            u64::MAX as int
        },
    decreases msgs.len(),
{
    if msgs.len() > 0 {
        lemma_next_id(e, msgs.drop_last());
    }
}

/// What a call does to the next id is what the messages that it queues do.
proof fn lemma_called_next(e: EngineView, c: Call)
    ensures
        called(e, c).next_msg == enqueue_all(e, queued_by(e, c)).next_msg,
{
    match c {
        Call::Queue { dest, pkt } => {
            lemma_next_id(e, queued_by(e, c));
        },
        Call::Tick { replica, gen, recs, ticks, changed, now } => {
            if !no_token(e.token) {
                let e1 = if changed {
                    invalidated(e)
                } else {
                    e
                };
                let first = if e1.approved && (e1.forced || ticks % 16 == 0) {
                    announcement(e1, replica, gen, recs)
                } else {
                    Seq::empty()
                };
                let e2 = if e1.approved && (e1.forced || ticks % 16 == 0) {
                    index_announced(e1, replica, gen, recs)
                } else {
                    e1
                };
                let e3 = EngineView { forced: false, ..e2 };
                lemma_enqueue_frame(e1, first);
                lemma_next_id(e1, first);
                assert(requested(e3) == requested(e));
                lemma_next_id(e3, wants(requested(e), e.peers));
                lemma_next_id(e, queued_by(e, c));
            }
        },
        _ => {
            lemma_next_id(e, queued_by(e, c));
        },
    }
}

/// No call lowers the next id.
pub proof fn ids_never_fall(e: EngineView, c: Call)
    ensures
        called(e, c).next_msg >= e.next_msg,
{
    lemma_called_next(e, c);
    lemma_next_id(e, queued_by(e, c));
}

/// No message id is given twice: over any run of calls, as long as there are ids,
/// each message gets the id that follows the one before. A new engine starts with
/// one, so no id is zero.
pub proof fn no_id_is_given_twice(e: EngineView, calls: Seq<Call>)
    requires
        e.next_msg >= 1,
        e.next_msg + ids_given(e, calls).len() <= u64::MAX,
    ensures
        run(e, calls).next_msg == e.next_msg + ids_given(e, calls).len(),
        forall|i: int|
            0 <= i < ids_given(e, calls).len() ==> #[trigger] ids_given(e, calls)[i] == e.next_msg
                + i && ids_given(e, calls)[i] != 0,
        forall|i: int, j: int|
            0 <= i < j < ids_given(e, calls).len() ==> #[trigger] ids_given(e, calls)[i]
                < #[trigger] ids_given(e, calls)[j],
    decreases calls.len(),
{
    if calls.len() > 0 {
        let msgs = queued_by(e, calls[0]);
        let first = ids_of(e, msgs);
        let next = called(e, calls[0]);
        let all = ids_given(e, calls);
        lemma_called_next(e, calls[0]);
        lemma_next_id(e, msgs);
        no_id_is_given_twice(next, calls.drop_first());
        assert forall|i: int| 0 <= i < all.len() implies #[trigger] all[i] == e.next_msg + i by {
            if i < first.len() {
                let taken = msgs.take(i + 1);
                assert(taken.drop_last() =~= msgs.take(i));
                lemma_next_id(e, msgs.take(i));
                assert(all[i] == first[i]);
            } else {
                assert(all[i] == ids_given(next, calls.drop_first())[i - first.len()]);
            }
        }
    }
}

/// A packet for each of the peers.
proof fn lemma_to_peers_one(peers: Seq<PeerView>, pkt: PacketView)
    ensures
        to_peers(peers, seq![pkt]).len() == peers.len(),
        forall|j: int|
            0 <= j < peers.len() ==> #[trigger] to_peers(peers, seq![pkt])[j] == (peers[j], pkt),
    decreases peers.len(),
{
    if peers.len() > 0 {
        let init = peers.drop_last();
        lemma_to_peers_one(init, pkt);
        assert forall|j: int| 0 <= j < peers.len() implies #[trigger] to_peers(
            peers,
            seq![pkt],
        )[j] == (peers[j], pkt) by {
            if j < init.len() {
                assert(to_peers(peers, seq![pkt])[j] == to_peers(init, seq![pkt])[j]);
            }
        }
    }
}

/// The request for the `i`-th hash to the `j`-th peer.
pub open spec fn want_at(
    hashes: Seq<Seq<u8>>,
    peers: Seq<PeerView>,
    i: int,
    j: int,
) -> (PeerView, PacketView) {
    wants(hashes, peers)[i * peers.len() + j]
}

proof fn lemma_wants(hashes: Seq<Seq<u8>>, peers: Seq<PeerView>)
    ensures
        wants(hashes, peers).len() == hashes.len() * peers.len(),
        forall|i: int, j: int|
            0 <= i < hashes.len() && 0 <= j < peers.len() ==> #[trigger] want_at(
                hashes,
                peers,
                i,
                j,
            ) == (peers[j], PacketView { typ: T_WANT, msg_id: 0, body: hashes[i] }),
    decreases hashes.len(),
{
    let n = peers.len() as int;
    if hashes.len() == 0 {
        assert(0 * n == 0);
    } else {
        let init = hashes.drop_last();
        let k = init.len() as int;
        let pkt = PacketView { typ: T_WANT, msg_id: 0, body: hashes.last() };
        lemma_wants(init, peers);
        lemma_to_peers_one(peers, pkt);
        assert((k + 1) * n == k * n + n) by (nonlinear_arith);
        assert forall|i: int, j: int| 0 <= i < hashes.len() && 0 <= j < n implies #[trigger] want_at(
            hashes,
            peers,
            i,
            j,
        ) == (peers[j], PacketView { typ: T_WANT, msg_id: 0, body: hashes[i] }) by {
            if i < k {
                assert(0 <= i * n + j < k * n) by (nonlinear_arith)
                    requires
                        0 <= i < k,
                        0 <= j < n,
                ;
                assert(want_at(hashes, peers, i, j) == want_at(init, peers, i, j));
            } else {
                assert(want_at(hashes, peers, i, j) == to_peers(peers, seq![pkt])[j]);
            }
        }
    }
}

/// A request asks for up to [`MAX_WANTS`] of the missing blobs, no two the same:
/// each is asked for once of every peer, and nothing else is put in the queue.
/// What is missing, and who the peers are, stays as it was.
pub proof fn requests_are_distinct(e: EngineView)
    requires
        valid(e),
    ensures
        ({
            let hashes = requested(e);
            let after = missing_requested(e);
            &&& hashes.len() == if e.missing.len() < MAX_WANTS {
                e.missing.len() as int
            } else {
                MAX_WANTS as int
            }
            &&& hashes.no_duplicates()
            &&& forall|i: int| 0 <= i < hashes.len() ==> e.missing.contains(#[trigger] hashes[i])
            &&& wants(hashes, e.peers).len() == hashes.len() * e.peers.len()
            &&& forall|i: int, j: int|
                0 <= i < hashes.len() && 0 <= j < e.peers.len() ==> #[trigger] want_at(
                    hashes,
                    e.peers,
                    i,
                    j,
                ) == (e.peers[j], PacketView { typ: T_WANT, msg_id: 0, body: hashes[i] })
            &&& e.next_msg + wants(hashes, e.peers).len() <= u64::MAX ==> after.pending == e.pending
                + waiting_from(e.next_msg, wants(hashes, e.peers))
            &&& after == EngineView { next_msg: after.next_msg, pending: after.pending, ..e }
        }),
{
    let hashes = requested(e);
    let msgs = wants(hashes, e.peers);
    lemma_wants(hashes, e.peers);
    lemma_enqueue_frame(e, msgs);
    assert forall|i: int| 0 <= i < hashes.len() implies e.missing.contains(#[trigger] hashes[i]) by {
        assert(hashes[i] == e.missing[i]);
    }
    if e.next_msg + msgs.len() <= u64::MAX {
        ids_are_given_in_turn(e, msgs);
    }
}

} // verus!
