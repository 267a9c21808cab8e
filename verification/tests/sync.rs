use pnet_filesync::fabric::Peer;
use pnet_filesync::proto::{
    ack, chunk, decode, encode_index, hello, parse_ack, parse_chunk, parse_hello, parse_index,
    parse_want, want, Packet, CHUNK_SIZE, T_ACK, T_CHUNK, T_HELLO, T_INDEX, T_WANT,
};
use pnet_filesync::store::{sha256, FileRec, Store, MAX_FILE_BYTES};
use pnet_filesync::sync::{complaint_due, refresh_due, Action, Engine, MAX_TRIES, RETRY};

fn rec(path: &str, mtime: u64) -> FileRec {
    FileRec {
        path: path.into(),
        size: 1,
        mtime,
        hash: [mtime as u8; 32],
        deleted: false,
    }
}

fn peer(n: u8) -> Peer {
    Peer {
        device: [n; 16],
        app_id: [n + 100; 16],
        device_alias: format!("d{}", n),
    }
}

fn engine(peers: u8) -> Engine {
    let mut e = Engine::new([7; 16]);
    e.peers = (1..=peers).map(peer).collect();
    e
}

struct Sent {
    device: [u8; 16],
    app: [u8; 16],
    pkt: Packet,
}

fn read(datagram: &[u8]) -> Sent {
    assert_eq!(datagram[0], 0x03);
    assert_eq!(&datagram[1..17], &[7; 16]);
    Sent {
        device: datagram[17..33].try_into().unwrap(),
        app: datagram[33..49].try_into().unwrap(),
        pkt: decode(&datagram[49..]).unwrap(),
    }
}

fn flush(e: &mut Engine, now: u64) -> Vec<Sent> {
    e.flush(now).iter().map(|d| read(d)).collect()
}

#[test]
fn index_goes_to_every_peer_once() {
    let mut store = Store::open_with(None, [1; 16]);
    store.merge_remote(&[rec("a", 5), rec("b", 6)], &[None, None]);
    let mut e = engine(2);
    e.broadcast_index(&store);
    let sent = flush(&mut e, 0);
    assert_eq!(sent.len(), 4);
    assert_eq!(parse_hello(&sent[0].pkt.body), Some(([1; 16], 1)));
    assert_eq!(sent[0].pkt.typ, T_HELLO);
    assert_eq!((sent[0].device, sent[0].app), ([1; 16], [101; 16]));
    assert_eq!(sent[1].pkt.typ, T_INDEX);
    assert_eq!(parse_index(&sent[1].pkt.body).unwrap().3, store.records());
    assert_eq!(sent[2].device, [2; 16]);
    let ids: Vec<u64> = sent.iter().map(|s| s.pkt.msg_id).collect();
    assert_eq!(ids, vec![1, 2, 3, 4]);
    // Not again in the same generation, unless asked for.
    let mut quiet = engine(2);
    quiet.broadcast_index(&store);
    quiet.broadcast_index(&store);
    assert_eq!(quiet.flush(0).len(), 4);
    quiet.invalidate_index();
    quiet.broadcast_index(&store);
    assert_eq!(quiet.flush(1).len(), 4);
    // Nobody to send to.
    let mut alone = engine(0);
    alone.broadcast_index(&store);
    assert!(alone.flush(0).is_empty());
}

#[test]
fn retries_until_confirmed_or_given_up() {
    let mut e = engine(1);
    e.missing = vec![[3; 32], [4; 32]];
    e.request_missing();
    let first = flush(&mut e, 1_000);
    assert_eq!(first.len(), 2);
    assert_eq!(parse_want(&first[0].pkt.body), Some([3; 32]));
    // Too early to repeat.
    assert!(e.flush(1_000 + RETRY - 1).is_empty());
    // The first is confirmed, the second repeated.
    assert_eq!(e.on_packet([101; 16], ack(first[0].pkt.msg_id)), Action::Nothing);
    let mut now = 1_000;
    let mut sent = 1;
    for _ in 0..40 {
        now += RETRY;
        let again = flush(&mut e, now);
        sent += again.len();
        for s in &again {
            assert_eq!(s.pkt.msg_id, first[1].pkt.msg_id);
            assert_eq!(s.pkt.typ, T_WANT);
        }
    }
    assert_eq!(sent, MAX_TRIES as usize);
}

#[test]
fn at_most_four_blobs_are_asked_for() {
    let mut e = engine(2);
    let hashes: Vec<[u8; 32]> = (0..6).map(|i| [i; 32]).collect();
    e.note_missing(&hashes);
    e.note_missing(&hashes[2..4]);
    assert_eq!(e.missing, hashes);
    e.request_missing();
    let sent = flush(&mut e, 0);
    let asked: Vec<(u8, u8)> = sent.iter().map(|s| (s.pkt.body[0], s.device[0])).collect();
    assert_eq!(asked, vec![(0, 1), (0, 2), (1, 1), (1, 2), (2, 1), (2, 2), (3, 1), (3, 2)]);
}

fn with_id(mut p: Packet, id: u64) -> Packet {
    p.msg_id = id;
    p
}

#[test]
fn messages_from_peers_are_confirmed() {
    let mut e = engine(2);
    assert_eq!(e.on_packet([102; 16], with_id(hello(&[1; 16], 1), 77)), Action::Nothing);
    // No id, or no peer: no ACK.
    assert_eq!(e.on_packet([102; 16], hello(&[1; 16], 1)), Action::Nothing);
    assert_eq!(e.on_packet([9; 16], with_id(hello(&[1; 16], 1), 78)), Action::Nothing);
    let sent = flush(&mut e, 0);
    assert_eq!(sent.len(), 1);
    assert_eq!(sent[0].pkt.typ, T_ACK);
    assert_eq!(sent[0].pkt.msg_id, 0);
    assert_eq!(sent[0].device, [2; 16]);
    assert_eq!(parse_ack(&sent[0].pkt.body), Some(77));
    // ACKs are not repeated.
    assert!(e.flush(10 * RETRY).is_empty());
}

#[test]
fn packets_ask_for_actions() {
    let mut e = engine(1);
    let recs = vec![rec("a", 5), rec("b", 6)];
    let body = encode_index(4, &recs)[0].clone();
    let pkt = Packet { typ: T_INDEX, msg_id: 3, body };
    assert_eq!(e.on_packet([101; 16], pkt), Action::Merge(recs));
    assert_eq!(e.on_packet([101; 16], want(&[8; 32])), Action::Send([8; 32]));
    assert_eq!(e.on_packet([50; 16], want(&[8; 32])), Action::Nothing);
    let broken = Packet { typ: T_INDEX, msg_id: 0, body: vec![1, 2] };
    assert_eq!(e.on_packet([101; 16], broken), Action::Nothing);
    let odd = Packet { typ: 99, msg_id: 5, body: vec![] };
    assert_eq!(e.on_packet([101; 16], odd), Action::Nothing);
    assert_eq!(e.flush(0).len(), 1);
}

fn sample(len: usize) -> Vec<u8> {
    (0..len).map(|i| (i * 7 % 251) as u8).collect()
}

fn slices(data: &[u8]) -> Vec<Packet> {
    let mut e = engine(1);
    e.send_chunks([101; 16], sha256(data), data);
    flush(&mut e, 0).into_iter().map(|s| s.pkt).collect()
}

#[test]
fn blobs_are_cut_into_slices() {
    for (len, count) in [(0, 1), (1, 1), (2048, 1), (2049, 2), (5000, 3)] {
        let data = sample(len);
        let pkts = slices(&data);
        assert_eq!(pkts.len(), count);
        let mut got: Vec<u8> = Vec::new();
        for p in &pkts {
            assert_eq!(p.typ, T_CHUNK);
            let (hash, total, offset, piece) = parse_chunk(&p.body).unwrap();
            assert_eq!(hash, sha256(&data));
            assert_eq!(total as usize, len);
            assert_eq!(offset as usize, got.len());
            assert!(piece.len() <= CHUNK_SIZE);
            got.extend(piece);
        }
        assert_eq!(got, data);
    }
    let mut e = engine(1);
    e.send_chunks([9; 16], [0; 32], &[1]);
    assert!(e.flush(0).is_empty());
    e.send_chunks([101; 16], [0; 32], &vec![0; MAX_FILE_BYTES as usize + 1]);
    assert!(e.flush(0).is_empty());
}

#[test]
fn slices_come_together_in_any_order() {
    let data = sample(5000);
    let hash = sha256(&data);
    let pkts = slices(&data);
    for order in [vec![0, 1, 2], vec![2, 0, 1], vec![1, 1, 2, 1, 0]] {
        let mut e = engine(1);
        e.missing = vec![[1; 32], hash, [2; 32]];
        let (last, early) = order.split_last().unwrap();
        for i in early {
            assert_eq!(e.on_packet([101; 16], pkts[*i].clone()), Action::Nothing);
        }
        assert_eq!(
            e.on_packet([101; 16], pkts[*last].clone()),
            Action::Install { hash, data: data.clone() }
        );
        assert_eq!(e.missing, vec![[1; 32], [2; 32]]);
        // It starts from nothing again.
        assert_eq!(e.on_packet([101; 16], pkts[0].clone()), Action::Nothing);
    }
    let mut e = engine(1);
    assert_eq!(
        e.on_packet([101; 16], slices(&[])[0].clone()),
        Action::Install { hash: sha256(&[]), data: vec![] }
    );
}

#[test]
fn slices_that_do_not_fit_are_ignored() {
    let mut e = engine(1);
    let hash = [5; 32];
    let too_big = chunk(&hash, MAX_FILE_BYTES + 1, 0, &[1]);
    assert_eq!(e.on_packet([101; 16], too_big), Action::Nothing);
    let outside = chunk(&hash, 3, 2, &[1, 2]);
    assert_eq!(e.on_packet([101; 16], outside), Action::Nothing);
    let far = chunk(&hash, 3, u64::MAX, &[1, 2]);
    assert_eq!(e.on_packet([101; 16], far), Action::Nothing);
    // A size that differs from the first one.
    let first = chunk(&hash, 2050, 2048, &[8, 9]);
    assert_eq!(e.on_packet([101; 16], first), Action::Nothing);
    let other = chunk(&hash, 2, 0, &[8, 9]);
    assert_eq!(e.on_packet([101; 16], other), Action::Nothing);
    let rest = chunk(&hash, 2050, 0, &[4; 2048]);
    let mut data = vec![4; 2048];
    data.extend([8, 9]);
    assert_eq!(e.on_packet([101; 16], rest), Action::Install { hash, data });
}

#[test]
fn ticks_follow_their_rules() {
    let mut store = Store::open_with(None, [1; 16]);
    store.merge_remote(&[rec("a", 5)], &[None]);
    // Without a token nothing happens.
    let mut none = Engine::new([0; 16]);
    none.approved = true;
    none.peers = vec![peer(1)];
    assert!(!none.registered());
    assert!(none.tick(&store, 0, true, 0).is_empty());
    // Not approved: no announcement, but requests.
    let mut e = engine(1);
    assert!(e.registered());
    e.missing = vec![[3; 32]];
    assert_eq!(e.tick(&store, 0, true, 0).len(), 1);
    // Approved: at every sixteenth tick, once in a generation.
    let mut e = engine(1);
    e.approved = true;
    assert!(e.tick(&store, 1, false, 0).is_empty());
    assert_eq!(e.tick(&store, 16, false, 0).len(), 2);
    assert!(e.tick(&store, 32, false, 1).is_empty());
    // A change is announced at once.
    assert_eq!(e.tick(&store, 33, true, 2).len(), 2);
    // So is one that a web write has invalidated, at the next tick only.
    e.invalidate_index();
    assert_eq!(e.tick(&store, 35, false, 3).len(), 2);
    assert!(e.tick(&store, 36, false, 4).is_empty());
    let mut waiting = engine(1);
    waiting.invalidate_index();
    assert!(waiting.tick(&store, 1, false, 0).is_empty());
    waiting.approved = true;
    assert!(waiting.tick(&store, 2, false, 0).is_empty());
    assert!(refresh_due(0) && refresh_due(8) && !refresh_due(9));
    assert!(complaint_due(64) && !complaint_due(8));
}

#[test]
fn directory_is_taken_over_or_refused() {
    let mut raw = vec![0];
    raw.extend([1; 16]);
    raw.push(0);
    raw.extend([0; 6]);
    raw.push(1);
    raw.extend([0; 16]);
    raw.extend([2; 16]);
    raw.push(0);
    raw.extend([3; 16]);
    let mut e = engine(2);
    assert_eq!(e.refresh_dir(&raw, "filesync"), Err("bad directory".to_string()));
    assert_eq!(e.peers.len(), 2);
    raw.push(0);
    assert_eq!(e.refresh_dir(&raw, "filesync"), Ok(()));
    assert_eq!(e.app_id, [1; 16]);
    assert_eq!(e.device_uuid, [2; 16]);
    assert!(e.approved);
    assert!(e.peers.is_empty());
}

#[test]
fn strangers_are_ignored() {
    let mut e = engine(1);
    e.missing = vec![[5; 32]];
    let index = Packet { typ: T_INDEX, msg_id: 3, body: encode_index(4, &[rec("a", 5)])[0].clone() };
    assert_eq!(e.on_packet([9; 16], index.clone()), Action::Nothing);
    let data = sample(3);
    let slice = with_id(chunk(&sha256(&data), 3, 0, &data), 4);
    assert_eq!(e.on_packet([9; 16], slice.clone()), Action::Nothing);
    // The first of two slices leaves nothing behind either.
    assert_eq!(e.on_packet([9; 16], chunk(&[6; 32], 2050, 2048, &[1, 2])), Action::Nothing);
    assert_eq!(e.on_packet([101; 16], chunk(&[6; 32], 2050, 0, &[0; 2048])), Action::Nothing);
    assert_eq!(e.on_packet([9; 16], with_id(want(&[8; 32]), 5)), Action::Nothing);
    assert_eq!(e.on_packet([9; 16], with_id(hello(&[1; 16], 1), 6)), Action::Nothing);
    assert_eq!(e.missing, vec![[5; 32]]);
    assert!(e.flush(0).is_empty());
    // A peer is heard.
    assert_eq!(e.on_packet([101; 16], index), Action::Merge(vec![rec("a", 5)]));
    assert_eq!(
        e.on_packet([101; 16], slice),
        Action::Install { hash: sha256(&data), data: data.clone() }
    );
    assert_eq!(e.flush(0).len(), 2);
}

#[test]
fn a_blob_of_another_hash_is_still_missing() {
    let mut e = engine(1);
    e.missing = vec![[5; 32], [6; 32]];
    let wrong = chunk(&[5; 32], 1, 0, &[0]);
    let install = Action::Install { hash: [5; 32], data: vec![0] };
    assert_eq!(e.on_packet([101; 16], wrong.clone()), install);
    assert_eq!(e.missing, vec![[5; 32], [6; 32]]);
    assert!(Store::open(None).install_blob(&[5; 32], &[0]).is_empty());
    // The transfer can begin again.
    assert_eq!(e.on_packet([101; 16], wrong), install);
    // By hand: assemble, then note the digest.
    assert_eq!(e.assemble(&[6; 32], 2, 0, &[1, 2]), Some(vec![1, 2]));
    e.note_digest(&[6; 32], &[7; 32]);
    assert_eq!(e.missing, vec![[5; 32], [6; 32]]);
    e.note_digest(&[6; 32], &[6; 32]);
    assert_eq!(e.missing, vec![[5; 32]]);
    let right = sha256(b"xy");
    e.note_missing(&[right]);
    assert_eq!(e.on_chunk(&right, 2, 0, b"xy"), Some(b"xy".to_vec()));
    assert_eq!(e.missing, vec![[5; 32]]);
}

#[test]
fn ids_follow_each_other() {
    let mut e = engine(1);
    let mut ids = Vec::new();
    for round in 0..3u64 {
        e.enqueue(&peer(1), want(&[1; 32]));
        e.enqueue(&peer(1), hello(&[2; 16], 1));
        let sent = flush(&mut e, round);
        for s in &sent {
            ids.push(s.pkt.msg_id);
            e.on_packet([101; 16], ack(s.pkt.msg_id));
        }
    }
    assert_eq!(ids, vec![1, 2, 3, 4, 5, 6]);
}
