use pnet_filesync::proto::{
    ack, chunk, decode, decode_record, encode, encode_index, encode_record, hello, parse_ack, parse_chunk, parse_hello,
    parse_index, parse_want, want, Packet, CHUNK_SIZE, HEADER_LEN, MAX_PAYLOAD, T_ACK, T_CHUNK,
    T_HELLO, T_INDEX, T_WANT, LONGEST_PATH,
};
use pnet_filesync::store::FileRec;

fn rec(path: &str, size: u64, mtime: u64, deleted: bool) -> FileRec {
    FileRec {
        path: path.into(),
        size,
        mtime,
        hash: [size as u8; 32],
        deleted,
    }
}

#[test]
fn packet_roundtrip() {
    let p = Packet {
        typ: T_WANT,
        msg_id: 42,
        body: vec![9; 32],
    };
    let enc = encode(&p);
    assert!(enc.len() < MAX_PAYLOAD);
    assert_eq!(decode(&enc), Some(p));
}

#[test]
fn index_roundtrip_and_split() {
    let recs: Vec<_> = (0..80)
        .map(|i| rec(&format!("dir/file-{i}.txt"), 10 + i, 1_700_000_000 + i, false))
        .collect();
    let bodies = encode_index(7, &recs);
    assert!(bodies.len() >= 1);
    let mut got = Vec::new();
    for b in &bodies {
        assert!(b.len() + HEADER_LEN <= MAX_PAYLOAD);
        let (gen, _part, parts, chunk) = parse_index(b).unwrap();
        assert_eq!(gen, 7);
        assert_eq!(parts as usize, bodies.len());
        got.extend(chunk);
    }
    assert_eq!(got, recs);
}

#[test]
fn chunk_roundtrip() {
    let hash = [3u8; 32];
    let data = vec![1, 2, 3, 4, 5];
    let p = chunk(&hash, 100, 40, &data);
    let (h, total, off, d) = parse_chunk(&p.body).unwrap();
    assert_eq!(h, hash);
    assert_eq!(total, 100);
    assert_eq!(off, 40);
    assert_eq!(d, &data);
}

#[test]
fn ack_and_hello_roundtrip() {
    let a = ack(99);
    assert_eq!(parse_ack(&a.body), Some(99));
    let replica = [7u8; 16];
    let h = hello(&replica, 12);
    assert_eq!(parse_hello(&h.body), Some((replica, 12)));
}

#[test]
fn packets_have_their_layout() {
    let p = Packet { typ: T_HELLO, msg_id: 0x0102, body: vec![0xaa] };
    assert_eq!(encode(&p), vec![1, 1, 0, 0, 0, 0, 0, 0, 1, 2, 0xaa]);
    assert_eq!(p.clone(), p);
    assert_eq!(decode(&[2, 1, 0, 0, 0, 0, 0, 0, 1, 2, 0xaa]), None);
    assert_eq!(decode(&[1, 1, 0, 0, 0, 0, 0, 0, 1]), None);
    let whole = encode(&p);
    assert_eq!(encode(&decode(&whole).unwrap()), whole);
    assert_eq!(ack(1), Packet { typ: T_ACK, msg_id: 0, body: vec![0, 0, 0, 0, 0, 0, 0, 1] });
    assert_eq!(want(&[5; 32]), Packet { typ: T_WANT, msg_id: 0, body: vec![5; 32] });
}

#[test]
fn bodies_of_the_wrong_size_are_refused() {
    assert_eq!(parse_ack(&[0; 7]), None);
    assert_eq!(parse_ack(&[0; 9]), None);
    assert_eq!(parse_hello(&[0; 23]), None);
    assert_eq!(parse_hello(&[0; 25]), None);
    assert_eq!(parse_want(&[0; 31]), None);
    assert_eq!(parse_want(&[4; 32]), Some([4; 32]));
    assert!(parse_chunk(&[0; 47]).is_none());
    assert_eq!(parse_chunk(&[0; 48]).unwrap().3.len(), 0);
    assert!(parse_index(&[0; 11]).is_none());
}

#[test]
fn largest_chunk_fits() {
    let p = chunk(&[1; 32], 5000, 0, &[7; CHUNK_SIZE]);
    assert_eq!(p.typ, T_CHUNK);
    assert_eq!(encode(&p).len(), HEADER_LEN + 48 + CHUNK_SIZE);
    assert!(encode(&p).len() <= MAX_PAYLOAD);
}

#[test]
fn empty_index_is_one_packet() {
    let bodies = encode_index(3, &[]);
    assert_eq!(bodies, vec![vec![0, 0, 0, 0, 0, 0, 0, 3, 0, 0, 0, 1]]);
    assert_eq!(parse_index(&bodies[0]), Some((3, 0, 1, vec![])));
}

#[test]
fn index_record_layout() {
    let mut r = rec("é", 0x0203, 0x0405, true);
    r.hash = [6; 32];
    let body = &encode_index(1, &[r.clone()])[0];
    let mut expected = vec![0, 0, 0, 0, 0, 0, 0, 1, 0, 0, 0, 1];
    expected.push(1);
    expected.extend([0, 0, 0, 0, 0, 0, 4, 5]);
    expected.extend([0, 0, 0, 0, 0, 0, 2, 3]);
    expected.extend([6; 32]);
    expected.extend([0, 2]);
    expected.extend("é".as_bytes());
    assert_eq!(body, &expected);
    assert_eq!(parse_index(body), Some((1, 0, 1, vec![r])));
    let mut broken = body.clone();
    let last = broken.len() - 1;
    broken[last] = b'x';
    assert!(parse_index(&broken).is_none());
    assert!(parse_index(&body[..last]).is_none());
    assert!(parse_index(&body[..40]).is_none());
}

#[test]
fn longest_paths_still_fit() {
    let recs: Vec<_> = (0..20).map(|i| rec(&format!("{:0>512}", i), i, i, i % 2 == 0)).collect();
    let bodies = encode_index(9, &recs);
    // Six records of 563 bytes go into 3478.
    assert_eq!(bodies.len(), 4);
    let mut got = Vec::new();
    for (i, b) in bodies.iter().enumerate() {
        assert!(b.len() + HEADER_LEN <= MAX_PAYLOAD);
        let (gen, part, parts, recs) = parse_index(b).unwrap();
        assert_eq!((gen, part as usize, parts), (9, i, 4));
        got.extend(recs);
    }
    assert_eq!(got, recs);
}

#[test]
fn a_record_reads_back_from_the_middle() {
    let r = rec("dir/é", 9, 77, true);
    let e = encode_record(&r);
    let mut buf = vec![9, 9, 9];
    buf.extend(&e);
    buf.extend([1, 2]);
    let mut pos = 3;
    assert_eq!(decode_record(&buf, &mut pos), Some(r));
    assert_eq!(pos, 3 + e.len());
    assert_eq!(decode_record(&buf, &mut pos), None);
    assert_eq!(pos, 3 + e.len());
    let mut pos = 3;
    assert_eq!(decode_record(&buf[..3 + 53], &mut pos), None);
    assert_eq!(pos, 3 + 51);
    let mut pos = 99999;
    assert_eq!(decode_record(&buf, &mut pos), None);
}

#[test]
fn the_longest_path_fills_a_packet() {
    let fits = rec(&"x".repeat(LONGEST_PATH), 1, 2, false);
    let bodies = encode_index(9, &[fits.clone(), fits]);
    assert_eq!(bodies.len(), 2);
    for body in bodies {
        let p = Packet { typ: T_INDEX, msg_id: 1, body };
        assert_eq!(encode(&p).len(), MAX_PAYLOAD);
    }
    let over = rec(&"x".repeat(LONGEST_PATH + 1), 1, 2, false);
    assert_eq!(encode_index(9, &[over])[0].len() + HEADER_LEN, MAX_PAYLOAD + 1);
    assert_eq!(encode(&ack(u64::MAX)).len(), 18);
}
