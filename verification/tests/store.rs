use pnet_filesync::pathmap::PathMap;
use pnet_filesync::store::{
    blob_decide, blob_step, hex16, hex16_decode, hex32, hex32_decode, rec_beats, sha256, walk_step,
    BlobStep, DiskIndex, Effect, EntryKind, FileError, FileRec, Found, Merged, Scan, Store,
    WalkStep, MAX_FILE_BYTES,
};

fn rec(path: &str, size: u64, mtime: u64, hash: u8, deleted: bool) -> FileRec {
    FileRec {
        path: path.into(),
        size,
        mtime,
        hash: [hash; 32],
        deleted,
    }
}

fn found(rel: &str, size: u64, mtime: u64, data: &[u8]) -> Found {
    Found {
        rel: rel.into(),
        meta: Some((size, mtime)),
        hash: Some(sha256(data)),
    }
}

fn listing(s: &Store) -> Vec<FileRec> {
    s.records()
}

#[test]
fn scan_sees_new_file_and_delete() {
    let mut s = Store::open(None);
    assert!(s.scan(&[found("hello.txt", 2, 100, b"hi")], 100));
    assert_eq!(s.live_list().len(), 1);
    assert_eq!(s.live_list()[0].path, "hello.txt");
    assert!(s.scan(&[], 101));
    assert!(s.live_list().is_empty());
    assert!(s.files.get("hello.txt").unwrap().deleted);
}

#[test]
fn merge_lww_prefers_newer_mtime() {
    let mut s = Store::open(None);
    s.files.insert(
        "a.txt".into(),
        FileRec {
            path: "a.txt".into(),
            size: 1,
            mtime: 10,
            hash: [1u8; 32],
            deleted: false,
        },
    );
    let newer = FileRec {
        path: "a.txt".into(),
        size: 2,
        mtime: 20,
        hash: [2u8; 32],
        deleted: false,
    };
    let (want, _) = s.merge_remote(&[newer.clone()], &[None]);
    assert_eq!(s.files.get("a.txt").unwrap().mtime, 20);
    assert_eq!(want, vec![[2u8; 32]]);
    let older = FileRec {
        path: "a.txt".into(),
        size: 3,
        mtime: 5,
        hash: [3u8; 32],
        deleted: false,
    };
    let (want2, _) = s.merge_remote(&[older], &[None]);
    assert_eq!(s.files.get("a.txt").unwrap().hash, [2u8; 32]);
    assert!(want2.is_empty());
}

#[test]
fn install_blob_writes_tree() {
    let mut s = Store::open(None);
    let data = b"hello-sync";
    let hash = sha256(data);
    s.files.insert(
        "n/a.txt".into(),
        FileRec {
            path: "n/a.txt".into(),
            size: data.len() as u64,
            mtime: 1,
            hash,
            deleted: false,
        },
    );
    assert_eq!(s.install_blob(&hash, data), vec![("n/a.txt".to_string(), 1)]);
}

#[test]
fn digest_of_a_known_text() {
    assert_eq!(
        hex32(&sha256(b"abc")),
        "ba7816bf8f01cfea414140de5dae2223b00361a396177a9cb410ff61f20015ad"
    );
    assert_eq!(
        hex32(&sha256(b"")),
        "e3b0c44298fc1c149afbf4c8996fb92427ae41e4649b934ca495991b7852b855"
    );
}

#[test]
fn hex_ids_come_back() {
    let id: [u8; 16] = [0, 1, 2, 15, 16, 17, 127, 128, 200, 254, 255, 9, 10, 11, 12, 13];
    assert_eq!(hex16(&id), "0001020f10117f80c8feff090a0b0c0d");
    assert_eq!(hex16_decode(&hex16(&id)), Some(id));
    assert_eq!(hex16_decode(&hex16(&id).to_uppercase()), Some(id));
    assert_eq!(hex16_decode("00"), None);
    assert_eq!(hex16_decode("zz01020f10117f80c8feff090a0b0c0d"), None);
    assert_eq!(hex32_decode(&hex32(&[0xab; 32])), Some([0xab; 32]));
    assert_eq!(hex32_decode(&"é".repeat(32)), None);
}

#[test]
fn later_write_wins_then_delete_then_hash() {
    let file = rec("a", 1, 10, 5, false);
    assert!(rec_beats(&rec("a", 1, 11, 1, false), &file));
    assert!(!rec_beats(&rec("a", 1, 9, 9, true), &file));
    assert!(rec_beats(&rec("a", 0, 10, 0, true), &file));
    assert!(!rec_beats(&file, &rec("a", 0, 10, 0, true)));
    assert!(rec_beats(&rec("a", 1, 10, 6, false), &file));
    assert!(!rec_beats(&rec("a", 9, 10, 5, false), &file));
}

#[test]
fn merging_asks_for_what_is_not_there() {
    let mut s = Store::open(None);
    let recs = vec![
        rec("b", 3, 10, 7, false),
        rec("c", 3, 10, 7, false),
        rec("d", 3, 10, 8, false),
        rec("empty", 0, 11, 0, false),
        rec("gone", 0, 12, 0, true),
        rec("../up", 3, 10, 9, false),
        rec("./x//y", 4, 10, 6, false),
    ];
    let disk = vec![None, None, Some([8; 32]), None, None, None, Some([1; 32])];
    let (want, effects) = s.merge_remote(&recs, &disk);
    assert_eq!(want, vec![[7; 32], [6; 32]]);
    assert_eq!(
        effects,
        vec![
            Effect::CreateEmpty { path: "empty".into(), mtime: 11 },
            Effect::Remove { path: "gone".into() },
        ]
    );
    assert_eq!(s.gen, 1);
    assert_eq!(s.files.get("x/y").unwrap().path, "x/y");
    assert!(s.files.get("../up").is_none());
    assert_eq!(s.live_list().len(), 5);
    // The same index again changes nothing.
    let before = listing(&s);
    let (want, effects) = s.merge_remote(&recs, &disk);
    assert!(want.is_empty() && effects.is_empty());
    assert_eq!(s.gen, 1);
    assert_eq!(listing(&s), before);
}

#[test]
fn merging_one_record_at_a_time() {
    let mut s = Store::open(None);
    let r = rec("a", 2, 10, 3, false);
    assert_eq!(s.merge_target(&r), Some(r.clone()));
    assert_eq!(s.merge_probe(&rec("./a", 2, 10, 3, false)).as_deref(), Some("a"));
    assert_eq!(s.merge_probe(&rec("a", 0, 10, 3, false)), None);
    assert_eq!(s.merge_probe(&rec("a", 2, 10, 3, true)), None);
    assert_eq!(s.merge_probe(&rec("..", 2, 10, 3, false)), None);
    let mut want = Vec::new();
    assert_eq!(s.merge_one(&r, None, &mut want), Merged::Taken(None));
    assert_eq!(want, vec![[3; 32]]);
    assert_eq!(s.merge_one(&r, None, &mut want), Merged::Kept);
    assert_eq!(s.merge_target(&r), None);
    let tomb = rec("a", 0, 10, 0, true);
    assert_eq!(
        s.merge_one(&tomb, Some([3; 32]), &mut want),
        Merged::Taken(Some(Effect::Remove { path: "a".into() }))
    );
    assert_eq!(s.gen, 0);
    s.bump(true);
    s.bump(false);
    assert_eq!(s.gen, 1);
    s.gen = u64::MAX;
    s.bump(true);
    assert_eq!(s.gen, u64::MAX);
}

#[test]
fn replicas_that_exchange_indexes_agree() {
    let mut a = Store::open(None);
    let mut b = Store::open(None);
    a.merge_remote(
        &[rec("x", 1, 10, 1, false), rec("y", 1, 20, 2, false), rec("z", 1, 5, 9, false)],
        &[None, None, None],
    );
    b.merge_remote(
        &[rec("x", 1, 12, 3, false), rec("y", 0, 20, 0, true), rec("w", 1, 1, 4, false)],
        &[None, None, None],
    );
    let of_a = listing(&a);
    let of_b = listing(&b);
    a.merge_remote(&of_b, &vec![None; of_b.len()]);
    b.merge_remote(&of_a, &vec![None; of_a.len()]);
    assert_eq!(listing(&a), listing(&b));
    assert_eq!(a.files.get("x").unwrap().mtime, 12);
    assert!(a.files.get("y").unwrap().deleted);
    // The order in which records come makes no difference.
    let mut c = Store::open(None);
    let mut all = of_b.clone();
    all.extend(of_a);
    all.reverse();
    c.merge_remote(&all, &vec![None; all.len()]);
    assert_eq!(listing(&c), listing(&a));
}

#[test]
fn scan_takes_in_what_changed() {
    let mut s = Store::open(None);
    let walk = vec![
        found("a.txt", 2, 100, b"hi"),
        found("dir/b.txt", 3, 100, b"abc"),
        found(".hidden", 1, 100, b"x"),
        found("big", MAX_FILE_BYTES + 1, 100, b"y"),
        Found { rel: "unreadable".into(), meta: Some((1, 1)), hash: None },
        Found { rel: "odd".into(), meta: None, hash: None },
    ];
    assert!(s.scan(&walk, 500));
    assert_eq!(s.gen, 1);
    let paths: Vec<String> = s.live_list().into_iter().map(|r| r.path).collect();
    assert_eq!(paths, vec!["a.txt", "dir/b.txt"]);
    assert_eq!(s.files.get("a.txt").unwrap().hash, sha256(b"hi"));
    // Nothing happened: nothing changes.
    assert!(!s.scan(&walk, 600));
    assert_eq!(s.gen, 1);
    // Same size and time: the content is not looked at again.
    assert!(!s.scan_needs_hash("a.txt", 2, 100));
    assert!(s.scan_needs_hash("a.txt", 2, 101));
    assert!(s.scan_needs_hash("new", 2, 100));
    assert!(!s.scan_needs_hash("new", MAX_FILE_BYTES + 1, 100));
    // One file goes.
    assert!(s.scan(&walk[1..], 50));
    let gone = s.files.get("a.txt").unwrap();
    assert_eq!(gone, &rec("a.txt", 0, 101, 0, true));
    assert!(s.scan(&[], 900));
    assert_eq!(s.files.get("dir/b.txt").unwrap(), &rec("dir/b.txt", 0, 900, 0, true));
    // A file that comes back is alive again.
    assert!(s.scan(&walk[..1], 901));
    assert!(!s.files.get("a.txt").unwrap().deleted);
}

#[test]
fn scan_step_by_step() {
    let mut s = Store::open(None);
    s.files.insert("old".into(), rec("old", 1, u64::MAX, 1, false));
    s.files.insert("kept".into(), rec("kept", 1, 7, 1, false));
    let mut scan = Scan::new();
    s.scan_one(&mut scan, &found("./kept", 1, 7, b"k"));
    assert!(!s.can_bury(&scan));
    s.scan_one(&mut scan, &Found { rel: "old".into(), meta: None, hash: None });
    assert!(s.can_bury(&scan));
    assert!(!s.scan_finish(&scan, 3));
    assert_eq!(s.gen, 0);
    assert!(!s.files.get("old").unwrap().deleted);
}

#[test]
fn persisted_index_opens_again() {
    let mut s = Store::open(None);
    s.merge_remote(
        &[rec("b/c", 1, 10, 1, false), rec("a", 0, 20, 0, true)],
        &[None, None],
    );
    let disk = s.persist();
    assert_eq!(disk.replica_id, hex16(&s.replica_id));
    assert_eq!(disk.files[0].path, "a");
    let back = Store::open(Some(disk));
    assert_eq!(back.replica_id, s.replica_id);
    assert_eq!(back.gen, 1);
    assert_eq!(listing(&back), listing(&s));
}

#[test]
fn opening_keeps_acceptable_records() {
    let disk = DiskIndex {
        replica_id: "not hex".into(),
        gen: 5,
        files: vec![
            rec("x", 1, 1, 1, false),
            rec("/abs", 1, 1, 1, false),
            rec("./x", 1, 2, 2, false),
        ],
    };
    let s = Store::open_with(Some(disk), [4; 16]);
    assert_eq!(s.replica_id, [4; 16]);
    assert_eq!(s.gen, 5);
    assert_eq!(listing(&s), vec![rec("x", 1, 2, 2, false)]);
    assert_eq!(Store::open_with(None, [3; 16]).replica_id, [3; 16]);
    // Ids of new replicas are random.
    assert_ne!(Store::open(None).replica_id, Store::open(None).replica_id);
}

#[test]
fn blobs_are_installed_where_they_are_named() {
    let mut s = Store::open(None);
    let hash = sha256(b"data");
    for (path, deleted) in [("b", false), ("a", false), ("c", true)] {
        s.files.insert(
            path.into(),
            FileRec { path: path.into(), size: 4, mtime: 9, hash, deleted },
        );
    }
    s.files.insert("other".into(), rec("other", 4, 9, 1, false));
    let targets = vec![("a".to_string(), 9), ("b".to_string(), 9)];
    assert_eq!(s.install_blob(&hash, b"data"), targets);
    assert!(s.install_blob(&hash, b"date").is_empty());
    assert_eq!(s.install_targets(&hash, MAX_FILE_BYTES as usize, &hash), targets);
    assert!(s.install_targets(&hash, MAX_FILE_BYTES as usize + 1, &hash).is_empty());
    assert!(s.install_targets(&hash, 4, &[0; 32]).is_empty());
    assert_eq!(s.blob(&hash), vec!["a", "b"]);
    assert!(s.blob(&[7; 32]).is_empty());
    assert_eq!(blob_step(&hash, Some(b"data")), BlobStep::Found);
    assert_eq!(blob_step(&hash, Some(b"stale")), BlobStep::Next);
    assert_eq!(blob_step(&hash, None), BlobStep::Missing);
    assert_eq!(blob_decide(&[1; 32], Some([1; 32])), BlobStep::Found);
    assert_eq!(blob_decide(&[1; 32], Some([2; 32])), BlobStep::Next);
}

#[test]
fn files_are_named_by_normal_paths() {
    let mut s = Store::open(None);
    s.files.insert("n/a".into(), rec("n/a", 1, 1, 1, false));
    s.files.insert("gone".into(), rec("gone", 0, 1, 0, true));
    assert_eq!(s.read_file("./n//a").as_deref(), Some("n/a"));
    assert_eq!(s.read_file("gone"), None);
    assert_eq!(s.read_file("none"), None);
    assert_eq!(s.read_file("../n/a"), None);
    assert_eq!(s.write_file("up/x ", 10), Ok("up/x".to_string()));
    assert_eq!(s.write_file("x", MAX_FILE_BYTES as usize), Ok("x".to_string()));
    assert_eq!(s.write_file("x", MAX_FILE_BYTES as usize + 1), Err(FileError::TooLarge));
    assert_eq!(s.write_file("..", MAX_FILE_BYTES as usize + 1), Err(FileError::BadPath));
    assert_eq!(s.remove_file("a/b"), Ok("a/b".to_string()));
    assert_eq!(s.remove_file(".a"), Err(FileError::BadPath));
}

#[test]
fn walks_skip_what_is_hidden() {
    assert_eq!(walk_step(".git", ".git", EntryKind::Directory), WalkStep::Skip);
    assert_eq!(walk_step(".x", "a/.x", EntryKind::File), WalkStep::Skip);
    assert_eq!(walk_step("d", "a/d", EntryKind::Directory), WalkStep::Enter);
    assert_eq!(walk_step("f", "a/f", EntryKind::File), WalkStep::Visit("a/f".into()));
    assert_eq!(walk_step("f", "a\\f", EntryKind::File), WalkStep::Visit("a/f".into()));
    assert_eq!(walk_step("l", "a/l", EntryKind::Other), WalkStep::Skip);
}

#[test]
fn maps_start_empty() {
    let m: PathMap<FileRec> = PathMap::new();
    assert!(m.get("a").is_none());
}

#[test]
fn order_decides_no_conflict() {
    // Records that nothing tells apart but their size: which one stays depends on
    // the order, what the index says of the file does not.
    let small = rec("a", 1, 10, 5, false);
    let large = rec("a", 2, 10, 5, false);
    let mut s = Store::open(None);
    s.merge_remote(&[small.clone(), large.clone()], &[None, None]);
    let mut t = Store::open(None);
    t.merge_remote(&[large.clone(), small.clone()], &[None, None]);
    let (x, y) = (s.files.get("a").unwrap(), t.files.get("a").unwrap());
    assert_eq!((x.mtime, x.deleted, x.hash), (y.mtime, y.deleted, y.hash));
    assert!(!rec_beats(x, y) && !rec_beats(y, x));
    // Where a third record beats both, the order makes no difference at all.
    let newer = rec("a", 3, 11, 1, false);
    let mut s = Store::open(None);
    s.merge_remote(&[small.clone(), large.clone(), newer.clone()], &[None, None, None]);
    let mut t = Store::open(None);
    t.merge_remote(&[newer.clone(), large, small], &[None, None, None]);
    assert_eq!(listing(&s), vec![newer]);
    assert_eq!(listing(&s), listing(&t));
}

#[test]
fn a_path_that_is_met_twice_settles() {
    // Two names for one path, of one size and time; a third that cannot be read.
    let walk = vec![
        found("x", 2, 7, b"hi"),
        found(" x", 2, 7, b"ho"),
        Found { rel: "x ".into(), meta: Some((9, 9)), hash: None },
    ];
    let mut s = Store::open(None);
    assert!(s.scan(&walk, 10));
    assert!(!s.scan(&walk, 11));
    // Of different times they replace each other at every scan.
    let walk = vec![found("x", 2, 7, b"hi"), found(" x", 2, 8, b"ho")];
    assert!(s.scan(&walk, 12));
    assert!(s.scan(&walk, 13));
}
