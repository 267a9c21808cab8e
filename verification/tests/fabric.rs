use pnet_filesync::fabric::{
    get_data, get_data_reply, parse_directory, parse_push, register, register_refused,
    register_reply, send_payload, APP_ALIAS,
};

fn put(out: &mut Vec<u8>, s: &str) {
    out.push(s.len() as u8);
    out.extend(s.as_bytes());
}

fn head(approved: u8) -> Vec<u8> {
    let mut o = vec![0];
    o.extend([1; 16]);
    put(&mut o, "filesync");
    o.extend([127, 0, 0, 1, 0x1e, 0x61]);
    o.push(approved);
    o.extend([9; 16]);
    o.extend([2; 16]);
    put(&mut o, "owner");
    o.extend([3; 16]);
    o
}

fn app(out: &mut Vec<u8>, id: u8, alias: &str, approved: u8) {
    out.extend([id; 16]);
    put(out, alias);
    out.extend([0; 6]);
    out.push(approved);
}

fn directory() -> Vec<u8> {
    let mut o = head(1);
    o.push(2);
    o.extend([20; 16]);
    put(&mut o, "laptop");
    o.extend([1, 0]);
    o.push(2);
    put(&mut o, "a.example");
    put(&mut o, "");
    o.push(4);
    app(&mut o, 1, "filesync", 1);
    app(&mut o, 5, "filesync", 1);
    app(&mut o, 6, "filesync", 0);
    app(&mut o, 7, "chat", 1);
    o.extend([21; 16]);
    put(&mut o, "phöne");
    o.extend([1, 0]);
    o.push(0);
    o.push(1);
    app(&mut o, 8, "filesync", 7);
    o
}

#[test]
fn directory_lists_own_approved_apps() {
    let d = parse_directory(&directory(), APP_ALIAS).unwrap();
    assert_eq!(d.app_id, [1; 16]);
    assert_eq!(d.device_uuid, [2; 16]);
    assert!(d.approved);
    assert_eq!(d.peers.len(), 2);
    assert_eq!(d.peers[0].device, [20; 16]);
    assert_eq!(d.peers[0].app_id, [5; 16]);
    assert_eq!(d.peers[0].device_alias, "laptop");
    assert_eq!(d.peers[1].app_id, [8; 16]);
    assert_eq!(d.peers[1].device_alias, "phöne");
    let copy = d.clone();
    assert_eq!(copy.peers[1].device, [21; 16]);
    assert_eq!(parse_directory(&directory(), "chat").unwrap().peers[0].app_id, [7; 16]);
}

#[test]
fn contacts_after_the_devices_are_ignored() {
    let mut o = directory();
    o.extend([1, 2, 3, 255, 255]);
    let d = parse_directory(&o, APP_ALIAS).unwrap();
    assert_eq!(d.peers.len(), 2);
}

#[test]
fn cut_directories_are_refused() {
    let whole = directory();
    for n in 0..whole.len() {
        assert!(parse_directory(&whole[..n], APP_ALIAS).is_none(), "{}", n);
    }
    let mut none = head(0);
    none.push(0);
    let d = parse_directory(&none, APP_ALIAS).unwrap();
    assert!(!d.approved);
    assert!(d.peers.is_empty());
    let mut bad = head(0);
    bad[18] = 0xff;
    bad.push(0);
    assert!(parse_directory(&bad, APP_ALIAS).is_none());
}

#[test]
fn requests_have_their_layout() {
    let mut expected = vec![0x00, 2, b'a', b'b', 0x1f, 0x90, 15];
    expected.extend(b"pnet-filesync/1");
    assert_eq!(register("ab", 8080), expected);
    let mut expected = vec![0x02];
    expected.extend([4; 16]);
    assert_eq!(get_data(&[4; 16]), expected);
    let mut expected = vec![0x03];
    expected.extend([1; 16]);
    expected.extend([2; 16]);
    expected.extend([3; 16]);
    expected.extend([9, 8]);
    assert_eq!(send_payload(&[1; 16], &[2; 16], &[3; 16], &[9, 8]), expected);
}

#[test]
fn replies_are_read() {
    let mut ok = vec![0];
    ok.extend([6; 16]);
    assert_eq!(register_reply(&ok), Ok([6; 16]));
    ok.push(1);
    assert_eq!(register_reply(&ok), Ok([6; 16]));
    assert_eq!(register_reply(&ok[..16]), Err(0));
    assert_eq!(register_reply(&[]), Err(0));
    ok[0] = 3;
    assert_eq!(register_reply(&ok), Err(3));
    assert_eq!(register_refused(203), "register reply status=203");
    assert_eq!(get_data_reply(vec![0, 5]), Ok(vec![0, 5]));
    assert_eq!(get_data_reply(vec![1, 0]), Err("get_data not ok".to_string()));
    assert_eq!(get_data_reply(vec![]), Err("get_data not ok".to_string()));
}

#[test]
fn pushes_are_read() {
    let mut push = vec![0x04];
    push.extend([5; 16]);
    assert_eq!(parse_push(&push), Some(([5; 16], &[][..])));
    push.extend([1, 2]);
    assert_eq!(parse_push(&push), Some(([5; 16], &[1, 2][..])));
    assert_eq!(parse_push(&push[..16]), None);
    push[0] = 3;
    assert_eq!(parse_push(&push), None);
}
