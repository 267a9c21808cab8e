//! Local pNet app API (register / get_data / send) and directory parse.

use vstd::prelude::*;
use vstd::slice::slice_subrange;
use vstd::utf8::*;

use crate::codec;
use crate::text;

verus! {

pub const OP_REGISTER: u8 = 0x00;

pub const OP_GET_DATA: u8 = 0x02;

pub const OP_SEND: u8 = 0x03;

pub const OP_PUSH: u8 = 0x04;

pub const STATUS_OK: u8 = 0x00;

pub const APP_ALIAS: &'static str = "filesync";

pub const APP_PROTOCOL: &'static str = "pnet-filesync/1";

/// An app of the same user that takes part in the sync.
#[derive(Debug)]
pub struct Peer {
    pub device: [u8; 16],
    pub app_id: [u8; 16],
    pub device_alias: String,
}

/// What a peer is.
#[verifier::ext_equal]
pub struct PeerView {
    pub device: Seq<u8>,
    pub app_id: Seq<u8>,
    pub device_alias: Seq<char>,
}

impl View for Peer {
    type V = PeerView;

    open spec fn view(&self) -> PeerView {
        PeerView { device: self.device@, app_id: self.app_id@, device_alias: self.device_alias@ }
    }
}

impl Clone for Peer {
    fn clone(&self) -> (p: Self)
        ensures
            p@ == self@,
    {
        Peer {
            device: self.device,
            app_id: self.app_id,
            device_alias: self.device_alias.clone(),
        }
    }
}

/// The peers of a list.
pub open spec fn peer_views(v: Seq<Peer>) -> Seq<PeerView> {
    Seq::new(v.len(), |i: int| v[i]@)
}

/// What the node says of this app and its peers.
#[derive(Debug)]
pub struct Directory {
    pub app_id: [u8; 16],
    pub device_uuid: [u8; 16],
    pub approved: bool,
    pub peers: Vec<Peer>,
}

/// What a directory says.
#[verifier::ext_equal]
pub struct DirectoryView {
    pub app_id: Seq<u8>,
    pub device_uuid: Seq<u8>,
    pub approved: bool,
    pub peers: Seq<PeerView>,
}

impl View for Directory {
    type V = DirectoryView;

    open spec fn view(&self) -> DirectoryView {
        DirectoryView {
            app_id: self.app_id@,
            device_uuid: self.device_uuid@,
            approved: self.approved,
            peers: peer_views(self.peers@),
        }
    }
}

impl Clone for Directory {
    fn clone(&self) -> (d: Self)
        ensures
            d@ == self@,
    {
        Directory {
            app_id: self.app_id,
            device_uuid: self.device_uuid,
            approved: self.approved,
            peers: clone_peers(&self.peers),
        }
    }
}

/// A copy of a list of peers.
pub fn clone_peers(peers: &Vec<Peer>) -> (v: Vec<Peer>)
    ensures
        peer_views(v@) == peer_views(peers@),
{
    let mut v: Vec<Peer> = Vec::new();
    let mut i: usize = 0;
    while i < peers.len()
        invariant
            i <= peers@.len(),
            v@.len() == i,
            forall|j: int| 0 <= j < i ==> (#[trigger] v@[j])@ == peers@[j]@,
        decreases peers@.len() - i,
    {
        v.push(peers[i].clone());
        i += 1;
    }
    assert(peer_views(v@) =~= peer_views(peers@));
    v
}

/// A string on the wire: one byte of length, then its bytes.
pub open spec fn str_bytes(s: Seq<char>) -> Seq<u8> {
    codec::be_bytes(encode_utf8(s).len(), 1) + encode_utf8(s)
}

fn push_str(buf: &mut Vec<u8>, s: &str)
    ensures
        final(buf)@ == old(buf)@ + str_bytes(s@),
{
    let bytes = s.as_bytes();
    codec::push_be(buf, bytes.len() as u64, 1);
    codec::push_bytes(buf, bytes);
    assert(buf@ =~= old(buf)@ + str_bytes(s@));
}

/// The request that registers the app, with the port that it gets pushes on.
pub open spec fn register_request(alias: Seq<char>, push_port: u16) -> Seq<u8> {
    seq![OP_REGISTER] + str_bytes(alias) + codec::be_bytes(push_port as nat, 2) + str_bytes(
        APP_PROTOCOL@,
    )
}

/// The request that registers the app, with the port that it gets pushes on.
pub fn register(alias: &str, push_port: u16) -> (pkt: Vec<u8>)
    ensures
        pkt@ == register_request(alias@, push_port),
{
    let mut pkt: Vec<u8> = Vec::new();
    pkt.push(OP_REGISTER);
    push_str(&mut pkt, alias);
    codec::push_be(&mut pkt, push_port as u64, 2);
    push_str(&mut pkt, APP_PROTOCOL);
    assert(pkt@ =~= register_request(alias@, push_port));
    pkt
}

/// The token in the reply to a registration, or the status of a refusal.
pub fn register_reply(reply: &[u8]) -> (r: Result<[u8; 16], u8>)
    ensures
        r is Ok <==> reply@.len() >= 17 && reply@[0] == 0,
        match r {
            Ok(token) => reply@.len() >= 17 && reply@[0] == STATUS_OK && token@ == reply@.subrange(
                1,
                17,
            ),
            Err(status) => {
                &&& reply@.len() < 17 || reply@[0] != STATUS_OK
                &&& status == if reply@.len() == 0 {
                    0u8
                } else {
                    reply@[0]
                }
            },
        },
{
    if reply.len() == 0 {
        return Err(0);
    }
    if reply.len() < 17 || reply[0] != STATUS_OK {
        return Err(reply[0]);
    }
    Ok(codec::read_array::<16>(reply, 1))
}

pub const REGISTER_REFUSED: &'static str = "register reply status=";

/// What to tell the user of a refused registration.
pub fn register_refused(status: u8) -> (s: String)
    ensures
        s@ == REGISTER_REFUSED@ + text::decimal(status as nat),
{
    let mut s = String::new();
    text::push_text(&mut s, REGISTER_REFUSED);
    text::push_decimal(&mut s, status as u64);
    assert(s@ =~= REGISTER_REFUSED@ + text::decimal(status as nat));
    s
}

/// The request for the directory.
pub fn get_data(token: &[u8; 16]) -> (pkt: Vec<u8>)
    ensures
        pkt@ == seq![OP_GET_DATA] + token@,
        pkt@[0] == 2,
{
    let mut pkt: Vec<u8> = Vec::new();
    pkt.push(OP_GET_DATA);
    codec::push_bytes(&mut pkt, token.as_slice());
    assert(pkt@ =~= seq![OP_GET_DATA] + token@);
    pkt
}

pub const GET_DATA_REFUSED: &'static str = "get_data not ok";

/// The reply to a request for the directory, if it brings one.
pub fn get_data_reply(reply: Vec<u8>) -> (r: Result<Vec<u8>, String>)
    ensures
        r is Ok <==> reply@.len() > 0 && reply@[0] == 0,
        match r {
            Ok(bytes) => reply@.len() > 0 && reply@[0] == STATUS_OK && bytes@ == reply@,
            Err(msg) => (reply@.len() == 0 || reply@[0] != STATUS_OK) && msg@
                == GET_DATA_REFUSED@,
        },
{
    if reply.len() > 0 && reply[0] == STATUS_OK {
        Ok(reply)
    } else {
        Err(GET_DATA_REFUSED.to_owned())
    }
}

/// The request that sends a payload to an app on a device.
pub open spec fn send_request(
    token: Seq<u8>,
    dest_device: Seq<u8>,
    dest_app: Seq<u8>,
    payload: Seq<u8>,
) -> Seq<u8> {
    seq![OP_SEND] + token + dest_device + dest_app + payload
}

/// The request that sends a payload to an app on a device.
pub fn send_payload(
    token: &[u8; 16],
    dest_device: &[u8; 16],
    dest_app: &[u8; 16],
    payload: &[u8],
) -> (pkt: Vec<u8>)
    ensures
        pkt@ == send_request(token@, dest_device@, dest_app@, payload@),
{
    let mut pkt: Vec<u8> = Vec::new();
    pkt.push(OP_SEND);
    codec::push_bytes(&mut pkt, token.as_slice());
    codec::push_bytes(&mut pkt, dest_device.as_slice());
    codec::push_bytes(&mut pkt, dest_app.as_slice());
    codec::push_bytes(&mut pkt, payload);
    assert(pkt@ =~= send_request(token@, dest_device@, dest_app@, payload@));
    pkt
}

/// The sender and payload of a push.
pub open spec fn push_of(buf: Seq<u8>) -> Option<(Seq<u8>, Seq<u8>)> {
    if buf.len() >= 17 && buf[0] == OP_PUSH {
        Some((buf.subrange(1, 17), buf.skip(17)))
    } else {
        None
    }
}

pub fn parse_push(buf: &[u8]) -> (r: Option<([u8; 16], &[u8])>)
    ensures
        match r {
            Some((sender, payload)) => push_of(buf@) == Some((sender@, payload@)),
            None => push_of(buf@) is None,
        },
{
    if buf.len() < 17 || buf[0] != OP_PUSH {
        return None;
    }
    assert(buf@.subrange(17, buf@.len() as int) =~= buf@.skip(17));
    Some((codec::read_array::<16>(buf, 1), slice_subrange(buf, 17, buf.len())))
}

/// The position `n` bytes on, if there are as many.
pub open spec fn past(buf: Seq<u8>, pos: int, n: int) -> Option<int> {
    if pos + n <= buf.len() {
        Some(pos + n)
    } else {
        None
    }
}

/// The `n` bytes at a position, and the position after them.
pub open spec fn arr_at(buf: Seq<u8>, pos: int, n: int) -> Option<(Seq<u8>, int)> {
    if pos + n <= buf.len() {
        Some((buf.subrange(pos, pos + n), pos + n))
    } else {
        None
    }
}

/// The byte at a position, and the position after it.
pub open spec fn byte_at(buf: Seq<u8>, pos: int) -> Option<(u8, int)> {
    if pos < buf.len() {
        Some((buf[pos], pos + 1))
    } else {
        None
    }
}

/// The string at a position, and the position after it.
pub open spec fn str_at(buf: Seq<u8>, pos: int) -> Option<(Seq<char>, int)> {
    if pos < buf.len() && pos + 1 + buf[pos] <= buf.len() && valid_utf8(
        buf.subrange(pos + 1, pos + 1 + buf[pos]),
    ) {
        Some((decode_utf8(buf.subrange(pos + 1, pos + 1 + buf[pos])), pos + 1 + buf[pos]))
    } else {
        None
    }
}

/// The position after `n` strings.
pub open spec fn strs_at(buf: Seq<u8>, pos: int, n: nat) -> Option<int>
    decreases n,
{
    if n == 0 {
        Some(pos)
    } else {
        match str_at(buf, pos) {
            Some((_, next)) => strs_at(buf, next, (n - 1) as nat),
            None => None,
        }
    }
}

/// Which apps of the directory are peers: approved, of the given alias, and not
/// this app itself.
pub open spec fn is_peer(
    approved: bool,
    app_alias: Seq<char>,
    app_id: Seq<u8>,
    alias: Seq<char>,
    own_id: Seq<u8>,
) -> bool {
    approved && app_alias == alias && app_id != own_id
}

/// One app of a device: id, alias, six bytes of address, approval. Gives the
/// peer that it is, if it is one.
pub open spec fn app_at(
    buf: Seq<u8>,
    pos: int,
    device: Seq<u8>,
    device_alias: Seq<char>,
    alias: Seq<char>,
    own_id: Seq<u8>,
) -> Option<(Seq<PeerView>, int)> {
    match arr_at(buf, pos, 16) {
        None => None,
        Some((app_id, p1)) => match str_at(buf, p1) {
            None => None,
            Some((app_alias, p2)) => match past(buf, p2, 6) {
                None => None,
                Some(p3) => match byte_at(buf, p3) {
                    None => None,
                    Some((approved, p4)) => Some(
                        (
                            if is_peer(approved != 0, app_alias, app_id, alias, own_id) {
                                seq![PeerView { device, app_id, device_alias }]
                            } else {
                                Seq::empty()
                            },
                            p4,
                        ),
                    ),
                },
            },
        },
    }
}

/// `n` apps of a device, and the peers among them.
pub open spec fn apps_at(
    buf: Seq<u8>,
    pos: int,
    n: nat,
    device: Seq<u8>,
    device_alias: Seq<char>,
    alias: Seq<char>,
    own_id: Seq<u8>,
) -> Option<(Seq<PeerView>, int)>
    decreases n,
{
    if n == 0 {
        Some((Seq::empty(), pos))
    } else {
        match app_at(buf, pos, device, device_alias, alias, own_id) {
            None => None,
            Some((first, next)) => match apps_at(
                buf,
                next,
                (n - 1) as nat,
                device,
                device_alias,
                alias,
                own_id,
            ) {
                None => None,
                Some((rest, end)) => Some((first + rest, end)),
            },
        }
    }
}

/// One device: id, alias, grade, rank, host names, apps.
pub open spec fn device_at(
    buf: Seq<u8>,
    pos: int,
    alias: Seq<char>,
    own_id: Seq<u8>,
) -> Option<(Seq<PeerView>, int)> {
    match arr_at(buf, pos, 16) {
        None => None,
        Some((device, p1)) => match str_at(buf, p1) {
            None => None,
            Some((device_alias, p2)) => match past(buf, p2, 2) {
                None => None,
                Some(p3) => match byte_at(buf, p3) {
                    None => None,
                    Some((hosts, p4)) => match strs_at(buf, p4, hosts as nat) {
                        None => None,
                        Some(p5) => match byte_at(buf, p5) {
                            None => None,
                            Some((apps, p6)) => apps_at(
                                buf,
                                p6,
                                apps as nat,
                                device,
                                device_alias,
                                alias,
                                own_id,
                            ),
                        },
                    },
                },
            },
        },
    }
}

/// `n` devices, and the peers on them.
pub open spec fn devices_at(
    buf: Seq<u8>,
    pos: int,
    n: nat,
    alias: Seq<char>,
    own_id: Seq<u8>,
) -> Option<(Seq<PeerView>, int)>
    decreases n,
{
    if n == 0 {
        Some((Seq::empty(), pos))
    } else {
        match device_at(buf, pos, alias, own_id) {
            None => None,
            Some((first, next)) => match devices_at(buf, next, (n - 1) as nat, alias, own_id) {
                None => None,
                Some((rest, end)) => Some((first + rest, end)),
            },
        }
    }
}

/// What the head of a directory says: own id, approval, own device, and where
/// the devices begin.
pub open spec fn head_at(buf: Seq<u8>) -> Option<(Seq<u8>, bool, Seq<u8>, int)> {
    match arr_at(buf, 1, 16) {
        None => None,
        Some((app_id, p1)) => match str_at(buf, p1) {
            None => None,
            Some((_, p2)) => match past(buf, p2, 6) {
                None => None,
                Some(p3) => match byte_at(buf, p3) {
                    None => None,
                    Some((approved, p4)) => match past(buf, p4, 16) {
                        None => None,
                        Some(p5) => match arr_at(buf, p5, 16) {
                            None => None,
                            Some((device_uuid, p6)) => match str_at(buf, p6) {
                                None => None,
                                Some((_, p7)) => match past(buf, p7, 16) {
                                    None => None,
                                    Some(p8) => Some((app_id, approved != 0, device_uuid, p8)),
                                },
                            },
                        },
                    },
                },
            },
        },
    }
}

/// What a reply with a directory says: this app, this device, and the peers on
/// the user's own devices. What follows the devices is not looked at.
pub open spec fn directory_of(reply: Seq<u8>, alias: Seq<char>) -> Option<DirectoryView> {
    match head_at(reply) {
        None => None,
        Some((app_id, approved, device_uuid, pos)) => match byte_at(reply, pos) {
            None => None,
            Some((n, next)) => match devices_at(reply, next, n as nat, alias, app_id) {
                None => None,
                Some((peers, _)) => Some(DirectoryView { app_id, device_uuid, approved, peers }),
            },
        },
    }
}

fn skip(data: &[u8], pos: usize, n: usize) -> (r: Option<usize>)
    requires
        pos <= data@.len(),
    ensures
        match r {
            Some(next) => past(data@, pos as int, n as int) == Some(next as int),
            None => past(data@, pos as int, n as int) is None,
        },
{
    if data.len() - pos < n {
        None
    } else {
        Some(pos + n)
    }
}

fn read_byte(data: &[u8], pos: usize) -> (r: Option<(u8, usize)>)
    requires
        pos <= data@.len(),
    ensures
        match r {
            Some((b, next)) => byte_at(data@, pos as int) == Some((b, next as int)) && next
                <= data@.len(),
            None => byte_at(data@, pos as int) is None,
        },
{
    if pos < data.len() {
        Some((data[pos], pos + 1))
    } else {
        None
    }
}

fn read_str(data: &[u8], pos: usize) -> (r: Option<(String, usize)>)
    requires
        pos <= data@.len(),
    ensures
        match r {
            Some((s, next)) => str_at(data@, pos as int) == Some((s@, next as int)) && next
                <= data@.len(),
            None => str_at(data@, pos as int) is None,
        },
{
    if pos >= data.len() {
        return None;
    }
    let len: usize = data[pos] as usize;
    if data.len() - pos - 1 < len {
        return None;
    }
    let next: usize = pos + 1 + len;
    match text::utf8_text(slice_subrange(data, pos + 1, next)) {
        Some(s) => Some((s.to_owned(), next)),
        None => None,
    }
}

fn read_arr<const N: usize>(data: &[u8], pos: usize) -> (r: Option<([u8; N], usize)>)
    requires
        pos <= data@.len(),
    ensures
        match r {
            Some((a, next)) => arr_at(data@, pos as int, N as int) == Some((a@, next as int))
                && next <= data@.len(),
            None => arr_at(data@, pos as int, N as int) is None,
        },
{
    if data.len() - pos < N {
        return None;
    }
    Some((codec::read_array::<N>(data, pos), pos + N))
}

fn read_strs(data: &[u8], pos: usize, n: u8) -> (r: Option<usize>)
    requires
        pos <= data@.len(),
    ensures
        match r {
            Some(end) => strs_at(data@, pos as int, n as nat) == Some(end as int) && end
                <= data@.len(),
            None => strs_at(data@, pos as int, n as nat) is None,
        },
    decreases n,
{
    if n == 0 {
        return Some(pos);
    }
    let (_, next) = read_str(data, pos)?;
    read_strs(data, next, n - 1)
}

/// Reads one app and adds it to `peers` if it is a peer.
fn read_app(
    data: &[u8],
    pos: usize,
    device: &[u8; 16],
    device_alias: &String,
    alias: &str,
    own_id: &[u8; 16],
    peers: &mut Vec<Peer>,
) -> (r: Option<usize>)
    requires
        pos <= data@.len(),
    ensures
        match r {
            Some(end) => app_at(data@, pos as int, device@, device_alias@, alias@, own_id@)
                matches Some((found, e)) && e == end && end <= data@.len() && peer_views(
                final(peers)@,
            ) == peer_views(old(peers)@) + found,
            None => app_at(data@, pos as int, device@, device_alias@, alias@, own_id@) is None,
        },
{
    let (app_id, p1) = read_arr::<16>(data, pos)?;
    let (app_alias, p2) = read_str(data, p1)?;
    let p3 = skip(data, p2, 6)?;
    let (approved, p4) = read_byte(data, p3)?;
    let ghost before = peer_views(peers@);
    if approved != 0 && text::is_word(text::chars_of(app_alias.as_str()).as_slice(), alias)
        && !codec::bytes_eq(app_id.as_slice(), own_id.as_slice()) {
        let p = Peer { device: *device, app_id, device_alias: device_alias.clone() };
        let ghost pv = p@;
        peers.push(p);
        assert(peer_views(peers@) =~= before + seq![pv]);
    } else {
        assert(peer_views(peers@) =~= before + Seq::empty());
    }
    Some(p4)
}

fn read_apps(
    data: &[u8],
    pos: usize,
    n: u8,
    device: &[u8; 16],
    device_alias: &String,
    alias: &str,
    own_id: &[u8; 16],
    peers: &mut Vec<Peer>,
) -> (r: Option<usize>)
    requires
        pos <= data@.len(),
    ensures
        match r {
            Some(end) => apps_at(
                data@,
                pos as int,
                n as nat,
                device@,
                device_alias@,
                alias@,
                own_id@,
            ) matches Some((found, e)) && e == end && end <= data@.len() && peer_views(
                final(peers)@,
            ) == peer_views(old(peers)@) + found,
            None => apps_at(
                data@,
                pos as int,
                n as nat,
                device@,
                device_alias@,
                alias@,
                own_id@,
            ) is None,
        },
    decreases n,
{
    if n == 0 {
        assert(peer_views(peers@) =~= peer_views(old(peers)@) + Seq::empty());
        return Some(pos);
    }
    let next = read_app(data, pos, device, device_alias, alias, own_id, peers)?;
    let end = read_apps(data, next, n - 1, device, device_alias, alias, own_id, peers)?;
    assert(peer_views(peers@) =~= peer_views(old(peers)@) + (apps_at(
        data@,
        pos as int,
        n as nat,
        device@,
        device_alias@,
        alias@,
        own_id@,
    )->0).0);
    Some(end)
}

fn read_device(
    data: &[u8],
    pos: usize,
    alias: &str,
    own_id: &[u8; 16],
    peers: &mut Vec<Peer>,
) -> (r: Option<usize>)
    requires
        pos <= data@.len(),
    ensures
        match r {
            Some(end) => device_at(data@, pos as int, alias@, own_id@) matches Some((found, e))
                && e == end && end <= data@.len() && peer_views(final(peers)@) == peer_views(
                old(peers)@,
            ) + found,
            None => device_at(data@, pos as int, alias@, own_id@) is None,
        },
{
    let (device, p1) = read_arr::<16>(data, pos)?;
    let (device_alias, p2) = read_str(data, p1)?;
    let p3 = skip(data, p2, 2)?;
    let (hosts, p4) = read_byte(data, p3)?;
    let p5 = read_strs(data, p4, hosts)?;
    let (apps, p6) = read_byte(data, p5)?;
    read_apps(data, p6, apps, &device, &device_alias, alias, own_id, peers)
}

fn read_devices(
    data: &[u8],
    pos: usize,
    n: u8,
    alias: &str,
    own_id: &[u8; 16],
    peers: &mut Vec<Peer>,
) -> (r: Option<usize>)
    requires
        pos <= data@.len(),
    ensures
        match r {
            Some(end) => devices_at(data@, pos as int, n as nat, alias@, own_id@) matches Some(
                (found, e),
            ) && e == end && end <= data@.len() && peer_views(final(peers)@) == peer_views(
                old(peers)@,
            ) + found,
            None => devices_at(data@, pos as int, n as nat, alias@, own_id@) is None,
        },
    decreases n,
{
    if n == 0 {
        assert(peer_views(peers@) =~= peer_views(old(peers)@) + Seq::empty());
        return Some(pos);
    }
    let next = read_device(data, pos, alias, own_id, peers)?;
    let end = read_devices(data, next, n - 1, alias, own_id, peers)?;
    assert(peer_views(peers@) =~= peer_views(old(peers)@) + (devices_at(
        data@,
        pos as int,
        n as nat,
        alias@,
        own_id@,
    )->0).0);
    Some(end)
}

/// Own-user `filesync` apps other than us. Intra-user only (v1).
pub fn parse_directory(reply: &[u8], alias: &str) -> (r: Option<Directory>)
    ensures
        match r {
            Some(d) => directory_of(reply@, alias@) == Some(d@),
            None => directory_of(reply@, alias@) is None,
        },
{
    if reply.len() == 0 {
        return None;
    }
    let (app_id, p1) = read_arr::<16>(reply, 1)?;
    let (_, p2) = read_str(reply, p1)?;
    let p3 = skip(reply, p2, 6)?;
    let (approved, p4) = read_byte(reply, p3)?;
    let p5 = skip(reply, p4, 16)?;
    let (device_uuid, p6) = read_arr::<16>(reply, p5)?;
    let (_, p7) = read_str(reply, p6)?;
    let p8 = skip(reply, p7, 16)?;
    let (n, p9) = read_byte(reply, p8)?;
    let mut peers: Vec<Peer> = Vec::new();
    let _end = read_devices(reply, p9, n, alias, &app_id, &mut peers)?;
    proof {
        let found = (devices_at(reply@, p9 as int, n as nat, alias@, app_id@)->0).0;
        assert(peer_views(peers@) =~= found);
    }
    Some(Directory { app_id, device_uuid, approved: approved != 0, peers })
}

/// What stands inside a byte string is not moved by bytes after its end.
pub proof fn lemma_items_extend(buf: Seq<u8>, extra: Seq<u8>, pos: int, n: int)
    requires
        0 <= pos,
        0 <= n,
    ensures
        past(buf, pos, n) matches Some(e) ==> pos <= e && past(buf + extra, pos, n) == Some(e),
        arr_at(buf, pos, n) matches Some((a, e)) ==> pos <= e && arr_at(buf + extra, pos, n)
            == Some((a, e)),
        byte_at(buf, pos) matches Some((b, e)) ==> pos <= e && byte_at(buf + extra, pos) == Some(
            (b, e),
        ),
        str_at(buf, pos) matches Some((t, e)) ==> pos <= e && str_at(buf + extra, pos) == Some(
            (t, e),
        ),
{
    let long = buf + extra;
    if pos + n <= buf.len() {
        assert(long.subrange(pos, pos + n) =~= buf.subrange(pos, pos + n));
    }
    if str_at(buf, pos) is Some {
        let end = pos + 1 + buf[pos];
        assert(long[pos] == buf[pos]);
        assert(long.subrange(pos + 1, end) =~= buf.subrange(pos + 1, end));
    }
}

proof fn lemma_strs_extend(buf: Seq<u8>, extra: Seq<u8>, pos: int, n: nat)
    requires
        0 <= pos,
    ensures
        strs_at(buf, pos, n) matches Some(e) ==> pos <= e && strs_at(buf + extra, pos, n) == Some(e),
    decreases n,
{
    if n > 0 {
        lemma_items_extend(buf, extra, pos, 0);
        if let Some((_, next)) = str_at(buf, pos) {
            lemma_strs_extend(buf, extra, next, (n - 1) as nat);
        }
    }
}

proof fn lemma_apps_extend(
    buf: Seq<u8>,
    extra: Seq<u8>,
    pos: int,
    n: nat,
    device: Seq<u8>,
    device_alias: Seq<char>,
    alias: Seq<char>,
    own_id: Seq<u8>,
)
    requires
        0 <= pos,
    ensures
        apps_at(buf, pos, n, device, device_alias, alias, own_id) matches Some((v, e)) ==> pos <= e
            && apps_at(buf + extra, pos, n, device, device_alias, alias, own_id) == Some((v, e)),
        apps_at(buf, pos, n, device, device_alias, alias, own_id) matches Some((v, _)) ==> forall|
            i: int,
        | 0 <= i < v.len() ==> (#[trigger] v[i]).app_id != own_id && v[i].device == device,
    decreases n,
{
    if n > 0 {
        if let Some((first, next)) = app_at(buf, pos, device, device_alias, alias, own_id) {
            lemma_items_extend(buf, extra, pos, 16);
            let p1 = pos + 16;
            lemma_items_extend(buf, extra, p1, 6);
            let p2 = (str_at(buf, p1)->0).1;
            lemma_items_extend(buf, extra, p2, 6);
            lemma_items_extend(buf, extra, p2 + 6, 6);
            assert(app_at(buf + extra, pos, device, device_alias, alias, own_id) == Some(
                (first, next),
            ));
            lemma_apps_extend(
                buf,
                extra,
                next,
                (n - 1) as nat,
                device,
                device_alias,
                alias,
                own_id,
            );
        }
    }
}

/// The devices of a directory are not moved by bytes after their end.
pub proof fn lemma_devices_extend(
    buf: Seq<u8>,
    extra: Seq<u8>,
    pos: int,
    n: nat,
    alias: Seq<char>,
    own_id: Seq<u8>,
)
    requires
        0 <= pos,
    ensures
        devices_at(buf, pos, n, alias, own_id) matches Some((v, e)) ==> pos <= e && devices_at(
            buf + extra,
            pos,
            n,
            alias,
            own_id,
        ) == Some((v, e)),
        devices_at(buf, pos, n, alias, own_id) matches Some((v, _)) ==> forall|i: int|
            0 <= i < v.len() ==> (#[trigger] v[i]).app_id != own_id,
    decreases n,
{
    if n > 0 {
        if let Some((first, next)) = device_at(buf, pos, alias, own_id) {
            lemma_items_extend(buf, extra, pos, 16);
            let p1 = pos + 16;
            lemma_items_extend(buf, extra, p1, 2);
            let p2 = (str_at(buf, p1)->0).1;
            lemma_items_extend(buf, extra, p2, 2);
            lemma_items_extend(buf, extra, p2 + 2, 2);
            let hosts = (byte_at(buf, p2 + 2)->0).0;
            lemma_strs_extend(buf, extra, p2 + 3, hosts as nat);
            let p5 = strs_at(buf, p2 + 3, hosts as nat)->0;
            lemma_items_extend(buf, extra, p5, 2);
            let apps = (byte_at(buf, p5)->0).0;
            lemma_apps_extend(
                buf,
                extra,
                p5 + 1,
                apps as nat,
                (arr_at(buf, pos, 16)->0).0,
                (str_at(buf, p1)->0).0,
                alias,
                own_id,
            );
            assert(device_at(buf + extra, pos, alias, own_id) == Some((first, next)));
            lemma_devices_extend(buf, extra, next, (n - 1) as nat, alias, own_id);
        }
    }
}

/// The head of a directory is not moved by bytes after its end.
pub proof fn lemma_head_extends(buf: Seq<u8>, extra: Seq<u8>)
    ensures
        head_at(buf) matches Some(h) ==> head_at(buf + extra) == Some(h) && 0 <= h.3,
{
    if head_at(buf) is Some {
        lemma_items_extend(buf, extra, 1, 16);
        lemma_items_extend(buf, extra, 17, 6);
        let p2 = (str_at(buf, 17)->0).1;
        lemma_items_extend(buf, extra, p2, 6);
        lemma_items_extend(buf, extra, p2 + 6, 6);
        lemma_items_extend(buf, extra, p2 + 7, 16);
        lemma_items_extend(buf, extra, p2 + 23, 16);
        lemma_items_extend(buf, extra, p2 + 39, 16);
        let p7 = (str_at(buf, p2 + 39)->0).1;
        lemma_items_extend(buf, extra, p7, 16);
    }
}

/// Contacts are ignored: whatever follows the user's own devices in a directory
/// makes no difference.
pub proof fn contacts_are_ignored(reply: Seq<u8>, contacts: Seq<u8>, alias: Seq<char>)
    requires
        directory_of(reply, alias) is Some,
    ensures
        directory_of(reply + contacts, alias) == directory_of(reply, alias),
{
    lemma_head_extends(reply, contacts);
    let (app_id, _, _, pos) = head_at(reply)->0;
    lemma_items_extend(reply, contacts, pos, 1);
    let n = (byte_at(reply, pos)->0).0;
    lemma_devices_extend(reply, contacts, pos + 1, n as nat, alias, app_id);
}

/// The app is never its own peer.
pub proof fn no_peer_is_oneself(reply: Seq<u8>, alias: Seq<char>, i: int)
    ensures
        directory_of(reply, alias) matches Some(d) ==> (0 <= i < d.peers.len() ==> d.peers[i].app_id
            != d.app_id),
{
    if directory_of(reply, alias) is Some {
        lemma_head_extends(reply, Seq::empty());
        let (app_id, _, _, pos) = head_at(reply)->0;
        let n = (byte_at(reply, pos)->0).0;
        lemma_devices_extend(reply, Seq::empty(), pos + 1, n as nat, alias, app_id);
    }
}

} // verus!
