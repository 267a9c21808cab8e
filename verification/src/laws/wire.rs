//! What stands on the wire: integers, packets, the requests to the node and its
//! directory.

use vstd::arithmetic::div_mod::lemma_div_denominator;
use vstd::prelude::*;
use vstd::utf8::*;

use crate::codec;
use crate::fabric;
use crate::fabric::{DirectoryView, PeerView};
use crate::proto;
use crate::proto::PacketView;
use crate::store::RecView;

verus! {

/// The most significant byte comes first.
pub proof fn most_significant_byte_first(x: nat, n: nat, i: int)
    requires
        0 <= i < n,
    ensures
        codec::be_bytes(x, n).len() == n,
        codec::be_bytes(x, n)[i] as nat == x / codec::pow256((n - 1 - i) as nat) % 256,
        codec::pow256(0) == 1,
        codec::pow256(n) == 256 * codec::pow256((n - 1) as nat),
    decreases n,
{
    codec::lemma_be_bytes_len(x, n);
    codec::lemma_be_bytes_len(x / 256, (n - 1) as nat);
    if i < n - 1 {
        most_significant_byte_first(x / 256, (n - 1) as nat, i);
        let m = codec::pow256((n - 2 - i) as nat);
        codec::lemma_pow256_le(0, (n - 2 - i) as nat);
        lemma_div_denominator(x as int, 256, m as int);
        assert(codec::pow256((n - 1 - i) as nat) == 256 * m);
        assert(codec::be_bytes(x, n)[i] == codec::be_bytes(x / 256, (n - 1) as nat)[i]);
        assert((x / 256) / m == x / (256 * m));
    } else {
        assert(codec::pow256(0) == 1);
        assert(codec::be_bytes(x, n)[i] == (x % 256) as u8);
        assert(x / 1 == x) by (nonlinear_arith);
    }
}

/// A datagram of at least ten bytes that begins with the version is a packet: its
/// type is the next byte, its body all from the tenth byte on. No other is.
pub proof fn a_datagram_is_a_packet(buf: Seq<u8>, p: PacketView)
    ensures
        proto::decoded(buf) is Some <==> buf.len() >= 10 && buf[0] == 1,
        proto::decoded(buf) matches Some(q) ==> q.typ == buf[1] && q.body == buf.skip(10)
            && q.msg_id as nat == codec::be_value(buf.subrange(2, 10)),
        proto::encoded(p).len() == 10 + p.body.len(),
        proto::encoded(p)[0] == 1 && proto::encoded(p)[1] == p.typ,
        proto::encoded(p).subrange(2, 10) == codec::be_bytes(p.msg_id as nat, 8),
        proto::encoded(p).skip(10) == p.body,
{
    codec::lemma_be_u64(p.msg_id);
    assert(proto::encoded(p).subrange(2, 10) =~= codec::be_bytes(p.msg_id as nat, 8));
    assert(proto::encoded(p).skip(10) =~= p.body);
    if proto::decoded(buf) is Some {
        codec::lemma_be_value_bound(buf.subrange(2, 10));
        codec::lemma_pow256_values();
    }
}

/// Bodies say something exactly if they have the size for it, and are what one
/// would write to say it.
pub proof fn bodies_are_what_they_say(body: Seq<u8>)
    ensures
        proto::ack_of(body) is Some <==> body.len() == 8,
        proto::ack_of(body) matches Some(id) ==> codec::be_bytes(id as nat, 8) == body,
        proto::hello_of(body) is Some <==> body.len() == 24,
        proto::hello_of(body) matches Some((replica, gen)) ==> proto::hello_body(replica, gen) == body
            && replica.len() == 16,
        proto::want_of(body) is Some <==> body.len() == 32,
        proto::want_of(body) matches Some(hash) ==> hash == body,
        proto::chunk_of(body) is Some <==> body.len() >= 48,
        proto::chunk_of(body) matches Some((hash, total, offset, data)) ==> proto::chunk_body(
            hash,
            total,
            offset,
            data,
        ) == body && hash.len() == 32,
{
    codec::lemma_pow256_values();
    if body.len() == 8 {
        codec::lemma_be_value_bound(body);
        codec::lemma_be_bytes_of_value(body);
    }
    if body.len() == 24 {
        codec::lemma_be_value_bound(body.skip(16));
        codec::lemma_be_bytes_of_value(body.skip(16));
        let (replica, gen) = proto::hello_of(body)->0;
        assert(proto::hello_body(replica, gen) =~= body);
    }
    if body.len() >= 48 {
        codec::lemma_be_value_bound(body.subrange(32, 40));
        codec::lemma_be_bytes_of_value(body.subrange(32, 40));
        codec::lemma_be_value_bound(body.subrange(40, 48));
        codec::lemma_be_bytes_of_value(body.subrange(40, 48));
        let (hash, total, offset, data) = proto::chunk_of(body)->0;
        assert(proto::chunk_body(hash, total, offset, data) =~= body);
    }
}

/// What stands in a record: a flag, the time, the size, the hash, the length of
/// the path and the path.
pub proof fn what_a_record_holds(r: RecView)
    requires
        proto::sendable(r),
    ensures
        ({
            let s = proto::record_bytes(r);
            let path = encode_utf8(r.path);
            &&& s.len() == 51 + path.len()
            &&& s[0] == if r.deleted {
                1u8
            } else {
                0u8
            }
            &&& codec::be_value(s.subrange(1, 9)) == r.mtime
            &&& codec::be_value(s.subrange(9, 17)) == r.size
            &&& s.subrange(17, 49) == r.hash
            &&& codec::be_value(s.subrange(49, 51)) == path.len()
            &&& s.skip(51) == path
        }),
{
    let s = proto::record_bytes(r);
    let path = encode_utf8(r.path);
    codec::lemma_be_u64(r.mtime);
    codec::lemma_be_u64(r.size);
    codec::lemma_be_u16(path.len());
    assert(s.subrange(1, 9) =~= codec::be_bytes(r.mtime as nat, 8));
    assert(s.subrange(9, 17) =~= codec::be_bytes(r.size as nat, 8));
    assert(s.subrange(17, 49) =~= r.hash);
    assert(s.subrange(49, 51) =~= codec::be_bytes(path.len(), 2));
    assert(s.skip(51) =~= path);
}

/// A record is read field by field, from whatever bytes: it is there if they are
/// enough for it and its path is UTF-8. Any mark but zero makes it a tombstone.
pub proof fn a_record_is_read_field_by_field(s: Seq<u8>)
    ensures
        proto::record_of(s) is Some <==> {
            &&& s.len() >= 51
            &&& s.len() >= 51 + s[49] * 256 + s[50]
            &&& valid_utf8(s.subrange(51, 51 + s[49] * 256 + s[50]))
        },
        proto::record_of(s) matches Some((r, end)) ==> {
            &&& end == 51 + s[49] * 256 + s[50]
            &&& r.deleted <==> s[0] != 0
            &&& r.mtime == codec::be_value(s.subrange(1, 9))
            &&& r.size == codec::be_value(s.subrange(9, 17))
            &&& r.hash == s.subrange(17, 49)
            &&& r.path == decode_utf8(s.subrange(51, end))
        },
{
    if s.len() >= 51 {
        let w = s.subrange(49, 51);
        let one = w.drop_last();
        assert(one.drop_last() =~= Seq::empty());
        assert(codec::be_value(one.drop_last()) == 0);
        assert(one.last() == s[49]);
        assert(codec::be_value(one) == s[49]);
        assert(w.last() == s[50]);
        assert(codec::be_value(w) == s[49] * 256 + s[50]);
        codec::lemma_be_value_bound(s.subrange(1, 9));
        codec::lemma_be_value_bound(s.subrange(9, 17));
        codec::lemma_pow256_values();
    }
}

/// An index is read record by record, to its end: one that cannot be read spoils
/// all.
pub proof fn an_index_is_read_record_by_record(body: Seq<u8>, s: Seq<u8>)
    ensures
        proto::stream_records(Seq::empty()) == Some(Seq::<RecView>::empty()),
        s.len() > 0 && proto::record_of(s) is None ==> proto::stream_records(s) is None,
        proto::record_of(s) matches Some((r, end)) ==> (proto::stream_records(s.skip(end))
            matches Some(rest) ==> proto::stream_records(s) == Some(seq![r] + rest)),
        proto::record_of(s) matches Some((r, end)) ==> (proto::stream_records(s.skip(end)) is None
            ==> proto::stream_records(s) is None),
        body.len() < 12 ==> proto::index_of(body) is None,
        body.len() >= 12 ==> (proto::stream_records(body.skip(12)) is None <==> proto::index_of(body)
            is None),
        proto::index_of(body) matches Some((gen, part, parts, recs)) ==> {
            &&& gen == codec::be_value(body.take(8))
            &&& part == codec::be_value(body.subrange(8, 10))
            &&& parts == codec::be_value(body.subrange(10, 12))
            &&& proto::stream_records(body.skip(12)) == Some(recs)
        },
{
    a_record_is_read_field_by_field(s);
    if body.len() >= 12 {
        codec::lemma_be_value_bound(body.take(8));
        codec::lemma_be_value_bound(body.subrange(8, 10));
        codec::lemma_be_value_bound(body.subrange(10, 12));
        codec::lemma_pow256_values();
    }
}

/// Bytes in hexadecimal: two digits for each, the higher first, small letters.
pub proof fn bytes_are_written_in_hexadecimal(bytes: Seq<u8>, i: int)
    requires
        0 <= i < bytes.len(),
    ensures
        ({
            let s = codec::hex_text(bytes);
            let digits = seq![
                '0', '1', '2', '3', '4', '5', '6', '7', '8', '9', 'a', 'b', 'c', 'd', 'e', 'f',
            ];
            &&& s.len() == 2 * bytes.len()
            &&& s[2 * i] == digits[bytes[i] as int / 16]
            &&& s[2 * i + 1] == digits[bytes[i] as int % 16]
        }),
{
}

/// Hexadecimal text is read two characters at a time, and is as long as the bytes
/// that are wanted need: a digit of either case, or a plus sign for none, and then
/// a digit.
pub proof fn hexadecimal_is_read_in_pairs(text: Seq<u8>, n: nat)
    ensures
        codec::hex_bytes(text, n) is Some <==> text.len() == 2 * n && forall|i: int|
            #![trigger text[2 * i]]
            0 <= i < n ==> (text[2 * i] == 0x2b || codec::hex_digit_value(text[2 * i]) is Some)
                && codec::hex_digit_value(text[2 * i + 1]) is Some,
        codec::hex_bytes(text, n) matches Some(b) ==> b.len() == n && forall|i: int|
            0 <= i < n ==> #[trigger] b[i] == (if text[2 * i] == 0x2b {
                0
            } else {
                codec::hex_digit_value(text[2 * i])->0 * 16
            }) + codec::hex_digit_value(text[2 * i + 1])->0,
{
    if codec::hex_bytes(text, n) is Some {
        assert forall|i: int|
            #![trigger text[2 * i]]
            0 <= i < n implies (text[2 * i] == 0x2b || codec::hex_digit_value(text[2 * i]) is Some)
            && codec::hex_digit_value(text[2 * i + 1]) is Some by {
            assert(codec::hex_pair(text[2 * i], text[2 * i + 1]) is Some);
        }
    }
    if text.len() == 2 * n && forall|i: int|
        #![trigger text[2 * i]]
        0 <= i < n ==> (text[2 * i] == 0x2b || codec::hex_digit_value(text[2 * i]) is Some)
            && codec::hex_digit_value(text[2 * i + 1]) is Some {
        assert forall|i: int| 0 <= i < n implies (#[trigger] codec::hex_pair(
            text[2 * i],
            text[2 * i + 1],
        )) is Some by {
            let c = text[2 * i];
        }
    }
}

/// No packet of an index is sent that could be saved: the first record of a part
/// did not fit into the part before it.
pub proof fn packets_are_filled(recs: Seq<RecView>, i: int)
    requires
        0 <= i < proto::index_parts(recs).len() - 1,
    ensures
        proto::index_parts(recs)[i + 1].len() > 0,
        proto::record_stream(proto::index_parts(recs)[i]).len() + proto::record_bytes(
            proto::index_parts(recs)[i + 1][0],
        ).len() > 3478,
    decreases recs.len(),
{
    let n = proto::first_group(recs) as int;
    let rest = recs.skip(n);
    proto::lemma_fitting_len(
        recs.drop_first(),
        proto::INDEX_ROOM - proto::record_bytes(recs[0]).len(),
    );
    let parts = proto::groups(recs);
    assert(parts == seq![recs.take(n)] + proto::groups(rest));
    assert(rest.len() > 0);
    if i > 0 {
        assert(parts[i] == proto::groups(rest)[i - 1]);
        assert(parts[i + 1] == proto::groups(rest)[i]);
        packets_are_filled(rest, i - 1);
    } else {
        let m = proto::first_group(rest) as int;
        proto::lemma_fitting_len(
            rest.drop_first(),
            proto::INDEX_ROOM - proto::record_bytes(rest[0]).len(),
        );
        assert(proto::groups(rest) == seq![rest.take(m)] + proto::groups(rest.skip(m)));
        assert(parts[1] == rest.take(m));
        assert(parts[1][0] == recs[n]);
        lemma_no_more_fits(
            recs.drop_first(),
            proto::INDEX_ROOM - proto::record_bytes(recs[0]).len(),
        );
        assert(recs.drop_first()[n - 1] == recs[n]);
        assert(recs.take(n).drop_first() =~= recs.drop_first().take(n - 1));
    }
}

/// What fits is as much as fits: the next record is too long for the room left.
proof fn lemma_no_more_fits(recs: Seq<RecView>, room: int)
    requires
        proto::fitting(recs, room) < recs.len(),
    ensures
        ({
            let n = proto::fitting(recs, room) as int;
            proto::record_stream(recs.take(n)).len() + proto::record_bytes(recs[n]).len() > room
        }),
    decreases recs.len(),
{
    let n = proto::fitting(recs, room) as int;
    if n > 0 {
        let rest = recs.drop_first();
        lemma_no_more_fits(rest, room - proto::record_bytes(recs[0]).len());
        assert(rest[n - 1] == recs[n]);
        assert(recs.take(n).drop_first() =~= rest.take(n - 1));
    } else {
        assert(proto::record_stream(recs.take(0)).len() == 0);
    }
}

/// A string on the wire reads back, wherever it stands, if its length fits the one
/// byte that it has.
pub proof fn strings_read_back(before: Seq<u8>, s: Seq<char>, after: Seq<u8>)
    requires
        encode_utf8(s).len() <= 255,
    ensures
        fabric::str_at(before + fabric::str_bytes(s) + after, before.len() as int) == Some(
            (s, (before.len() + fabric::str_bytes(s).len()) as int),
        ),
        fabric::str_bytes(s).len() == 1 + encode_utf8(s).len(),
{
    let bytes = encode_utf8(s);
    let n = before.len() as int;
    let buf = before + fabric::str_bytes(s) + after;
    codec::lemma_be_bytes_len(bytes.len(), 1);
    assert(codec::pow256(1) == 256) by {
        reveal_with_fuel(codec::pow256, 2);
    }
    codec::lemma_be_value_of_bytes(bytes.len(), 1);
    let len = codec::be_bytes(bytes.len(), 1);
    assert(codec::be_value(len) == len[0]) by {
        assert(len.drop_last() =~= Seq::empty());
        assert(codec::be_value(len.drop_last()) == 0);
    }
    assert(buf[n] == len[0]);
    assert(buf.subrange(n + 1, n + 1 + bytes.len()) =~= bytes);
    encode_utf8_valid_utf8(s);
    encode_utf8_decode_utf8(s);
}

/// A registration says the alias, the port for pushes and the protocol, in that
/// order, and nothing more.
pub proof fn a_registration_says_who_asks(alias: Seq<char>, port: u16)
    requires
        encode_utf8(alias).len() <= 255,
    ensures
        ({
            let req = fabric::register_request(alias, port);
            &&& req[0] == 0
            &&& fabric::str_at(req, 1) matches Some((a, next)) && a == alias && codec::be_value(
                req.subrange(next, next + 2),
            ) == port && req.skip(next + 2) == fabric::str_bytes("pnet-filesync/1"@)
        }),
{
    let req = fabric::register_request(alias, port);
    let p = codec::be_bytes(port as nat, 2);
    let tail = p + fabric::str_bytes(fabric::APP_PROTOCOL@);
    codec::lemma_be_u16(port as nat);
    strings_read_back(seq![fabric::OP_REGISTER], alias, tail);
    assert(req =~= seq![fabric::OP_REGISTER] + fabric::str_bytes(alias) + tail);
    let next = 1 + fabric::str_bytes(alias).len() as int;
    assert(req.subrange(next, next + 2) =~= p);
    assert(req.skip(next + 2) =~= fabric::str_bytes(fabric::APP_PROTOCOL@));
}

/// A request to send says the token, the device and the app, and then the payload;
/// a push says the sender, and then the payload.
pub proof fn payloads_are_passed_on(
    token: Seq<u8>,
    device: Seq<u8>,
    app: Seq<u8>,
    payload: Seq<u8>,
    push: Seq<u8>,
)
    requires
        token.len() == 16,
        device.len() == 16,
        app.len() == 16,
    ensures
        ({
            let req = fabric::send_request(token, device, app, payload);
            &&& req[0] == 3
            &&& req.subrange(1, 17) == token && req.subrange(17, 33) == device
            &&& req.subrange(33, 49) == app && req.skip(49) == payload
        }),
        fabric::push_of(seq![4u8] + app + payload) == Some((app, payload)),
        fabric::push_of(push) matches Some((sender, body)) ==> sender.len() == 16 && push == seq![4u8]
            + sender + body,
{
    let req = fabric::send_request(token, device, app, payload);
    assert(req.subrange(1, 17) =~= token);
    assert(req.subrange(17, 33) =~= device);
    assert(req.subrange(33, 49) =~= app);
    assert(req.skip(49) =~= payload);
    let p = seq![4u8] + app + payload;
    assert(p.subrange(1, 17) =~= app);
    assert(p.skip(17) =~= payload);
    if let Some((sender, body)) = fabric::push_of(push) {
        assert(push =~= seq![4u8] + sender + body);
    }
}

/// An app in a directory.
pub struct AppEntry {
    pub id: Seq<u8>,
    pub alias: Seq<char>,
    pub address: Seq<u8>,
    pub approved: u8,
}

/// A device in a directory.
pub struct DeviceEntry {
    pub id: Seq<u8>,
    pub alias: Seq<char>,
    pub grade: u8,
    pub rank: u8,
    pub hosts: Seq<Seq<char>>,
    pub apps: Seq<AppEntry>,
}

/// What a directory says of the app that asks.
pub struct OwnEntry {
    pub status: u8,
    pub app_id: Seq<u8>,
    pub app_alias: Seq<char>,
    pub address: Seq<u8>,
    pub approved: u8,
    pub token: Seq<u8>,
    pub device_uuid: Seq<u8>,
    pub owner_alias: Seq<char>,
    pub owner_uuid: Seq<u8>,
}

pub open spec fn short(s: Seq<char>) -> bool {
    encode_utf8(s).len() <= 255
}

pub open spec fn app_fits(a: AppEntry) -> bool {
    a.id.len() == 16 && short(a.alias) && a.address.len() == 6
}

pub open spec fn device_fits(d: DeviceEntry) -> bool {
    &&& d.id.len() == 16 && short(d.alias) && d.hosts.len() <= 255 && d.apps.len() <= 255
    &&& forall|i: int| 0 <= i < d.hosts.len() ==> short(#[trigger] d.hosts[i])
    &&& forall|i: int| 0 <= i < d.apps.len() ==> app_fits(#[trigger] d.apps[i])
}

pub open spec fn own_fits(o: OwnEntry) -> bool {
    &&& o.app_id.len() == 16 && short(o.app_alias) && o.address.len() == 6 && o.token.len() == 16
    &&& o.device_uuid.len() == 16 && short(o.owner_alias) && o.owner_uuid.len() == 16
}

pub open spec fn app_bytes(a: AppEntry) -> Seq<u8> {
    a.id + fabric::str_bytes(a.alias) + a.address + seq![a.approved]
}

pub open spec fn apps_bytes(apps: Seq<AppEntry>) -> Seq<u8>
    decreases apps.len(),
{
    if apps.len() == 0 {
        Seq::empty()
    } else {
        app_bytes(apps[0]) + apps_bytes(apps.drop_first())
    }
}

pub open spec fn hosts_bytes(hosts: Seq<Seq<char>>) -> Seq<u8>
    decreases hosts.len(),
{
    if hosts.len() == 0 {
        Seq::empty()
    } else {
        fabric::str_bytes(hosts[0]) + hosts_bytes(hosts.drop_first())
    }
}

pub open spec fn device_bytes(d: DeviceEntry) -> Seq<u8> {
    d.id + fabric::str_bytes(d.alias) + seq![d.grade, d.rank, d.hosts.len() as u8] + hosts_bytes(
        d.hosts,
    ) + seq![d.apps.len() as u8] + apps_bytes(d.apps)
}

pub open spec fn devices_bytes(devices: Seq<DeviceEntry>) -> Seq<u8>
    decreases devices.len(),
{
    if devices.len() == 0 {
        Seq::empty()
    } else {
        device_bytes(devices[0]) + devices_bytes(devices.drop_first())
    }
}

pub open spec fn own_bytes(o: OwnEntry) -> Seq<u8> {
    seq![o.status] + o.app_id + fabric::str_bytes(o.app_alias) + o.address + seq![o.approved]
        + o.token + o.device_uuid + fabric::str_bytes(o.owner_alias) + o.owner_uuid
}

/// A directory as the node writes it, with whatever follows the own devices.
pub open spec fn directory_bytes(
    o: OwnEntry,
    devices: Seq<DeviceEntry>,
    contacts: Seq<u8>,
) -> Seq<u8> {
    own_bytes(o) + seq![devices.len() as u8] + devices_bytes(devices) + contacts
}

/// The peers among the apps of a device: those that are approved and have the
/// alias, but for the app that asks.
pub open spec fn peers_on(
    apps: Seq<AppEntry>,
    device: Seq<u8>,
    device_alias: Seq<char>,
    alias: Seq<char>,
    own: Seq<u8>,
) -> Seq<PeerView>
    decreases apps.len(),
{
    if apps.len() == 0 {
        Seq::empty()
    } else {
        let a = apps[0];
        let rest = peers_on(apps.drop_first(), device, device_alias, alias, own);
        if a.approved != 0 && a.alias == alias && a.id != own {
            seq![PeerView { device, app_id: a.id, device_alias }] + rest
        } else {
            rest
        }
    }
}

/// The peers among the apps of all devices.
pub open spec fn peers_among(devices: Seq<DeviceEntry>, alias: Seq<char>, own: Seq<u8>) -> Seq<
    PeerView,
>
    decreases devices.len(),
{
    if devices.len() == 0 {
        Seq::empty()
    } else {
        peers_on(devices[0].apps, devices[0].id, devices[0].alias, alias, own) + peers_among(
            devices.drop_first(),
            alias,
            own,
        )
    }
}

proof fn lemma_apps_read(
    before: Seq<u8>,
    apps: Seq<AppEntry>,
    after: Seq<u8>,
    device: Seq<u8>,
    device_alias: Seq<char>,
    alias: Seq<char>,
    own: Seq<u8>,
)
    requires
        forall|i: int| 0 <= i < apps.len() ==> app_fits(#[trigger] apps[i]),
    ensures
        fabric::apps_at(
            before + apps_bytes(apps) + after,
            before.len() as int,
            apps.len(),
            device,
            device_alias,
            alias,
            own,
        ) == Some(
            (
                peers_on(apps, device, device_alias, alias, own),
                (before.len() + apps_bytes(apps).len()) as int,
            ),
        ),
    decreases apps.len(),
{
    let buf = before + apps_bytes(apps) + after;
    if apps.len() > 0 {
        let a = apps[0];
        let rest = apps.drop_first();
        assert(app_fits(apps[0]));
        assert forall|i: int| 0 <= i < rest.len() implies app_fits(#[trigger] rest[i]) by {
            assert(rest[i] == apps[i + 1]);
        }
        let n = before.len() as int;
        let tail = a.address + seq![a.approved] + apps_bytes(rest) + after;
        strings_read_back(before + a.id, a.alias, tail);
        assert(buf =~= before + a.id + fabric::str_bytes(a.alias) + tail);
        assert(buf.subrange(n, n + 16) =~= a.id);
        let p2 = n + 16 + fabric::str_bytes(a.alias).len();
        assert(buf[p2 + 6] == a.approved);
        let next = before + app_bytes(a);
        lemma_apps_read(next, rest, after, device, device_alias, alias, own);
        assert(buf =~= next + apps_bytes(rest) + after);
        let one = (fabric::app_at(buf, n, device, device_alias, alias, own)->0).0;
        let more = peers_on(rest, device, device_alias, alias, own);
        if a.approved != 0 && a.alias == alias && a.id != own {
            assert(one =~= seq![PeerView { device, app_id: a.id, device_alias }]);
        } else {
            assert(one =~= Seq::empty());
            assert(one + more =~= more);
        }
    }
}

proof fn lemma_hosts_read(before: Seq<u8>, hosts: Seq<Seq<char>>, after: Seq<u8>)
    requires
        forall|i: int| 0 <= i < hosts.len() ==> short(#[trigger] hosts[i]),
    ensures
        fabric::strs_at(
            before + hosts_bytes(hosts) + after,
            before.len() as int,
            hosts.len(),
        ) == Some((before.len() + hosts_bytes(hosts).len()) as int),
    decreases hosts.len(),
{
    if hosts.len() > 0 {
        let rest = hosts.drop_first();
        assert(short(hosts[0]));
        assert forall|i: int| 0 <= i < rest.len() implies short(#[trigger] rest[i]) by {
            assert(rest[i] == hosts[i + 1]);
        }
        let buf = before + hosts_bytes(hosts) + after;
        strings_read_back(before, hosts[0], hosts_bytes(rest) + after);
        assert(buf =~= before + fabric::str_bytes(hosts[0]) + (hosts_bytes(rest) + after));
        let next = before + fabric::str_bytes(hosts[0]);
        lemma_hosts_read(next, rest, after);
        assert(buf =~= next + hosts_bytes(rest) + after);
    }
}

#[verifier::rlimit(40)]
proof fn lemma_device_reads(
    before: Seq<u8>,
    d: DeviceEntry,
    after: Seq<u8>,
    alias: Seq<char>,
    own: Seq<u8>,
)
    requires
        device_fits(d),
    ensures
        fabric::device_at(
            before + device_bytes(d) + after,
            before.len() as int,
            alias,
            own,
        ) == Some(
            (
                peers_on(d.apps, d.id, d.alias, alias, own),
                (before.len() + device_bytes(d).len()) as int,
            ),
        ),
{
    let n = before.len() as int;
    let buf = before + device_bytes(d) + after;
    let name = fabric::str_bytes(d.alias);
    let counts = seq![d.grade, d.rank, d.hosts.len() as u8];
    let hosts = hosts_bytes(d.hosts);
    let count = seq![d.apps.len() as u8];
    let apps = apps_bytes(d.apps);
    let p1 = n + 16;
    let p2 = p1 + name.len();
    let p4 = p2 + 3;
    let p5 = p4 + hosts.len();
    assert(device_bytes(d).len() == 16 + name.len() + 3 + hosts.len() + 1 + apps.len());
    assert(fabric::arr_at(buf, n, 16) == Some((d.id, p1))) by {
        assert(buf.subrange(n, n + 16) =~= d.id);
    }
    assert(fabric::str_at(buf, p1) == Some((d.alias, p2))) by {
        let tail = counts + hosts + count + apps + after;
        strings_read_back(before + d.id, d.alias, tail);
        assert(buf =~= before + d.id + name + tail);
    }
    assert(fabric::past(buf, p2, 2) == Some(p2 + 2));
    assert(fabric::byte_at(buf, p2 + 2) == Some((d.hosts.len() as u8, p4))) by {
        assert(buf[p2 + 2] == counts[2]);
    }
    assert(fabric::strs_at(buf, p4, d.hosts.len()) == Some(p5)) by {
        let head = before + d.id + name + counts;
        let tail = count + apps + after;
        lemma_hosts_read(head, d.hosts, tail);
        assert(buf =~= head + hosts + tail);
    }
    assert(fabric::byte_at(buf, p5) == Some((d.apps.len() as u8, p5 + 1))) by {
        assert(buf[p5] == count[0]);
    }
    assert(fabric::apps_at(buf, p5 + 1, d.apps.len(), d.id, d.alias, alias, own) == Some(
        (peers_on(d.apps, d.id, d.alias, alias, own), p5 + 1 + apps.len()),
    )) by {
        let head = before + d.id + name + counts + hosts + count;
        lemma_apps_read(head, d.apps, after, d.id, d.alias, alias, own);
        assert(buf =~= head + apps + after);
    }
}

#[verifier::rlimit(40)]
proof fn lemma_devices_read(
    before: Seq<u8>,
    devices: Seq<DeviceEntry>,
    after: Seq<u8>,
    alias: Seq<char>,
    own: Seq<u8>,
)
    requires
        forall|i: int| 0 <= i < devices.len() ==> device_fits(#[trigger] devices[i]),
    ensures
        fabric::devices_at(
            before + devices_bytes(devices) + after,
            before.len() as int,
            devices.len(),
            alias,
            own,
        ) == Some(
            (peers_among(devices, alias, own), (before.len() + devices_bytes(devices).len()) as int),
        ),
    decreases devices.len(),
{
    if devices.len() > 0 {
        let d = devices[0];
        let rest = devices.drop_first();
        assert(device_fits(devices[0]));
        assert forall|i: int| 0 <= i < rest.len() implies device_fits(#[trigger] rest[i]) by {
            assert(rest[i] == devices[i + 1]);
        }
        let buf = before + devices_bytes(devices) + after;
        let next = before + device_bytes(d);
        let n = before.len() as int;
        let first = peers_on(d.apps, d.id, d.alias, alias, own);
        let end = (next.len() + devices_bytes(rest).len()) as int;
        assert(fabric::device_at(buf, n, alias, own) == Some((first, next.len() as int))) by {
            lemma_device_reads(before, d, devices_bytes(rest) + after, alias, own);
            assert(buf =~= before + device_bytes(d) + (devices_bytes(rest) + after));
        }
        assert(fabric::devices_at(buf, next.len() as int, rest.len(), alias, own) == Some(
            (peers_among(rest, alias, own), end),
        )) by {
            lemma_devices_read(next, rest, after, alias, own);
            assert(buf =~= next + devices_bytes(rest) + after);
        }
        lemma_devices_step(
            buf,
            n,
            devices.len(),
            alias,
            own,
            first,
            next.len() as int,
            peers_among(rest, alias, own),
            end,
        );
        assert(end == before.len() + devices_bytes(devices).len());
    }
}

proof fn lemma_devices_step(
    buf: Seq<u8>,
    pos: int,
    n: nat,
    alias: Seq<char>,
    own: Seq<u8>,
    first: Seq<PeerView>,
    next: int,
    rest: Seq<PeerView>,
    end: int,
)
    requires
        n > 0,
        fabric::device_at(buf, pos, alias, own) == Some((first, next)),
        fabric::devices_at(buf, next, (n - 1) as nat, alias, own) == Some((rest, end)),
    ensures
        fabric::devices_at(buf, pos, n, alias, own) == Some((first + rest, end)),
{
}

/// A directory as the node writes it reads as what it says: the app that asks, its
/// approval and its device, and as peers the approved apps of the given alias on
/// the user's devices, but for the app itself. Contacts, which follow the devices,
/// count for nothing.
#[verifier::rlimit(40)]
pub proof fn a_directory_reads_back(
    o: OwnEntry,
    devices: Seq<DeviceEntry>,
    contacts: Seq<u8>,
    alias: Seq<char>,
)
    requires
        own_fits(o),
        devices.len() <= 255,
        forall|i: int| 0 <= i < devices.len() ==> device_fits(#[trigger] devices[i]),
    ensures
        fabric::directory_of(directory_bytes(o, devices, contacts), alias) == Some(
            DirectoryView {
                app_id: o.app_id,
                device_uuid: o.device_uuid,
                approved: o.approved != 0,
                peers: peers_among(devices, alias, o.app_id),
            },
        ),
{
    let buf = directory_bytes(o, devices, contacts);
    let own = own_bytes(o);
    let count = seq![devices.len() as u8];
    let entries = devices_bytes(devices);
    let p = own.len() as int;
    lemma_directory_parts(own, count, entries, contacts);
    lemma_own_reads(o, count + entries + contacts);
    lemma_devices_read(own + count, devices, contacts, alias, o.app_id);
    assert(fabric::byte_at(buf, p) == Some((devices.len() as u8, p + 1)));
    assert((own + count).len() == p + 1);
}

/// A directory that breaks off before its last own device ends is not read.
#[verifier::rlimit(40)]
pub proof fn a_cut_directory_is_not_read(
    o: OwnEntry,
    devices: Seq<DeviceEntry>,
    alias: Seq<char>,
    k: int,
)
    requires
        own_fits(o),
        devices.len() <= 255,
        forall|i: int| 0 <= i < devices.len() ==> device_fits(#[trigger] devices[i]),
        0 <= k < directory_bytes(o, devices, Seq::empty()).len(),
    ensures
        fabric::directory_of(directory_bytes(o, devices, Seq::empty()).take(k), alias) is None,
{
    let none = Seq::<u8>::empty();
    let full = directory_bytes(o, devices, none);
    let cut = full.take(k);
    let extra = full.skip(k);
    assert(cut + extra =~= full);
    if fabric::directory_of(cut, alias) is Some {
        let own = own_bytes(o);
        let count = seq![devices.len() as u8];
        let entries = devices_bytes(devices);
        let p = own.len() as int;
        assert(fabric::head_at(full) == Some((o.app_id, o.approved != 0, o.device_uuid, p))) by {
            lemma_directory_parts(own, count, entries, none);
            lemma_own_reads(o, count + entries + none);
        }
        assert(fabric::head_at(cut) == fabric::head_at(full)) by {
            fabric::lemma_head_extends(cut, extra);
        }
        assert(full[p] == devices.len()) by {
            lemma_directory_parts(own, count, entries, none);
        }
        assert(fabric::byte_at(cut, p) == Some((devices.len() as u8, p + 1))) by {
            assert(p < cut.len());
            assert(cut[p] == full[p]);
        }
        assert(fabric::devices_at(full, p + 1, devices.len(), alias, o.app_id) == Some(
            (peers_among(devices, alias, o.app_id), full.len() as int),
        )) by {
            lemma_devices_read(own + count, devices, none, alias, o.app_id);
            assert(full.len() == p + 1 + entries.len());
        }
        fabric::lemma_devices_extend(cut, extra, p + 1, devices.len(), alias, o.app_id);
        lemma_devices_within(cut, p + 1, devices.len(), alias, o.app_id);
    }
}

proof fn lemma_strs_within(buf: Seq<u8>, pos: int, n: nat)
    requires
        0 <= pos <= buf.len(),
    ensures
        fabric::strs_at(buf, pos, n) matches Some(e) ==> pos <= e <= buf.len(),
    decreases n,
{
    if n > 0 {
        if let Some((_, next)) = fabric::str_at(buf, pos) {
            lemma_strs_within(buf, next, (n - 1) as nat);
        }
    }
}

proof fn lemma_apps_within(
    buf: Seq<u8>,
    pos: int,
    n: nat,
    device: Seq<u8>,
    device_alias: Seq<char>,
    alias: Seq<char>,
    own: Seq<u8>,
)
    requires
        0 <= pos <= buf.len(),
    ensures
        fabric::apps_at(buf, pos, n, device, device_alias, alias, own) matches Some((_, e)) ==> pos
            <= e <= buf.len(),
    decreases n,
{
    if n > 0 {
        if let Some((_, next)) = fabric::app_at(buf, pos, device, device_alias, alias, own) {
            assert(pos <= next <= buf.len());
            lemma_apps_within(buf, next, (n - 1) as nat, device, device_alias, alias, own);
        }
    }
}

proof fn lemma_devices_within(buf: Seq<u8>, pos: int, n: nat, alias: Seq<char>, own: Seq<u8>)
    requires
        0 <= pos <= buf.len(),
    ensures
        fabric::devices_at(buf, pos, n, alias, own) matches Some((_, e)) ==> pos <= e <= buf.len(),
    decreases n,
{
    if n > 0 {
        if let Some((_, next)) = fabric::device_at(buf, pos, alias, own) {
            let device = (fabric::arr_at(buf, pos, 16)->0).0;
            let (device_alias, p2) = fabric::str_at(buf, pos + 16)->0;
            let (hosts, p4) = fabric::byte_at(buf, p2 + 2)->0;
            lemma_strs_within(buf, p4, hosts as nat);
            let p5 = fabric::strs_at(buf, p4, hosts as nat)->0;
            let (apps, p6) = fabric::byte_at(buf, p5)->0;
            lemma_apps_within(buf, p6, apps as nat, device, device_alias, alias, own);
            lemma_devices_within(buf, next, (n - 1) as nat, alias, own);
        }
    }
}

proof fn lemma_directory_parts(own: Seq<u8>, count: Seq<u8>, entries: Seq<u8>, contacts: Seq<u8>)
    requires
        count.len() == 1,
    ensures
        own + count + entries + contacts == own + (count + entries + contacts),
        (own + count + entries + contacts)[own.len() as int] == count[0],
        (own + count).len() == own.len() + 1,
{
    assert(own + count + entries + contacts =~= own + (count + entries + contacts));
}

#[verifier::rlimit(40)]
proof fn lemma_own_reads(o: OwnEntry, rest: Seq<u8>)
    requires
        own_fits(o),
    ensures
        fabric::head_at(own_bytes(o) + rest) == Some(
            (o.app_id, o.approved != 0, o.device_uuid, own_bytes(o).len() as int),
        ),
{
    let buf = own_bytes(o) + rest;
    let name = fabric::str_bytes(o.app_alias);
    let owner = fabric::str_bytes(o.owner_alias);
    let p2 = 17 + name.len() as int;
    let p6 = p2 + 39;
    let p7 = p6 + owner.len();
    assert(own_bytes(o).len() == p7 + 16);
    assert(fabric::arr_at(buf, 1, 16) == Some((o.app_id, 17int))) by {
        assert(buf.subrange(1, 17) =~= o.app_id);
    }
    assert(fabric::str_at(buf, 17) == Some((o.app_alias, p2))) by {
        let head = seq![o.status] + o.app_id;
        let tail = o.address + seq![o.approved] + o.token + o.device_uuid + owner + o.owner_uuid
            + rest;
        strings_read_back(head, o.app_alias, tail);
        assert(buf =~= head + name + tail);
    }
    assert(fabric::past(buf, p2, 6) == Some(p2 + 6));
    assert(fabric::byte_at(buf, p2 + 6) == Some((o.approved, p2 + 7))) by {
        let head = seq![o.status] + o.app_id + name + o.address;
        assert(buf[p2 + 6] == (head + seq![o.approved])[p2 + 6]);
    }
    assert(fabric::past(buf, p2 + 7, 16) == Some(p2 + 23));
    assert(fabric::arr_at(buf, p2 + 23, 16) == Some((o.device_uuid, p6))) by {
        assert(buf.subrange(p2 + 23, p2 + 39) =~= o.device_uuid);
    }
    assert(fabric::str_at(buf, p6) == Some((o.owner_alias, p7))) by {
        let head = seq![o.status] + o.app_id + name + o.address + seq![o.approved] + o.token
            + o.device_uuid;
        let tail = o.owner_uuid + rest;
        strings_read_back(head, o.owner_alias, tail);
        assert(buf =~= head + owner + tail);
    }
    assert(fabric::past(buf, p7, 16) == Some(p7 + 16));
}

} // verus!
