//! The index: which record stays, what is fetched, what the disk has to do, what
//! a walk brings and takes.

use vstd::prelude::*;
use vstd::utf8::*;

use crate::codec;
use crate::pathmap;
use crate::paths;
use crate::store;
use crate::store::{EffectView, EntryKind, FoundView, RecView, WalkStepView};
use crate::text;
use crate::text::Separator;

verus! {

/// The later write wins, whatever it is: a file over an older tombstone, a
/// tombstone over an older file. Of one time, the delete wins. Of one time and
/// both files or both deletes, the first byte in which the hashes differ decides,
/// and where none differs neither wins.
pub proof fn last_write_wins(a: RecView, b: RecView)
    ensures
        a.mtime > b.mtime ==> store::beats(a, b) && !store::beats(b, a),
        a.mtime == b.mtime && a.deleted && !b.deleted ==> store::beats(a, b) && !store::beats(b, a),
        a.mtime == b.mtime && a.deleted == b.deleted && a.hash == b.hash ==> !store::beats(a, b),
        forall|k: int|
            a.mtime == b.mtime && a.deleted == b.deleted && 0 <= k < a.hash.len() && k
                < b.hash.len() && a.hash.take(k) == b.hash.take(k) && (#[trigger] a.hash[k])
                > b.hash[k] ==> store::beats(a, b) && !store::beats(b, a),
{
    codec::lemma_lex_irreflexive(a.hash);
    assert forall|k: int|
        a.mtime == b.mtime && a.deleted == b.deleted && 0 <= k < a.hash.len() && k < b.hash.len()
            && a.hash.take(k) == b.hash.take(k) && (#[trigger] a.hash[k]) > b.hash[k] implies
        store::beats(a, b) && !store::beats(b, a) by {
        codec::first_difference_decides(b.hash, a.hash, k);
        codec::lemma_lex_asymmetric(b.hash, a.hash);
    }
}

/// What merging one record does to the index. A record under an unacceptable path
/// does nothing. One for a new path, one written later than the one there, and a
/// delete of the same time as the file there, are taken as they are, under the
/// normal path; an earlier one, and a file of the same time as the delete there,
/// are not. No other path is touched.
pub proof fn merging_a_record(files: Map<Seq<char>, RecView>, r: RecView)
    ensures
        paths::sanitized(r.path) is None ==> store::merge_all(files, seq![r]) == files,
        paths::sanitized(r.path) matches Some(p) ==> {
            let after = store::merge_all(files, seq![r]);
            let taken = RecView {
                path: p,
                size: r.size,
                mtime: r.mtime,
                hash: r.hash,
                deleted: r.deleted,
            };
            &&& after.dom() == files.dom().insert(p)
            &&& forall|k: Seq<char>| k != p && files.dom().contains(k) ==> #[trigger] after[k] == files[k]
            &&& !files.dom().contains(p) ==> after[p] == taken
            &&& files.dom().contains(p) && r.mtime > files[p].mtime ==> after[p] == taken
            &&& files.dom().contains(p) && r.mtime < files[p].mtime ==> after[p] == files[p]
            &&& files.dom().contains(p) && r.mtime == files[p].mtime && r.deleted
                && !files[p].deleted ==> after[p] == taken
            &&& files.dom().contains(p) && r.mtime == files[p].mtime && !r.deleted
                && files[p].deleted ==> after[p] == files[p]
            &&& after[p] == taken || after[p] == files[p]
        },
{
    let one = seq![r];
    assert(one.drop_last() =~= Seq::empty());
    assert(store::merge_all(files, one.drop_last()) == files);
    if let Some(p) = paths::sanitized(r.path) {
        let after = store::merge_all(files, one);
        if files.dom().contains(p) {
            last_write_wins(store::normalized(r)->0, files[p]);
            last_write_wins(files[p], store::normalized(r)->0);
        }
        assert(after.dom() =~= files.dom().insert(p));
    }
}

/// Whether merging `recs` into `files` changes the index at the turn of `recs[i]`.
pub open spec fn changes_at(files: Map<Seq<char>, RecView>, recs: Seq<RecView>, i: int) -> bool {
    store::merge_all(files, recs.take(i + 1)) != store::merge_all(files, recs.take(i))
}

/// A record is offered exactly where taking it changes the index.
proof fn lemma_offered_changes(files: Map<Seq<char>, RecView>, r: RecView)
    ensures
        store::offered(files, r) is Some <==> store::merge_step(files, r) != files,
{
    if let Some(n) = store::offered(files, r) {
        let after = store::merge_step(files, r);
        if files.dom().contains(n.path) {
            store::beats_is_an_order(n, n, n);
            assert(after[n.path] != files[n.path]);
        } else {
            assert(after.dom().contains(n.path));
        }
    }
}

/// A blob is fetched exactly if some record brought a change, is a file that is
/// not empty, names the blob, and found another content, or none, on disk. No
/// blob is asked for twice.
#[verifier::rlimit(40)]
pub proof fn what_a_merge_fetches(
    files: Map<Seq<char>, RecView>,
    recs: Seq<RecView>,
    on_disk: Seq<Option<Seq<u8>>>,
    h: Seq<u8>,
)
    ensures
        store::merge_want(files, recs, on_disk).contains(h) <==> exists|i: int|
            0 <= i < recs.len() && #[trigger] changes_at(files, recs, i) && !recs[i].deleted
                && recs[i].size > 0 && recs[i].hash == h && on_disk[i] != Some(h),
        store::merge_want(files, recs, on_disk).no_duplicates(),
    decreases recs.len(),
{
    let w = store::merge_want(files, recs, on_disk);
    if recs.len() == 0 {
        assert(w =~= Seq::empty());
    } else {
        let init = recs.drop_last();
        let n = recs.len() - 1;
        let last = recs.last();
        let before = store::merge_want(files, init, on_disk);
        let state = store::merge_all(files, init);
        what_a_merge_fetches(files, init, on_disk, h);
        assert(recs.take(n) =~= init);
        assert(recs.take(n + 1) =~= recs);
        lemma_want_step(before, state, last, on_disk[n], h);
        lemma_offered_changes(state, last);
        assert(changes_at(files, recs, n) <==> store::offered(state, last) is Some);
        assert forall|i: int| 0 <= i < n implies #[trigger] changes_at(files, recs, i)
            == changes_at(files, init, i) by {
            assert(recs.take(i) =~= init.take(i));
            assert(recs.take(i + 1) =~= init.take(i + 1));
        }
        if exists|i: int|
            0 <= i < init.len() && #[trigger] changes_at(files, init, i) && !init[i].deleted
                && init[i].size > 0 && init[i].hash == h && on_disk[i] != Some(h) {
            let i = choose|i: int|
                0 <= i < init.len() && #[trigger] changes_at(files, init, i) && !init[i].deleted
                    && init[i].size > 0 && init[i].hash == h && on_disk[i] != Some(h);
            assert(changes_at(files, recs, i));
            assert(recs[i] == init[i]);
        }
        if exists|i: int|
            0 <= i < recs.len() && #[trigger] changes_at(files, recs, i) && !recs[i].deleted
                && recs[i].size > 0 && recs[i].hash == h && on_disk[i] != Some(h) {
            let i = choose|i: int|
                0 <= i < recs.len() && #[trigger] changes_at(files, recs, i) && !recs[i].deleted
                    && recs[i].size > 0 && recs[i].hash == h && on_disk[i] != Some(h);
            if i < n {
                assert(changes_at(files, init, i));
                assert(recs[i] == init[i]);
            }
        }
    }
}

proof fn lemma_want_step(
    before: Seq<Seq<u8>>,
    state: Map<Seq<char>, RecView>,
    last: RecView,
    content: Option<Seq<u8>>,
    h: Seq<u8>,
)
    requires
        before.no_duplicates(),
    ensures
        ({
            let w = store::want_step(before, state, last, content);
            &&& w.no_duplicates()
            &&& w.contains(h) <==> before.contains(h) || (store::offered(state, last) is Some
                && !last.deleted && last.size > 0 && last.hash == h && content != Some(h))
        }),
{
    let w = store::want_step(before, state, last, content);
    if w != before {
        assert(w == before.push(last.hash));
        assert(!before.contains(last.hash));
        assert(w[before.len() as int] == last.hash);
        if before.contains(h) {
            let k = choose|k: int| 0 <= k < before.len() && before[k] == h;
            assert(w[k] == h);
        }
        if w.contains(h) && h != last.hash {
            let k = choose|k: int| 0 <= k < w.len() && w[k] == h;
            assert(before[k] == h);
        }
        assert forall|a: int, b: int|
            0 <= a < w.len() && 0 <= b < w.len() && a != b implies w[a] != w[b] by {
            if a < before.len() && b < before.len() {
                assert(before[a] != before[b]);
            } else if a < before.len() {
                assert(before.contains(before[a]));
            } else {
                assert(before.contains(before[b]));
            }
        }
    } else {
        assert(before.push(last.hash).len() == before.len() + 1);
    }
}

/// Merging in two goes: the second goes on from the index that the first left.
pub proof fn effects_in_parts(
    files: Map<Seq<char>, RecView>,
    a: Seq<RecView>,
    b: Seq<RecView>,
)
    ensures
        store::merge_effects(files, a + b) == store::merge_effects(files, a)
            + store::merge_effects(store::merge_all(files, a), b),
    decreases b.len(),
{
    if b.len() == 0 {
        assert(a + b =~= a);
        assert(store::merge_effects(files, a + b) =~= store::merge_effects(files, a)
            + store::merge_effects(store::merge_all(files, a), b));
    } else {
        assert((a + b).drop_last() =~= a + b.drop_last());
        effects_in_parts(files, a, b.drop_last());
        store::merge_in_parts(files, a, b.drop_last());
        assert(store::merge_effects(files, a + b) =~= store::merge_effects(files, a)
            + store::merge_effects(store::merge_all(files, a), b));
    }
}

/// What one record asks of the disk: nothing if it does not change the index; to
/// remove the file if it is a delete; to create it if it is an empty file.
pub proof fn what_a_record_asks_of_the_disk(files: Map<Seq<char>, RecView>, r: RecView, p: Seq<char>)
    requires
        paths::sanitized(r.path) == Some(p),
    ensures
        ({
            let changed = store::merge_all(files, seq![r]) != files;
            let effects = store::merge_effects(files, seq![r]);
            &&& !changed ==> effects.len() == 0
            &&& changed && r.deleted ==> effects == seq![EffectView::Remove { path: p }]
            &&& changed && !r.deleted && r.size == 0 ==> effects == seq![
                EffectView::CreateEmpty { path: p, mtime: r.mtime },
            ]
            &&& changed && !r.deleted && r.size > 0 ==> effects.len() == 0
        }),
{
    let one = seq![r];
    assert(one.drop_last() =~= Seq::empty());
    assert(store::merge_all(files, one.drop_last()) == files);
    assert(store::merge_effects(files, one.drop_last()) =~= Seq::empty());
    lemma_offered_changes(files, r);
    let effects = store::merge_effects(files, one);
    if let Some(n) = store::offered(files, r) {
        if let Some(e) = store::effect_of(n) {
            assert(effects =~= seq![e]);
        }
    }
}

/// A merge counts as a change exactly if the index is another afterwards; the
/// generation then moves on, as long as there is a later one, and else stays.
pub proof fn generations_count_changes(files: Map<Seq<char>, RecView>, recs: Seq<RecView>, gen: u64)
    ensures
        store::merge_takes(files, recs) <==> store::merge_all(files, recs) != files,
        gen < u64::MAX ==> store::next_gen(gen, true) == gen + 1,
        store::next_gen(u64::MAX, true) == u64::MAX,
        store::next_gen(gen, false) == gen,
    decreases recs.len(),
{
    if recs.len() > 0 {
        let init = recs.drop_last();
        let mid = store::merge_all(files, init);
        let end = store::merge_all(files, recs);
        generations_count_changes(files, init, gen);
        lemma_offered_changes(mid, recs.last());
        if mid != files {
            let k = lemma_changed_key(files, init);
            store::merge_never_regresses(mid, seq![recs.last()], k);
            let one = seq![recs.last()];
            assert(one.drop_last() =~= Seq::empty());
            assert(store::merge_all(mid, one.drop_last()) == mid);
            assert(store::merge_all(mid, one) == end);
            if files.dom().contains(k) {
                store::beats_is_an_order(end[k], mid[k], files[k]);
                store::beats_is_an_order(files[k], files[k], files[k]);
            }
        }
    }
}

/// A merge that changes the index has put a better record somewhere, or a record
/// where there was none.
proof fn lemma_changed_key(files: Map<Seq<char>, RecView>, recs: Seq<RecView>) -> (k: Seq<char>)
    requires
        store::merge_all(files, recs) != files,
    ensures
        store::merge_all(files, recs).dom().contains(k),
        files.dom().contains(k) ==> store::beats(store::merge_all(files, recs)[k], files[k]),
{
    let m = store::merge_all(files, recs);
    assert forall|k: Seq<char>| #[trigger] files.dom().contains(k) implies m.dom().contains(k) && (
    m[k] == files[k] || store::beats(m[k], files[k])) by {
        store::merge_never_regresses(files, recs, k);
    }
    if forall|k: Seq<char>| #[trigger] m.dom().contains(k) ==> files.dom().contains(k) && m[k]
        == files[k] {
        assert(m =~= files);
    }
    choose|k: Seq<char>| #[trigger]
        m.dom().contains(k) && !(files.dom().contains(k) && m[k] == files[k])
}

/// What a walk makes of one file. One that it can take in stands in the index
/// afterwards with its size and time, alive; with its hash too, if the index held
/// no live record of that size and time, and else as it stood. A file over the
/// cap, one that could not be read, and one under an unacceptable path leave the
/// index alone. No other path is touched.
pub proof fn scanning_a_file(files: Map<Seq<char>, RecView>, f: FoundView)
    ensures
        ({
            let after = store::scan_all(files, seq![f]);
            &&& paths::sanitized(f.rel) is None || f.meta is None || f.hash is None || (
            f.meta->0).0 > store::MAX_FILE_BYTES ==> after == files
            &&& paths::sanitized(f.rel) is Some && f.meta is Some && f.hash is Some && (
            f.meta->0).0 <= store::MAX_FILE_BYTES ==> {
                let p = paths::sanitized(f.rel)->0;
                let size = (f.meta->0).0;
                let mtime = (f.meta->0).1;
                &&& after.dom() == files.dom().insert(p)
                &&& forall|k: Seq<char>|
                    k != p && files.dom().contains(k) ==> #[trigger] after[k] == files[k]
                &&& !after[p].deleted && after[p].size == size && after[p].mtime == mtime
                &&& files.dom().contains(p) && !files[p].deleted && files[p].size == size
                    && files[p].mtime == mtime ==> after[p] == files[p]
                &&& !(files.dom().contains(p) && !files[p].deleted && files[p].size == size
                    && files[p].mtime == mtime) ==> after[p].hash == f.hash->0 && after[p].path == p
            }
        }),
{
    let one = seq![f];
    assert(one.drop_last() =~= Seq::empty());
    assert(store::scan_all(files, one.drop_last()) == files);
    if let Some(p) = paths::sanitized(f.rel) {
        if files.dom().contains(p) {
            assert(files.dom().insert(p) =~= files.dom());
        }
        assert(f.meta is Some && f.hash is Some && (f.meta->0).0 <= store::MAX_FILE_BYTES
            ==> store::scan_all(files, one).dom() =~= files.dom().insert(p));
    }
}

/// A walk in two goes: the second goes on from the index that the first left.
pub proof fn scanning_in_parts(
    files: Map<Seq<char>, RecView>,
    a: Seq<FoundView>,
    b: Seq<FoundView>,
)
    ensures
        store::scan_all(files, a + b) == store::scan_all(store::scan_all(files, a), b),
        store::scan_takes(files, a + b) <==> store::scan_takes(files, a) || store::scan_takes(
            store::scan_all(files, a),
            b,
        ),
    decreases b.len(),
{
    if b.len() == 0 {
        assert(a + b =~= a);
    } else {
        assert((a + b).drop_last() =~= a + b.drop_last());
        scanning_in_parts(files, a, b.drop_last());
    }
}

/// One file counts as a change exactly if the index is another afterwards.
pub proof fn a_found_file_counts_as_a_change(files: Map<Seq<char>, RecView>, f: FoundView)
    ensures
        store::scan_takes(files, seq![f]) <==> store::scan_all(files, seq![f]) != files,
        !store::scan_takes(files, Seq::empty()),
{
    let one = seq![f];
    assert(one.drop_last() =~= Seq::empty());
    assert(store::scan_all(files, one.drop_last()) == files);
    assert(!store::scan_takes(files, one.drop_last()));
    if let Some(r) = store::recorded(files, f) {
        let after = store::scan_all(files, one);
        if files.dom().contains(r.path) {
            assert(after[r.path] != files[r.path]);
        } else {
            assert(after.dom().contains(r.path));
        }
    }
}

/// What the end of a scan makes of each record. A file that the walk did not come
/// upon becomes a tombstone of its path: empty, without a hash, later than the
/// record, not before now, and no later than one of the two asks for. All other
/// records stay: tombstones, and files that the walk came upon.
pub proof fn scanning_buries(
    files: Map<Seq<char>, RecView>,
    seen: Set<Seq<char>>,
    now: u64,
    k: Seq<char>,
)
    requires
        files.dom().contains(k) ==> files[k].mtime < u64::MAX,
    ensures
        ({
            let after = store::buried(files, seen, now);
            &&& after.dom() == files.dom()
            &&& files.dom().contains(k) && (files[k].deleted || seen.contains(k)) ==> after[k]
                == files[k]
            &&& files.dom().contains(k) && !files[k].deleted && !seen.contains(k) ==> {
                &&& after[k].deleted
                &&& after[k].path == files[k].path
                &&& after[k].size == 0
                &&& after[k].hash.len() == 32
                &&& forall|i: int| 0 <= i < 32 ==> after[k].hash[i] == 0
                &&& after[k].mtime > files[k].mtime
                &&& after[k].mtime >= now
                &&& after[k].mtime == now || after[k].mtime == files[k].mtime + 1
            }
        }),
{
    assert(store::buried(files, seen, now).dom() =~= files.dom());
}

/// The walk came upon the paths of its files, in normal form, and no others.
pub proof fn a_walk_sees_its_files(found: Seq<FoundView>, f: FoundView, p: Seq<char>)
    ensures
        !store::walked_paths(Seq::empty()).contains(p),
        store::walked_paths(found.push(f)).contains(p) <==> store::walked_paths(found).contains(p)
            || paths::sanitized(f.rel) == Some(p),
{
    let more = found.push(f);
    if store::walked(found, p) {
        let i = choose|i: int|
            0 <= i < found.len() && paths::sanitized((#[trigger] found[i]).rel) == Some(p);
        assert(paths::sanitized(more[i].rel) == Some(p));
    }
    if store::walked(more, p) {
        let i = choose|i: int|
            0 <= i < more.len() && paths::sanitized((#[trigger] more[i]).rel) == Some(p);
        if i < found.len() {
            assert(paths::sanitized(found[i].rel) == Some(p));
        }
    }
    assert(more[found.len() as int] == f);
}

/// What a walk does with the entries of a directory. It skips what is hidden, and
/// nothing else that is a file or a directory: it enters every directory and
/// visits every file whose name does not begin with a dot. So it visits every
/// file whose path is acceptable, under that path, and enters the directories
/// that lead there. What is neither is skipped.
pub proof fn a_walk_visits_what_is_not_hidden(name: Seq<char>, rel: Seq<char>)
    ensures
        name.len() > 0 && name[0] == '.' ==> store::walk_step_of(name, rel, EntryKind::File)
            == WalkStepView::Skip && store::walk_step_of(name, rel, EntryKind::Directory)
            == WalkStepView::Skip,
        name.len() == 0 || name[0] != '.' ==> store::walk_step_of(name, rel, EntryKind::Directory)
            == WalkStepView::Enter && (store::walk_step_of(name, rel, EntryKind::File)
            matches WalkStepView::Visit(path) && path.len() == rel.len() && forall|i: int|
            0 <= i < rel.len() ==> #[trigger] path[i] == if rel[i] == '\\' {
                '/'
            } else {
                rel[i]
            }),
        store::walk_step_of(name, rel, EntryKind::Other) == WalkStepView::Skip,
        paths::sanitized(rel) == Some(rel) && name == text::pieces(
            rel,
            Separator::Char('/'),
        ).last() ==> store::walk_step_of(name, rel, EntryKind::File) == WalkStepView::Visit(rel)
            && store::walk_step_of(name, rel, EntryKind::Directory) == WalkStepView::Enter,
{
    if paths::sanitized(rel) == Some(rel) {
        paths::sanitized_is_safe(rel);
        text::lemma_pieces_nonempty(rel, Separator::Char('/'));
        let parts = text::pieces(rel, Separator::Char('/'));
        assert(parts[parts.len() - 1].len() > 0 && parts[parts.len() - 1][0] != '.');
        assert(store::with_slashes(rel) =~= rel);
    }
}

/// What loading makes of one more record: it stands under its normal path, as it
/// is, and takes the place of one that stood there; under an unacceptable path it
/// is left out.
pub proof fn loading_a_record(recs: Seq<RecView>, r: RecView)
    ensures
        store::loaded(Seq::empty()) == Map::<Seq<char>, RecView>::empty(),
        paths::sanitized(r.path) is None ==> store::loaded(recs.push(r)) == store::loaded(recs),
        paths::sanitized(r.path) matches Some(p) ==> {
            let after = store::loaded(recs.push(r));
            &&& after.dom() == store::loaded(recs).dom().insert(p)
            &&& after[p].path == p && after[p].size == r.size && after[p].mtime == r.mtime
            &&& after[p].hash == r.hash && after[p].deleted == r.deleted
            &&& forall|k: Seq<char>|
                k != p && store::loaded(recs).dom().contains(k) ==> #[trigger] after[k]
                    == store::loaded(recs)[k]
        },
{
    assert(recs.push(r).drop_last() =~= recs);
    if let Some(p) = paths::sanitized(r.path) {
        assert(store::loaded(recs.push(r)).dom() =~= store::loaded(recs).dom().insert(p));
    }
}

/// The live list holds the records that are alive, and only those, in the order
/// of the index.
pub proof fn the_live_list_is_what_is_alive(
    a: Seq<(Seq<char>, RecView)>,
    b: Seq<(Seq<char>, RecView)>,
    e: (Seq<char>, RecView),
)
    ensures
        store::live_recs(a + b) == store::live_recs(a) + store::live_recs(b),
        e.1.deleted ==> store::live_recs(seq![e]).len() == 0,
        !e.1.deleted ==> store::live_recs(seq![e]) == seq![e.1],
    decreases b.len(),
{
    let one = seq![e];
    assert(one.drop_last() =~= Seq::empty());
    assert(store::live_recs(one.drop_last()) =~= Seq::empty());
    assert(!e.1.deleted ==> store::live_recs(one) =~= seq![e.1]);
    if b.len() == 0 {
        assert(a + b =~= a);
        assert(store::live_recs(a + b) =~= store::live_recs(a) + store::live_recs(b));
    } else {
        assert((a + b).drop_last() =~= a + b.drop_last());
        the_live_list_is_what_is_alive(a, b.drop_last(), e);
        assert(store::live_recs(a + b) =~= store::live_recs(a) + store::live_recs(b));
    }
}

/// The holders of a hash are the paths of the live records that name it, with
/// their times, in the order of the index.
pub proof fn the_holders_name_the_hash(
    a: Seq<(Seq<char>, RecView)>,
    b: Seq<(Seq<char>, RecView)>,
    e: (Seq<char>, RecView),
    hash: Seq<u8>,
)
    ensures
        store::holders(a + b, hash) == store::holders(a, hash) + store::holders(b, hash),
        e.1.deleted || e.1.hash != hash ==> store::holders(seq![e], hash).len() == 0,
        !e.1.deleted && e.1.hash == hash ==> store::holders(seq![e], hash) == seq![
            (e.1.path, e.1.mtime),
        ],
    decreases b.len(),
{
    let one = seq![e];
    assert(one.drop_last() =~= Seq::empty());
    assert(store::holders(one.drop_last(), hash) =~= Seq::empty());
    assert(!e.1.deleted && e.1.hash == hash ==> store::holders(one, hash) =~= seq![
        (e.1.path, e.1.mtime),
    ]);
    if b.len() == 0 {
        assert(a + b =~= a);
        assert(store::holders(a + b, hash) =~= store::holders(a, hash) + store::holders(b, hash));
    } else {
        assert((a + b).drop_last() =~= a + b.drop_last());
        the_holders_name_the_hash(a, b.drop_last(), e, hash);
        assert(store::holders(a + b, hash) =~= store::holders(a, hash) + store::holders(b, hash));
    }
}

/// A blob goes to the holders of its hash if it is what the hash names and within
/// the cap, and nowhere else.
pub proof fn only_the_right_blob_is_installed(
    s: Seq<(Seq<char>, RecView)>,
    hash: Seq<u8>,
    len: nat,
    got: Seq<u8>,
)
    ensures
        got != hash ==> store::blob_targets(s, hash, len, got).len() == 0,
        len > 32 * 1024 * 1024 ==> store::blob_targets(s, hash, len, got).len() == 0,
        len <= 32 * 1024 * 1024 ==> store::blob_targets(s, hash, len, hash) == store::holders(
            s,
            hash,
        ),
        store::blob_verdict(hash, None) == store::BlobStep::Missing,
        store::blob_verdict(hash, Some(hash)) == store::BlobStep::Found,
        got != hash ==> store::blob_verdict(hash, Some(got)) == store::BlobStep::Next,
{
}

/// The records of an index are listed entry by entry, in the order of the entries,
/// tombstones too.
pub proof fn records_follow_their_entries(
    a: Seq<(Seq<char>, RecView)>,
    b: Seq<(Seq<char>, RecView)>,
    e: (Seq<char>, RecView),
)
    ensures
        store::entry_recs(a + b) == store::entry_recs(a) + store::entry_recs(b),
        store::entry_recs(seq![e]) == seq![e.1],
{
    assert(store::entry_recs(a + b) =~= store::entry_recs(a) + store::entry_recs(b));
    assert(store::entry_recs(seq![e]) =~= seq![e.1]);
}

/// Paths are in the order of their bytes: the first byte in which two differ
/// decides, and a path comes before those that continue it.
pub proof fn paths_are_in_the_order_of_their_bytes(a: Seq<char>, b: Seq<char>, k: int)
    requires
        0 <= k <= encode_utf8(a).len(),
        k <= encode_utf8(b).len(),
        encode_utf8(a).take(k) == encode_utf8(b).take(k),
    ensures
        ({
            let (x, y) = (encode_utf8(a), encode_utf8(b));
            &&& k < x.len() && k < y.len() && x[k] < y[k] ==> pathmap::path_lt(a, b)
            &&& k < x.len() && k < y.len() && x[k] > y[k] ==> !pathmap::path_lt(a, b)
            &&& k == x.len() && k < y.len() ==> pathmap::path_lt(a, b)
            &&& k == y.len() ==> !pathmap::path_lt(a, b)
        }),
{
    codec::first_difference_decides(encode_utf8(a), encode_utf8(b), k);
}

} // verus!
