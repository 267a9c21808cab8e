//! Local replica: the index of the watched folder and its content hashes.

use sha2::{Digest, Sha256};
use vstd::prelude::*;
use vstd::utf8::*;

use crate::codec;
use crate::codec::Standing;
use crate::paths;
use crate::pathmap;
use crate::pathmap::PathMap;
use crate::text;

verus! {

/// v1 cap so a replica cannot fill the disk from a peer (web uploads are 4 MiB).
pub const MAX_FILE_BYTES: u64 = 33_554_432;

/// One entry of the index: a file, or the tombstone of a deleted one.
#[derive(Debug, PartialEq, Eq)]
pub struct FileRec {
    pub path: String,
    pub size: u64,
    pub mtime: u64,
    pub hash: [u8; 32],
    pub deleted: bool,
}

/// What a record says.
#[verifier::ext_equal]
pub struct RecView {
    pub path: Seq<char>,
    pub size: u64,
    pub mtime: u64,
    pub hash: Seq<u8>,
    pub deleted: bool,
}

impl View for FileRec {
    type V = RecView;

    open spec fn view(&self) -> RecView {
        RecView {
            path: self.path@,
            size: self.size,
            mtime: self.mtime,
            hash: self.hash@,
            deleted: self.deleted,
        }
    }
}

impl Clone for FileRec {
    fn clone(&self) -> (r: Self)
        ensures
            r@ == self@,
    {
        FileRec {
            path: self.path.clone(),
            size: self.size,
            mtime: self.mtime,
            hash: self.hash,
            deleted: self.deleted,
        }
    }
}

/// The records of a list.
pub open spec fn rec_views(recs: Seq<FileRec>) -> Seq<RecView> {
    Seq::new(recs.len(), |i: int| recs[i]@)
}

/// Whether `a` should replace `b`: the later write wins; at the same time a
/// delete wins over a file; then the greater hash wins.
pub open spec fn beats(a: RecView, b: RecView) -> bool {
    if a.mtime != b.mtime {
        a.mtime > b.mtime
    } else if a.deleted != b.deleted {
        a.deleted
    } else {
        codec::lex_lt(b.hash, a.hash)
    }
}

/// True if `a` should replace `b` (last-write-wins, then hash).
pub fn rec_beats(a: &FileRec, b: &FileRec) -> (r: bool)
    ensures
        r == beats(a@, b@),
{
    if a.mtime != b.mtime {
        return a.mtime > b.mtime;
    }
    if a.deleted != b.deleted {
        return a.deleted;
    }
    codec::stand(b.hash.as_slice(), a.hash.as_slice()) == Standing::Before
}

/// `beats` is a strict order, and leaves a pair undecided only if both were
/// written at the same time, with the same content, or are both deletes.
pub proof fn beats_is_an_order(a: RecView, b: RecView, c: RecView)
    ensures
        !beats(a, a),
        beats(a, b) ==> !beats(b, a),
        beats(a, b) && beats(b, c) ==> beats(a, c),
        !beats(a, b) && !beats(b, a) <==> a.mtime == b.mtime && a.deleted == b.deleted && a.hash
            == b.hash,
{
    codec::lemma_lex_irreflexive(a.hash);
    codec::lemma_lex_irreflexive(b.hash);
    codec::lemma_lex_total(a.hash, b.hash);
    if codec::lex_lt(b.hash, a.hash) {
        codec::lemma_lex_asymmetric(b.hash, a.hash);
    }
    if codec::lex_lt(a.hash, b.hash) {
        codec::lemma_lex_asymmetric(a.hash, b.hash);
    }
    if codec::lex_lt(c.hash, b.hash) && codec::lex_lt(b.hash, a.hash) {
        codec::lemma_lex_transitive(c.hash, b.hash, a.hash);
    }
}

/// A delete beats a file of the same time.
pub proof fn delete_beats_file(a: RecView, b: RecView)
    requires
        a.mtime == b.mtime,
        a.deleted,
        !b.deleted,
    ensures
        beats(a, b),
        !beats(b, a),
{
}

/// A remote record with its path in normal form, if the path is acceptable.
pub open spec fn normalized(r: RecView) -> Option<RecView> {
    match paths::sanitized(r.path) {
        Some(p) => Some(RecView { path: p, ..r }),
        None => None,
    }
}

/// The record that merging `r` puts into the index, if it does.
pub open spec fn offered(files: Map<Seq<char>, RecView>, r: RecView) -> Option<RecView> {
    match normalized(r) {
        Some(n) => if !files.dom().contains(n.path) || beats(n, files[n.path]) {
            Some(n)
        } else {
            None
        },
        None => None,
    }
}

/// The index after merging one record.
pub open spec fn merge_step(files: Map<Seq<char>, RecView>, r: RecView) -> Map<
    Seq<char>,
    RecView,
> {
    match offered(files, r) {
        Some(n) => files.insert(n.path, n),
        None => files,
    }
}

/// The index after merging records one after the other.
pub open spec fn merge_all(files: Map<Seq<char>, RecView>, recs: Seq<RecView>) -> Map<
    Seq<char>,
    RecView,
>
    decreases recs.len(),
{
    if recs.len() == 0 {
        files
    } else {
        merge_step(merge_all(files, recs.drop_last()), recs.last())
    }
}

/// Whether `r` is one of the records that compete for the path `k` when `recs`
/// are merged into `files`.
pub open spec fn competes(
    files: Map<Seq<char>, RecView>,
    recs: Seq<RecView>,
    k: Seq<char>,
    r: RecView,
) -> bool {
    ||| files.dom().contains(k) && files[k] == r
    ||| r.path == k && exists|i: int|
        0 <= i < recs.len() && normalized(#[trigger] recs[i]) == Some(r)
}

/// Whether `r` competes for the path `k` and no competing record beats it.
pub open spec fn wins(
    files: Map<Seq<char>, RecView>,
    recs: Seq<RecView>,
    k: Seq<char>,
    r: RecView,
) -> bool {
    &&& competes(files, recs, k, r)
    &&& forall|c: RecView| #[trigger] competes(files, recs, k, c) ==> !beats(c, r)
}

/// Whether no path has two different winners: records alike in time, deletion
/// and hash, that no other beats, but not the same.
pub open spec fn decisive(files: Map<Seq<char>, RecView>, recs: Seq<RecView>) -> bool {
    forall|k: Seq<char>, a: RecView, b: RecView|
        #[trigger] wins(files, recs, k, a) && #[trigger] wins(files, recs, k, b) ==> a == b
}

/// Whether two indexes name the same files in the same state: the same paths,
/// and for each the same time, deletion and content.
pub open spec fn agree(m: Map<Seq<char>, RecView>, n: Map<Seq<char>, RecView>) -> bool {
    &&& m.dom() == n.dom()
    &&& forall|k: Seq<char>| #[trigger]
        m.dom().contains(k) ==> {
            &&& m[k].mtime == n[k].mtime
            &&& m[k].deleted == n[k].deleted
            &&& m[k].hash == n[k].hash
            &&& !beats(m[k], n[k])
            &&& !beats(n[k], m[k])
        }
}

/// After a merge each path that anyone competed for holds a winner: one of the
/// competing records, beaten by none of them.
pub proof fn merge_keeps_the_winner(
    files: Map<Seq<char>, RecView>,
    recs: Seq<RecView>,
    k: Seq<char>,
)
    ensures
        merge_all(files, recs).dom().contains(k) <==> exists|r: RecView|
            competes(files, recs, k, r),
        merge_all(files, recs).dom().contains(k) ==> competes(
            files,
            recs,
            k,
            merge_all(files, recs)[k],
        ),
        forall|r: RecView| #[trigger]
            competes(files, recs, k, r) ==> !beats(r, merge_all(files, recs)[k]),
    decreases recs.len(),
{
    let m = merge_all(files, recs);
    if recs.len() == 0 {
        assert forall|r: RecView| #[trigger] competes(files, recs, k, r) implies !beats(
            r,
            m[k],
        ) by {
            beats_is_an_order(r, r, r);
        }
        if m.dom().contains(k) {
            assert(competes(files, recs, k, m[k]));
        }
    } else {
        let init = recs.drop_last();
        let last = recs.last();
        let before = merge_all(files, init);
        merge_keeps_the_winner(files, init, k);
        assert forall|r: RecView| #[trigger] competes(files, recs, k, r) <==> competes(
            files,
            init,
            k,
            r,
        ) || (r.path == k && normalized(last) == Some(r)) by {
            if competes(files, init, k, r) && !(files.dom().contains(k) && files[k] == r) {
                let i = choose|i: int|
                    0 <= i < init.len() && normalized(#[trigger] init[i]) == Some(r);
                assert(normalized(recs[i]) == Some(r));
            }
            if competes(files, recs, k, r) && !(files.dom().contains(k) && files[k] == r) {
                let i = choose|i: int|
                    0 <= i < recs.len() && normalized(#[trigger] recs[i]) == Some(r);
                if i < init.len() {
                    assert(normalized(init[i]) == Some(r));
                }
            }
            if normalized(last) == Some(r) {
                assert(normalized(recs[recs.len() - 1]) == Some(r));
            }
        }
        if before.dom().contains(k) {
            assert(competes(files, recs, k, before[k]));
        }
        match normalized(last) {
            Some(n) => {
                beats_is_an_order(n, n, n);
                if n.path == k {
                    assert(competes(files, recs, k, n));
                    assert forall|r: RecView| #[trigger]
                        competes(files, recs, k, r) implies !beats(r, m[k]) by {
                        if before.dom().contains(k) {
                            beats_is_an_order(r, n, before[k]);
                        }
                        if r != n {
                            assert(competes(files, init, k, r));
                            assert(before.dom().contains(k));
                        }
                    }
                }
            },
            None => {},
        }
    }
}

/// Merging never puts an older record in the place of a newer one, and never
/// forgets a path.
pub proof fn merge_never_regresses(
    files: Map<Seq<char>, RecView>,
    recs: Seq<RecView>,
    k: Seq<char>,
)
    requires
        files.dom().contains(k),
    ensures
        merge_all(files, recs).dom().contains(k),
        merge_all(files, recs)[k] == files[k] || beats(merge_all(files, recs)[k], files[k]),
    decreases recs.len(),
{
    if recs.len() > 0 {
        let before = merge_all(files, recs.drop_last());
        merge_never_regresses(files, recs.drop_last(), k);
        beats_is_an_order(merge_all(files, recs)[k], before[k], files[k]);
    }
}

/// Records that are not offered change nothing.
proof fn lemma_merge_nothing(files: Map<Seq<char>, RecView>, recs: Seq<RecView>)
    requires
        forall|i: int| 0 <= i < recs.len() ==> offered(files, #[trigger] recs[i]) is None,
    ensures
        merge_all(files, recs) == files,
    decreases recs.len(),
{
    if recs.len() > 0 {
        let init = recs.drop_last();
        assert forall|i: int| 0 <= i < init.len() implies offered(files, #[trigger] init[i]) is None by {
            assert(init[i] == recs[i]);
        }
        lemma_merge_nothing(files, init);
        assert(offered(files, recs[recs.len() - 1]) is None);
    }
}

/// Hearing the same index again changes nothing: retransmitted packets do no
/// harm.
pub proof fn merge_is_idempotent(files: Map<Seq<char>, RecView>, recs: Seq<RecView>)
    ensures
        merge_all(merge_all(files, recs), recs) == merge_all(files, recs),
        forall|i: int|
            0 <= i < recs.len() ==> offered(merge_all(files, recs), #[trigger] recs[i]) is None,
{
    let m = merge_all(files, recs);
    assert forall|i: int| 0 <= i < recs.len() implies offered(m, #[trigger] recs[i]) is None by {
        if let Some(n) = normalized(recs[i]) {
            merge_keeps_the_winner(files, recs, n.path);
            assert(competes(files, recs, n.path, n));
        }
    }
    lemma_merge_nothing(m, recs);
}

/// An index that arrives in parts merges to the same as in one piece.
pub proof fn merge_in_parts(
    files: Map<Seq<char>, RecView>,
    a: Seq<RecView>,
    b: Seq<RecView>,
)
    ensures
        merge_all(files, a + b) == merge_all(merge_all(files, a), b),
    decreases b.len(),
{
    if b.len() == 0 {
        assert(a + b =~= a);
    } else {
        assert((a + b).drop_last() =~= a + b.drop_last());
        merge_in_parts(files, a, b.drop_last());
    }
}

/// Two merges with the same competitors for every path agree.
proof fn lemma_same_competitors(
    f: Map<Seq<char>, RecView>,
    a: Seq<RecView>,
    g: Map<Seq<char>, RecView>,
    b: Seq<RecView>,
)
    requires
        forall|k: Seq<char>, r: RecView| #[trigger]
            competes(f, a, k, r) <==> competes(g, b, k, r),
    ensures
        agree(merge_all(f, a), merge_all(g, b)),
        decisive(f, a) ==> merge_all(f, a) == merge_all(g, b),
{
    let m = merge_all(f, a);
    let n = merge_all(g, b);
    assert forall|k: Seq<char>| #[trigger] m.dom().contains(k) == n.dom().contains(k) by {
        merge_keeps_the_winner(f, a, k);
        merge_keeps_the_winner(g, b, k);
        if m.dom().contains(k) {
            assert(competes(g, b, k, m[k]));
        }
        if n.dom().contains(k) {
            assert(competes(f, a, k, n[k]));
        }
    }
    assert(m.dom() =~= n.dom());
    assert forall|k: Seq<char>| #[trigger] m.dom().contains(k) implies wins(f, a, k, m[k]) && wins(
        f,
        a,
        k,
        n[k],
    ) by {
        assert(n.dom().contains(k));
        merge_keeps_the_winner(f, a, k);
        merge_keeps_the_winner(g, b, k);
        assert(competes(f, a, k, m[k]) && competes(f, a, k, n[k]));
        assert forall|c: RecView| #[trigger] competes(f, a, k, c) implies !beats(c, n[k]) by {
            assert(competes(g, b, k, c));
        }
    }
    assert forall|k: Seq<char>| #[trigger] m.dom().contains(k) implies {
        &&& m[k].mtime == n[k].mtime
        &&& m[k].deleted == n[k].deleted
        &&& m[k].hash == n[k].hash
        &&& !beats(m[k], n[k])
        &&& !beats(n[k], m[k])
    } by {
        assert(wins(f, a, k, m[k]) && wins(f, a, k, n[k]));
        beats_is_an_order(m[k], n[k], n[k]);
    }
    if decisive(f, a) {
        assert forall|k: Seq<char>| #[trigger] m.dom().contains(k) implies m[k] == n[k] by {
            assert(wins(f, a, k, m[k]) && wins(f, a, k, n[k]));
        }
        assert(m =~= n);
    }
}

/// The order in which records arrive, and how often, makes no difference to what
/// the index says of any path: present or not, deleted or not, of what time and
/// content. It makes none at all where no path has two different winners.
pub proof fn merge_order_is_free(
    files: Map<Seq<char>, RecView>,
    a: Seq<RecView>,
    b: Seq<RecView>,
)
    requires
        forall|r: RecView| #[trigger] a.contains(r) <==> b.contains(r),
    ensures
        agree(merge_all(files, a), merge_all(files, b)),
        decisive(files, a) ==> merge_all(files, a) == merge_all(files, b),
{
    assert forall|k: Seq<char>, r: RecView| #[trigger]
        competes(files, a, k, r) <==> competes(files, b, k, r) by {
        if competes(files, a, k, r) && !(files.dom().contains(k) && files[k] == r) {
            let i = choose|i: int| 0 <= i < a.len() && normalized(#[trigger] a[i]) == Some(r);
            assert(a.contains(a[i]));
            let j = choose|j: int| 0 <= j < b.len() && b[j] == a[i];
            assert(normalized(b[j]) == Some(r));
        }
        if competes(files, b, k, r) && !(files.dom().contains(k) && files[k] == r) {
            let j = choose|j: int| 0 <= j < b.len() && normalized(#[trigger] b[j]) == Some(r);
            assert(b.contains(b[j]));
            assert(a.contains(b[j]));
            let i = choose|i: int| 0 <= i < a.len() && a[i] == b[j];
            assert(normalized(a[i]) == Some(r));
        }
    }
    lemma_same_competitors(files, a, files, b);
}

/// Whether every record stands under its own path, in normal form.
pub open spec fn settled(files: Map<Seq<char>, RecView>) -> bool {
    forall|k: Seq<char>| #[trigger]
        files.dom().contains(k) ==> files[k].path == k && paths::sanitized(k) == Some(k)
}

/// Whether `recs` lists the records of an index.
pub open spec fn lists(recs: Seq<RecView>, files: Map<Seq<char>, RecView>) -> bool {
    &&& forall|i: int|
        0 <= i < recs.len() ==> files.dom().contains((#[trigger] recs[i]).path)
            && files[recs[i].path] == recs[i]
    &&& forall|k: Seq<char>| #[trigger] files.dom().contains(k) ==> recs.contains(files[k])
}

/// Who competes when the records of `g` are merged into `f`.
proof fn lemma_exchange_competitors(
    f: Map<Seq<char>, RecView>,
    g: Map<Seq<char>, RecView>,
    of_g: Seq<RecView>,
    k: Seq<char>,
    r: RecView,
)
    requires
        settled(g),
        lists(of_g, g),
    ensures
        competes(f, of_g, k, r) <==> (f.dom().contains(k) && f[k] == r) || (g.dom().contains(k)
            && g[k] == r),
{
    if g.dom().contains(k) && g[k] == r {
        let i = choose|i: int| 0 <= i < of_g.len() && of_g[i] == g[k];
        assert(normalized(of_g[i]) == Some(r));
    }
    if competes(f, of_g, k, r) && !(f.dom().contains(k) && f[k] == r) {
        let i = choose|i: int| 0 <= i < of_g.len() && normalized(#[trigger] of_g[i]) == Some(r);
        assert(g.dom().contains(of_g[i].path));
        assert(of_g[i].path == k);
    }
}

/// Two replicas that send each other their whole index end up with indexes that
/// agree on every path, and with the same index where no path has two different
/// winners.
pub proof fn replicas_converge(
    f: Map<Seq<char>, RecView>,
    of_f: Seq<RecView>,
    g: Map<Seq<char>, RecView>,
    of_g: Seq<RecView>,
)
    requires
        settled(f),
        settled(g),
        lists(of_f, f),
        lists(of_g, g),
    ensures
        agree(merge_all(f, of_g), merge_all(g, of_f)),
        decisive(f, of_g) ==> merge_all(f, of_g) == merge_all(g, of_f),
{
    assert forall|k: Seq<char>, r: RecView| #[trigger]
        competes(f, of_g, k, r) <==> competes(g, of_f, k, r) by {
        lemma_exchange_competitors(f, g, of_g, k, r);
        lemma_exchange_competitors(g, f, of_f, k, r);
    }
    lemma_same_competitors(f, of_g, g, of_f);
}

/// The local replica: its id, the generation of its index, the index.
pub struct Store {
    pub replica_id: [u8; 16],
    pub gen: u64,
    pub files: PathMap<FileRec>,
}

impl Store {
    /// The index is in order.
    pub open spec fn wf(self) -> bool {
        self.files.wf()
    }

    /// Every record stands under its own path, and every path stays inside the
    /// synced tree.
    pub open spec fn safe(self) -> bool {
        forall|k: Seq<char>| #[trigger]
            self.files@.dom().contains(k) ==> self.files@[k].path == k && paths::safe_path(k)
    }
}

/// The generation that follows a scan or a merge.
pub open spec fn next_gen(gen: u64, changed: bool) -> u64 {
    if changed && gen < u64::MAX {
        (gen + 1) as u64
    } else {
        gen
    }
}

/// The hashes of a list.
pub open spec fn hash_views(v: Seq<[u8; 32]>) -> Seq<Seq<u8>> {
    Seq::new(v.len(), |i: int| v[i]@)
}

/// A hash, if there is one.
pub open spec fn hash_view(h: Option<[u8; 32]>) -> Option<Seq<u8>> {
    match h {
        Some(a) => Some(a@),
        None => None,
    }
}

/// The list with `h` in it once.
pub open spec fn with_hash(list: Seq<Seq<u8>>, h: Seq<u8>) -> Seq<Seq<u8>> {
    if list.contains(h) {
        list
    } else {
        list.push(h)
    }
}

/// Whether `h` is in the list.
pub fn has_hash(list: &[[u8; 32]], h: &[u8; 32]) -> (b: bool)
    ensures
        b == hash_views(list@).contains(h@),
{
    let mut i: usize = 0;
    while i < list.len()
        invariant
            i <= list@.len(),
            forall|j: int| 0 <= j < i ==> hash_views(list@)[j] != h@,
        decreases list@.len() - i,
    {
        if codec::bytes_eq(list[i].as_slice(), h.as_slice()) {
            assert(hash_views(list@)[i as int] == h@);
            return true;
        }
        i += 1;
    }
    false
}

/// Adds `h` to the list unless it is there.
pub fn add_hash(list: &mut Vec<[u8; 32]>, h: &[u8; 32])
    ensures
        hash_views(final(list)@) == with_hash(hash_views(old(list)@), h@),
{
    if !has_hash(list.as_slice(), h) {
        list.push(*h);
        assert(hash_views(list@) =~= hash_views(old(list)@).push(h@));
    }
}

/// What a merged record asks of the disk.
#[derive(Debug, PartialEq, Eq)]
pub enum Effect {
    /// Create an empty file with this time.
    CreateEmpty { path: String, mtime: u64 },
    /// Remove the file, if there is one.
    Remove { path: String },
}

/// What an effect says.
#[verifier::ext_equal]
pub enum EffectView {
    CreateEmpty { path: Seq<char>, mtime: u64 },
    Remove { path: Seq<char> },
}

impl View for Effect {
    type V = EffectView;

    open spec fn view(&self) -> EffectView {
        match self {
            Effect::CreateEmpty { path, mtime } => EffectView::CreateEmpty {
                path: path@,
                mtime: *mtime,
            },
            Effect::Remove { path } => EffectView::Remove { path: path@ },
        }
    }
}

/// The effects of a list.
pub open spec fn effect_views(v: Seq<Effect>) -> Seq<EffectView> {
    Seq::new(v.len(), |i: int| v[i]@)
}

/// What taking the record `n` asks of the disk.
pub open spec fn effect_of(n: RecView) -> Option<EffectView> {
    if n.deleted {
        Some(EffectView::Remove { path: n.path })
    } else if n.size == 0 {
        Some(EffectView::CreateEmpty { path: n.path, mtime: n.mtime })
    } else {
        None
    }
}

/// Whether the content of the record `n` has to be fetched, given the hash of
/// the file that is on disk under its path, if there is one.
pub open spec fn must_fetch(n: RecView, on_disk: Option<Seq<u8>>) -> bool {
    !n.deleted && n.size > 0 && on_disk != Some(n.hash)
}

/// The hashes to fetch after one more record.
pub open spec fn want_step(
    want: Seq<Seq<u8>>,
    files: Map<Seq<char>, RecView>,
    r: RecView,
    on_disk: Option<Seq<u8>>,
) -> Seq<Seq<u8>> {
    match offered(files, r) {
        Some(n) => if must_fetch(n, on_disk) {
            with_hash(want, n.hash)
        } else {
            want
        },
        None => want,
    }
}

/// The effects after one more record.
pub open spec fn effect_step(
    effects: Seq<EffectView>,
    files: Map<Seq<char>, RecView>,
    r: RecView,
) -> Seq<EffectView> {
    match offered(files, r) {
        Some(n) => match effect_of(n) {
            Some(e) => effects.push(e),
            None => effects,
        },
        None => effects,
    }
}

/// The hashes to fetch after merging records one after the other, where
/// `on_disk[i]` is what the disk held under the path of `recs[i]` at its turn.
pub open spec fn merge_want(
    files: Map<Seq<char>, RecView>,
    recs: Seq<RecView>,
    on_disk: Seq<Option<Seq<u8>>>,
) -> Seq<Seq<u8>>
    decreases recs.len(),
{
    if recs.len() == 0 {
        Seq::empty()
    } else {
        let init = recs.drop_last();
        want_step(
            merge_want(files, init, on_disk),
            merge_all(files, init),
            recs.last(),
            on_disk[recs.len() - 1],
        )
    }
}

/// The effects of merging records one after the other.
pub open spec fn merge_effects(
    files: Map<Seq<char>, RecView>,
    recs: Seq<RecView>,
) -> Seq<EffectView>
    decreases recs.len(),
{
    if recs.len() == 0 {
        Seq::empty()
    } else {
        let init = recs.drop_last();
        effect_step(merge_effects(files, init), merge_all(files, init), recs.last())
    }
}

/// Whether merging records takes any of them.
pub open spec fn merge_takes(files: Map<Seq<char>, RecView>, recs: Seq<RecView>) -> bool
    decreases recs.len(),
{
    recs.len() > 0 && (merge_takes(files, recs.drop_last()) || offered(
        merge_all(files, recs.drop_last()),
        recs.last(),
    ) is Some)
}

/// What merging one record came to.
#[derive(Debug, PartialEq, Eq)]
pub enum Merged {
    /// The index already held as good a record, or the path is not acceptable.
    Kept,
    /// The record was taken; the disk may have something to do.
    Taken(Option<Effect>),
}

impl Store {
    /// The record that merging `remote` would put into the index, if it would.
    pub fn merge_target(&self, remote: &FileRec) -> (r: Option<FileRec>)
        requires
            self.wf(),
        ensures
            match r {
                Some(n) => offered(self.files@, remote@) == Some(n@),
                None => offered(self.files@, remote@) is None,
            },
    {
        let path = match paths::sanitize_rel(remote.path.as_str()) {
            Some(p) => p,
            None => {
                return None;
            },
        };
        let n = FileRec {
            path,
            size: remote.size,
            mtime: remote.mtime,
            hash: remote.hash,
            deleted: remote.deleted,
        };
        match self.files.get(n.path.as_str()) {
            None => Some(n),
            Some(local) => if rec_beats(&n, local) {
                Some(n)
            } else {
                None
            },
        }
    }

    /// The path of the file whose hash decides whether the content of `remote` has
    /// to be fetched: none if the record is not taken, is a tombstone, or is
    /// empty.
    pub fn merge_probe(&self, remote: &FileRec) -> (r: Option<String>)
        requires
            self.wf(),
        ensures
            match (r, offered(self.files@, remote@)) {
                (Some(path), Some(n)) => path@ == n.path && !n.deleted && n.size > 0,
                (None, Some(n)) => n.deleted || n.size == 0,
                (None, None) => true,
                (Some(_), None) => false,
            },
    {
        match self.merge_target(remote) {
            Some(n) => if n.deleted || n.size == 0 {
                None
            } else {
                Some(n.path)
            },
            None => None,
        }
    }

    /// Merges one remote record (LWW by mtime, then hash), given the hash of the
    /// file on disk under its path, and adds the hash to fetch to `want`.
    pub fn merge_one(
        &mut self,
        remote: &FileRec,
        on_disk: Option<[u8; 32]>,
        want: &mut Vec<[u8; 32]>,
    ) -> (r: Merged)
        requires
            old(self).wf(),
        ensures
            final(self).wf(),
            old(self).safe() ==> final(self).safe(),
            final(self).replica_id == old(self).replica_id,
            final(self).gen == old(self).gen,
            final(self).files@ == merge_step(old(self).files@, remote@),
            hash_views(final(want)@) == want_step(
                hash_views(old(want)@),
                old(self).files@,
                remote@,
                hash_view(on_disk),
            ),
            match (r, offered(old(self).files@, remote@)) {
                (Merged::Kept, None) => true,
                (Merged::Taken(Some(e)), Some(n)) => effect_of(n) == Some(e@),
                (Merged::Taken(None), Some(n)) => effect_of(n) is None,
                _ => false,
            },
    {
        let n = match self.merge_target(remote) {
            Some(n) => n,
            None => {
                return Merged::Kept;
            },
        };
        let mut effect: Option<Effect> = None;
        if n.deleted {
            effect = Some(Effect::Remove { path: n.path.clone() });
        } else if n.size == 0 {
            effect = Some(Effect::CreateEmpty { path: n.path.clone(), mtime: n.mtime });
        } else {
            let have = match &on_disk {
                Some(h) => codec::bytes_eq(h.as_slice(), n.hash.as_slice()),
                None => false,
            };
            if !have {
                add_hash(want, &n.hash);
            }
        }
        proof {
            paths::sanitized_is_safe(remote.path@);
        }
        let key = n.path.clone();
        self.files.insert(key, n);
        Merged::Taken(effect)
    }

    /// Counts a scan or merge that changed the index.
    pub fn bump(&mut self, changed: bool)
        ensures
            final(self).gen == next_gen(old(self).gen, changed),
            final(self).files == old(self).files,
            final(self).replica_id == old(self).replica_id,
    {
        if changed {
            self.gen = self.gen.saturating_add(1);
        }
    }

    /// Merge remote records (LWW by mtime, then hash). Returns hashes to fetch
    /// and what the disk has to do, in order.
    ///
    /// `on_disk[i]` is the hash of the file under the path of `recs[i]` when its
    /// turn comes.
    pub fn merge_remote(&mut self, recs: &[FileRec], on_disk: &[Option<[u8; 32]>]) -> (r: (
        Vec<[u8; 32]>,
        Vec<Effect>,
    ))
        requires
            old(self).wf(),
            recs@.len() == on_disk@.len(),
        ensures
            final(self).wf(),
            old(self).safe() ==> final(self).safe(),
            final(self).replica_id == old(self).replica_id,
            final(self).files@ == merge_all(old(self).files@, rec_views(recs@)),
            final(self).gen == next_gen(
                old(self).gen,
                merge_takes(old(self).files@, rec_views(recs@)),
            ),
            hash_views(r.0@) == merge_want(
                old(self).files@,
                rec_views(recs@),
                on_disk@.map_values(|h: Option<[u8; 32]>| hash_view(h)),
            ),
            effect_views(r.1@) == merge_effects(old(self).files@, rec_views(recs@)),
    {
        let ghost start = self.files@;
        let ghost all = rec_views(recs@);
        let ghost disk = on_disk@.map_values(|h: Option<[u8; 32]>| hash_view(h));
        let mut want: Vec<[u8; 32]> = Vec::new();
        let mut effects: Vec<Effect> = Vec::new();
        let mut changed = false;
        let mut i: usize = 0;
        proof {
            assert(hash_views(want@) =~= Seq::empty());
            assert(effect_views(effects@) =~= Seq::empty());
        }
        while i < recs.len()
            invariant
                i <= recs@.len() == on_disk@.len(),
                self.wf(),
                old(self).safe() ==> self.safe(),
                self.replica_id == old(self).replica_id,
                self.gen == old(self).gen,
                start == old(self).files@,
                all == rec_views(recs@),
                disk == on_disk@.map_values(|h: Option<[u8; 32]>| hash_view(h)),
                self.files@ == merge_all(start, all.take(i as int)),
                changed == merge_takes(start, all.take(i as int)),
                hash_views(want@) == merge_want(start, all.take(i as int), disk),
                effect_views(effects@) == merge_effects(start, all.take(i as int)),
            decreases recs@.len() - i,
        {
            proof {
                assert(all.take(i + 1).drop_last() =~= all.take(i as int));
                assert(all.take(i + 1).last() == recs@[i as int]@);
            }
            match self.merge_one(&recs[i], on_disk[i], &mut want) {
                Merged::Kept => {},
                Merged::Taken(effect) => {
                    changed = true;
                    if let Some(e) = effect {
                        let ghost before = effect_views(effects@);
                        let ghost last = e@;
                        effects.push(e);
                        assert(effect_views(effects@) =~= before.push(last));
                    }
                },
            }
            i += 1;
        }
        assert(all.take(all.len() as int) =~= all);
        self.bump(changed);
        (want, effects)
    }
}

/// A file that a walk of the folder came upon.
#[derive(Debug, PartialEq, Eq)]
pub struct Found {
    /// Its path below the folder.
    pub rel: String,
    /// Its size and time, if it is a regular file that can be looked at.
    pub meta: Option<(u64, u64)>,
    /// The hash of its content, if it could be read.
    pub hash: Option<[u8; 32]>,
}

/// What a walk says of a file.
#[verifier::ext_equal]
pub struct FoundView {
    pub rel: Seq<char>,
    pub meta: Option<(u64, u64)>,
    pub hash: Option<Seq<u8>>,
}

impl View for Found {
    type V = FoundView;

    open spec fn view(&self) -> FoundView {
        FoundView { rel: self.rel@, meta: self.meta, hash: hash_view(self.hash) }
    }
}

/// The findings of a list.
pub open spec fn found_views(v: Seq<Found>) -> Seq<FoundView> {
    Seq::new(v.len(), |i: int| v[i]@)
}

/// Whether a file of this size and time belongs into the index and is not
/// there: within the cap, and not the live record's size and time.
pub open spec fn is_news(
    files: Map<Seq<char>, RecView>,
    path: Seq<char>,
    size: u64,
    mtime: u64,
) -> bool {
    &&& size <= MAX_FILE_BYTES
    &&& !(files.dom().contains(path) && !files[path].deleted && files[path].size == size
        && files[path].mtime == mtime)
}

/// The record that a scan makes of a found file, if it makes one.
pub open spec fn recorded(files: Map<Seq<char>, RecView>, f: FoundView) -> Option<RecView> {
    match (paths::sanitized(f.rel), f.meta, f.hash) {
        (Some(path), Some((size, mtime)), Some(hash)) => if is_news(files, path, size, mtime) {
            Some(RecView { path, size, mtime, hash, deleted: false })
        } else {
            None
        },
        _ => None,
    }
}

/// The index after one found file.
pub open spec fn scan_step(files: Map<Seq<char>, RecView>, f: FoundView) -> Map<
    Seq<char>,
    RecView,
> {
    match recorded(files, f) {
        Some(r) => files.insert(r.path, r),
        None => files,
    }
}

/// The index after the files of a walk, one after the other.
pub open spec fn scan_all(files: Map<Seq<char>, RecView>, found: Seq<FoundView>) -> Map<
    Seq<char>,
    RecView,
>
    decreases found.len(),
{
    if found.len() == 0 {
        files
    } else {
        scan_step(scan_all(files, found.drop_last()), found.last())
    }
}

/// Whether a walk brings anything new.
pub open spec fn scan_takes(files: Map<Seq<char>, RecView>, found: Seq<FoundView>) -> bool
    decreases found.len(),
{
    found.len() > 0 && (scan_takes(files, found.drop_last()) || recorded(
        scan_all(files, found.drop_last()),
        found.last(),
    ) is Some)
}

/// Whether a walk came upon the path.
pub open spec fn walked(found: Seq<FoundView>, path: Seq<char>) -> bool {
    exists|i: int| 0 <= i < found.len() && paths::sanitized((#[trigger] found[i]).rel) == Some(path)
}

/// The paths that a walk came upon.
pub open spec fn walked_paths(found: Seq<FoundView>) -> Set<Seq<char>> {
    Set::new(|path: Seq<char>| walked(found, path))
}

/// Whether the index has a live record of a file that the walk did not meet.
pub open spec fn vanished(
    files: Map<Seq<char>, RecView>,
    seen: Set<Seq<char>>,
    path: Seq<char>,
) -> bool {
    files.dom().contains(path) && !files[path].deleted && !seen.contains(path)
}

/// The tombstone of a record: later than it, and not before now.
pub open spec fn tombstone(r: RecView, now: u64) -> RecView {
    RecView {
        path: r.path,
        size: 0,
        mtime: if now > r.mtime + 1 {
            now
        } else {
            (r.mtime + 1) as u64
        },
        hash: Seq::new(32, |i: int| 0u8),
        deleted: true,
    }
}

/// The index with a tombstone for each vanished file.
pub open spec fn buried(
    files: Map<Seq<char>, RecView>,
    seen: Set<Seq<char>>,
    now: u64,
) -> Map<Seq<char>, RecView> {
    Map::new(
        |path: Seq<char>| files.dom().contains(path),
        |path: Seq<char>|
            if vanished(files, seen, path) {
                tombstone(files[path], now)
            } else {
                files[path]
            },
    )
}

/// Whether every vanished file can get a later time.
pub open spec fn buriable(files: Map<Seq<char>, RecView>, seen: Set<Seq<char>>) -> bool {
    forall|path: Seq<char>| #[trigger]
        vanished(files, seen, path) ==> files[path].mtime < u64::MAX
}

/// A walk only touches the records of paths that it came upon.
proof fn lemma_scan_unseen(files: Map<Seq<char>, RecView>, found: Seq<FoundView>, k: Seq<char>)
    requires
        !walked(found, k),
    ensures
        scan_all(files, found).dom().contains(k) == files.dom().contains(k),
        scan_all(files, found)[k] == files[k],
    decreases found.len(),
{
    if found.len() > 0 {
        let init = found.drop_last();
        assert(!walked(init, k)) by {
            if walked(init, k) {
                let i = choose|i: int|
                    0 <= i < init.len() && paths::sanitized((#[trigger] init[i]).rel) == Some(k);
                assert(paths::sanitized(found[i].rel) == Some(k));
            }
        }
        lemma_scan_unseen(files, init, k);
        assert(paths::sanitized(found[found.len() - 1].rel) != Some(k));
    }
}

/// A tombstone beats the record that it replaces, so the delete spreads.
pub proof fn tombstone_beats(r: RecView, now: u64)
    requires
        r.mtime < u64::MAX,
    ensures
        beats(tombstone(r, now), r),
        tombstone(r, now).mtime >= now,
{
}

/// A peer that holds the record of a deleted file takes over its tombstone, and
/// removes the file.
pub proof fn deletes_spread(files: Map<Seq<char>, RecView>, r: RecView, now: u64)
    requires
        files.dom().contains(r.path),
        files[r.path] == r,
        paths::sanitized(r.path) == Some(r.path),
        r.mtime < u64::MAX,
    ensures
        merge_step(files, tombstone(r, now)) == files.insert(r.path, tombstone(r, now)),
        effect_of(tombstone(r, now)) == Some(EffectView::Remove { path: r.path }),
{
    tombstone_beats(r, now);
}

/// After a scan every live record is of a file that the walk came upon.
pub proof fn scan_buries_the_rest(
    files: Map<Seq<char>, RecView>,
    found: Seq<FoundView>,
    now: u64,
    k: Seq<char>,
)
    ensures
        ({
            let after = buried(scan_all(files, found), walked_paths(found), now);
            after.dom().contains(k) && !after[k].deleted ==> walked(found, k)
        }),
{
}

/// Whether a scan can take in a found file: its path is acceptable, it could be
/// read, and it is within the cap.
pub open spec fn takeable(f: FoundView) -> bool {
    paths::sanitized(f.rel) is Some && f.meta is Some && f.hash is Some && (f.meta->0).0
        <= MAX_FILE_BYTES
}

/// Whether the files of a walk that a scan can take in under one path, if there
/// are several, are of one size and time.
pub open spec fn consistent(found: Seq<FoundView>) -> bool {
    forall|i: int, j: int|
        0 <= i < j < found.len() && takeable(#[trigger] found[i]) && takeable(#[trigger] found[j])
            && paths::sanitized(found[i].rel) == paths::sanitized(found[j].rel) ==> found[i].meta
            == found[j].meta
}

/// What a walk leaves in the index for a file that a scan can take in.
proof fn lemma_scan_records(files: Map<Seq<char>, RecView>, found: Seq<FoundView>, i: int)
    requires
        consistent(found),
        0 <= i < found.len(),
        takeable(found[i]),
    ensures
        !is_news(
            scan_all(files, found),
            paths::sanitized(found[i].rel)->0,
            (found[i].meta->0).0,
            (found[i].meta->0).1,
        ),
    decreases found.len(),
{
    let init = found.drop_last();
    if i < init.len() {
        assert forall|a: int, b: int|
            0 <= a < b < init.len() && takeable(#[trigger] init[a]) && takeable(#[trigger] init[b])
                && paths::sanitized(init[a].rel) == paths::sanitized(init[b].rel) implies init[a].meta
            == init[b].meta by {
            assert(init[a] == found[a] && init[b] == found[b]);
        }
        lemma_scan_records(files, init, i);
        let last = found[found.len() - 1];
        if takeable(last) && paths::sanitized(last.rel) == paths::sanitized(found[i].rel) {
            assert(found[i].meta == last.meta);
        }
    }
}

/// A walk that brings nothing new leaves the index alone.
proof fn lemma_scan_nothing(files: Map<Seq<char>, RecView>, found: Seq<FoundView>)
    requires
        forall|i: int| 0 <= i < found.len() ==> recorded(files, #[trigger] found[i]) is None,
    ensures
        scan_all(files, found) == files,
        !scan_takes(files, found),
    decreases found.len(),
{
    if found.len() > 0 {
        let init = found.drop_last();
        assert forall|i: int| 0 <= i < init.len() implies recorded(files, #[trigger] init[i]) is None by {
            assert(init[i] == found[i]);
        }
        lemma_scan_nothing(files, init);
        assert(recorded(files, found[found.len() - 1]) is None);
    }
}

/// Scanning a folder again in which nothing happened changes nothing, unless two
/// files under one normal path differ in size or time.
pub proof fn scan_settles(files: Map<Seq<char>, RecView>, found: Seq<FoundView>, now: u64, later: u64)
    requires
        consistent(found),
    ensures
        ({
            let after = buried(scan_all(files, found), walked_paths(found), now);
            &&& !scan_takes(after, found)
            &&& forall|k: Seq<char>| !vanished(scan_all(after, found), walked_paths(found), k)
            &&& buried(scan_all(after, found), walked_paths(found), later) == after
        }),
{
    let seen = walked_paths(found);
    let mid = scan_all(files, found);
    let after = buried(mid, seen, now);
    assert forall|i: int| 0 <= i < found.len() implies recorded(after, #[trigger] found[i]) is None by {
        if recorded(after, found[i]) is Some {
            lemma_scan_records(files, found, i);
            let p = paths::sanitized(found[i].rel)->0;
            assert(walked(found, p));
            assert(!vanished(mid, seen, p));
        }
    }
    lemma_scan_nothing(after, found);
    assert(buried(after, seen, later) =~= after);
}

/// A scan in progress: the paths it has come upon, and whether it has changed
/// the index.
pub struct Scan {
    seen: PathMap<()>,
    changed: bool,
}

impl Scan {
    /// The paths are in order.
    pub closed spec fn wf(self) -> bool {
        self.seen.wf()
    }

    /// The paths seen so far.
    pub closed spec fn seen(self) -> Set<Seq<char>> {
        self.seen@.dom()
    }

    /// Whether the index has changed so far.
    pub closed spec fn changed(self) -> bool {
        self.changed
    }

    /// A scan that has seen nothing yet.
    pub fn new() -> (s: Self)
        ensures
            s.wf(),
            s.seen() == Set::<Seq<char>>::empty(),
            !s.changed(),
    {
        let s = Scan { seen: PathMap::new(), changed: false };
        assert(s.seen() =~= Set::empty());
        s
    }
}

impl Store {
    /// Whether a file of this size and time has to be hashed: it is within the
    /// cap, and the index does not hold it as it is.
    pub fn scan_needs_hash(&self, path: &str, size: u64, mtime: u64) -> (b: bool)
        requires
            self.wf(),
        ensures
            b == is_news(self.files@, path@, size, mtime),
    {
        if size > MAX_FILE_BYTES {
            return false;
        }
        match self.files.get(path) {
            Some(existing) => existing.deleted || existing.size != size || existing.mtime != mtime,
            None => true,
        }
    }

    /// Takes in one file that the walk came upon.
    pub fn scan_one(&mut self, scan: &mut Scan, file: &Found)
        requires
            old(self).wf(),
            old(scan).wf(),
        ensures
            final(self).wf(),
            final(scan).wf(),
            old(self).safe() ==> final(self).safe(),
            final(self).replica_id == old(self).replica_id,
            final(self).gen == old(self).gen,
            final(self).files@ == scan_step(old(self).files@, file@),
            final(scan).seen() == match paths::sanitized(file.rel@) {
                Some(p) => old(scan).seen().insert(p),
                None => old(scan).seen(),
            },
            final(scan).changed() == (old(scan).changed() || recorded(old(self).files@, file@)
                is Some),
    {
        let rel = match paths::sanitize_rel(file.rel.as_str()) {
            Some(p) => p,
            None => {
                return;
            },
        };
        proof {
            paths::sanitized_is_safe(file.rel@);
        }
        scan.seen.insert(rel.clone(), ());
        assert(scan.seen() =~= old(scan).seen().insert(rel@));
        let (size, mtime) = match file.meta {
            Some(m) => m,
            None => {
                return;
            },
        };
        if !self.scan_needs_hash(rel.as_str(), size, mtime) {
            return;
        }
        let hash = match file.hash {
            Some(h) => h,
            None => {
                return;
            },
        };
        let key = rel.clone();
        self.files.insert(key, FileRec { path: rel, size, mtime, hash, deleted: false });
        scan.changed = true;
    }

    /// Whether the vanished files can be given tombstones: none of their records
    /// bears the last time there is.
    pub fn can_bury(&self, scan: &Scan) -> (b: bool)
        requires
            self.wf(),
            scan.wf(),
        ensures
            b == buriable(self.files@, scan.seen()),
    {
        let mut i: usize = 0;
        let ghost s = self.files.seq();
        while i < self.files.len()
            invariant
                i <= s.len(),
                self.wf(),
                scan.wf(),
                s == self.files.seq(),
                forall|j: int|
                    0 <= j < i ==> (vanished(self.files@, scan.seen(), #[trigger] s[j].0)
                        ==> s[j].1.mtime < u64::MAX),
            decreases s.len() - i,
        {
            proof {
                pathmap::lemma_key_once(s, i as int);
            }
            let r = self.files.value(i);
            if !r.deleted && r.mtime == u64::MAX && !scan.seen.contains_key(
                self.files.key(i).as_str(),
            ) {
                assert(vanished(self.files@, scan.seen(), s[i as int].0));
                return false;
            }
            i += 1;
        }
        assert forall|path: Seq<char>| #[trigger]
            vanished(self.files@, scan.seen(), path) implies self.files@[path].mtime < u64::MAX by {
            let k = pathmap::key_at(s, path);
            pathmap::lemma_key_once(s, k);
            assert(s[k].0 == path);
        }
        true
    }

    /// Ends a scan: local disappearances become tombstones. Returns true if
    /// anything changed.
    pub fn scan_finish(&mut self, scan: &Scan, now: u64) -> (changed: bool)
        requires
            old(self).wf(),
            scan.wf(),
            buriable(old(self).files@, scan.seen()),
        ensures
            final(self).wf(),
            old(self).safe() ==> final(self).safe(),
            final(self).replica_id == old(self).replica_id,
            final(self).files@ == buried(old(self).files@, scan.seen(), now),
            changed == (scan.changed() || exists|k: Seq<char>|
                vanished(old(self).files@, scan.seen(), k)),
            final(self).gen == next_gen(old(self).gen, changed),
    {
        let mut changed = scan.changed;
        let ghost s = self.files.seq();
        let ghost start = self.files@;
        let mut i: usize = 0;
        while i < self.files.len()
            invariant
                i <= s.len() == self.files.seq().len(),
                self.wf(),
                scan.wf(),
                pathmap::rising(s),
                start == pathmap::map_of(s),
                buriable(start, scan.seen()),
                self.replica_id == old(self).replica_id,
                self.gen == old(self).gen,
                forall|j: int|
                    0 <= j < i ==> #[trigger] self.files.seq()[j] == (
                        s[j].0,
                        buried(start, scan.seen(), now)[s[j].0],
                    ),
                forall|j: int| i <= j < s.len() ==> #[trigger] self.files.seq()[j] == s[j],
                changed == (scan.changed() || exists|j: int|
                    0 <= j < i && vanished(start, scan.seen(), #[trigger] s[j].0)),
            decreases s.len() - i,
        {
            proof {
                pathmap::lemma_key_once(s, i as int);
                assert(buried(start, scan.seen(), now).dom().contains(s[i as int].0));
            }
            let gone = !self.files.value(i).deleted && !scan.seen.contains_key(
                self.files.key(i).as_str(),
            );
            assert(gone == vanished(start, scan.seen(), s[i as int].0));
            if gone {
                let r = self.files.value(i);
                let after: u64 = r.mtime + 1;
                let mtime: u64 = if now > after {
                    now
                } else {
                    after
                };
                let t = FileRec {
                    path: r.path.clone(),
                    size: 0,
                    mtime,
                    hash: [0u8; 32],
                    deleted: true,
                };
                assert(t@ =~= tombstone(s[i as int].1, now));
                self.files.set_value(i, t);
                changed = true;
            }
            i += 1;
        }
        proof {
            let t = self.files.seq();
            let b = buried(start, scan.seen(), now);
            assert forall|k: Seq<char>| #[trigger]
                pathmap::map_of(t).dom().contains(k) == b.dom().contains(k) by {
                if pathmap::has_key(t, k) {
                    let j = pathmap::key_at(t, k);
                    assert(t[j].0 == s[j].0);
                }
                if pathmap::has_key(s, k) {
                    let j = pathmap::key_at(s, k);
                    assert(t[j].0 == s[j].0);
                }
            }
            assert forall|k: Seq<char>| #[trigger] b.dom().contains(k) implies pathmap::map_of(t)[k]
                == b[k] by {
                assert(pathmap::map_of(t).dom().contains(k));
                let j = pathmap::key_at(t, k);
                pathmap::lemma_key_once(t, j);
                assert(t[j].0 == s[j].0);
            }
            assert(pathmap::map_of(t) =~= b);
            if exists|k: Seq<char>| vanished(start, scan.seen(), k) {
                let k = choose|k: Seq<char>| vanished(start, scan.seen(), k);
                let j = pathmap::key_at(s, k);
                assert(vanished(start, scan.seen(), s[j].0));
            }
        }
        self.bump(changed);
        changed
    }

    /// Updates the index after a walk of the folder, given each file that it came
    /// upon and the present time. Returns true if anything changed.
    pub fn scan(&mut self, found: &[Found], now: u64) -> (changed: bool)
        requires
            old(self).wf(),
            buriable(old(self).files@, walked_paths(found_views(found@))),
        ensures
            final(self).wf(),
            old(self).safe() ==> final(self).safe(),
            final(self).replica_id == old(self).replica_id,
            final(self).files@ == buried(
                scan_all(old(self).files@, found_views(found@)),
                walked_paths(found_views(found@)),
                now,
            ),
            changed == (scan_takes(old(self).files@, found_views(found@)) || exists|k: Seq<char>|
                vanished(old(self).files@, walked_paths(found_views(found@)), k)),
            final(self).gen == next_gen(old(self).gen, changed),
    {
        let ghost start = self.files@;
        let ghost all = found_views(found@);
        let mut scan = Scan::new();
        let mut i: usize = 0;
        assert(scan.seen() =~= walked_paths(all.take(0)));
        while i < found.len()
            invariant
                i <= found@.len(),
                self.wf(),
                scan.wf(),
                old(self).safe() ==> self.safe(),
                self.replica_id == old(self).replica_id,
                self.gen == old(self).gen,
                start == old(self).files@,
                all == found_views(found@),
                self.files@ == scan_all(start, all.take(i as int)),
                scan.seen() == walked_paths(all.take(i as int)),
                scan.changed() == scan_takes(start, all.take(i as int)),
            decreases found@.len() - i,
        {
            let ghost before = all.take(i as int);
            let ghost with = all.take(i + 1);
            proof {
                assert(with.drop_last() =~= before);
                assert(with.last() == found@[i as int]@);
            }
            self.scan_one(&mut scan, &found[i]);
            assert forall|p: Seq<char>| #[trigger] scan.seen().contains(p) == walked_paths(
                with,
            ).contains(p) by {
                if walked(before, p) {
                    let j = choose|j: int|
                        0 <= j < before.len() && paths::sanitized((#[trigger] before[j]).rel)
                            == Some(p);
                    assert(paths::sanitized(with[j].rel) == Some(p));
                }
                if walked(with, p) {
                    let j = choose|j: int|
                        0 <= j < with.len() && paths::sanitized((#[trigger] with[j]).rel) == Some(
                            p,
                        );
                    if j < before.len() {
                        assert(paths::sanitized(before[j].rel) == Some(p));
                    }
                }
                assert(paths::sanitized(with[i as int].rel) == paths::sanitized(
                    found@[i as int].rel@,
                ));
            }
            assert(scan.seen() =~= walked_paths(with));
            i += 1;
        }
        proof {
            assert(all.take(all.len() as int) =~= all);
            let seen = walked_paths(all);
            assert forall|k: Seq<char>| #[trigger] vanished(self.files@, seen, k) == vanished(
                start,
                seen,
                k,
            ) && (vanished(start, seen, k) ==> self.files@[k] == start[k]) by {
                if !walked(all, k) {
                    lemma_scan_unseen(start, all, k);
                }
            }
            if exists|k: Seq<char>| vanished(start, seen, k) {
                let k = choose|k: Seq<char>| vanished(start, seen, k);
                assert(vanished(self.files@, seen, k));
            }
        }
        self.scan_finish(&scan, now)
    }
}

/// The SHA-256 digest of a byte string.
pub uninterp spec fn sha256_of(data: Seq<u8>) -> Seq<u8>;

/// `sha2::Sha256` fed with the whole of `data`: the digest depends on the bytes
/// alone.
#[verifier::external_body]
pub fn sha256(data: &[u8]) -> (h: [u8; 32])
    ensures
        h@ == sha256_of(data@),
{
    let mut h = Sha256::new();
    h.update(data);
    h.finalize().into()
}

/// `getrandom::getrandom` fills the id with random bytes; where it fails the id
/// stays as far as it got. Nothing is claimed of the bytes.
#[verifier::external_body]
fn random_id() -> (id: [u8; 16]) {
    let mut id = [0u8; 16];
    let _ = getrandom::getrandom(&mut id);
    id
}

/// Bytes as lower-case hexadecimal text.
fn hex_string(bytes: &[u8]) -> (s: String)
    ensures
        s@ == codec::hex_text(bytes@),
{
    let mut s = String::new();
    let mut i: usize = 0;
    assert(s@ =~= codec::hex_text(bytes@.take(0)));
    while i < bytes.len()
        invariant
            i <= bytes@.len(),
            s@ == codec::hex_text(bytes@.take(i as int)),
        decreases bytes@.len() - i,
    {
        let b = bytes[i];
        let ghost before = bytes@.take(i as int);
        let ghost with = bytes@.take(i + 1);
        s.push(codec::hex_digit(b / 16));
        s.push(codec::hex_digit(b % 16));
        assert(s@ =~= codec::hex_text(with)) by {
            assert forall|j: int| 0 <= j < 2 * i implies #[trigger] codec::hex_text(with)[j]
                == codec::hex_text(before)[j] by {
                assert(with[j / 2] == before[j / 2]);
            }
        }
        i += 1;
    }
    assert(bytes@.take(bytes@.len() as int) =~= bytes@);
    s
}

pub fn hex16(b: &[u8; 16]) -> (s: String)
    ensures
        s@ == codec::hex_text(b@),
{
    hex_string(b.as_slice())
}

pub fn hex32(b: &[u8; 32]) -> (s: String)
    ensures
        s@ == codec::hex_text(b@),
{
    hex_string(b.as_slice())
}

/// The replica id that hexadecimal text stands for.
pub fn hex16_decode(s: &str) -> (r: Option<[u8; 16]>)
    ensures
        match r {
            Some(a) => codec::hex_bytes(encode_utf8(s@), 16) == Some(a@),
            None => codec::hex_bytes(encode_utf8(s@), 16) is None,
        },
{
    codec::hex_decode::<16>(s)
}

/// The hash that hexadecimal text stands for.
pub fn hex32_decode(s: &str) -> (r: Option<[u8; 32]>)
    ensures
        match r {
            Some(a) => codec::hex_bytes(encode_utf8(s@), 32) == Some(a@),
            None => codec::hex_bytes(encode_utf8(s@), 32) is None,
        },
{
    codec::hex_decode::<32>(s)
}

/// The index as it is kept on disk.
#[derive(Debug, PartialEq, Eq)]
pub struct DiskIndex {
    pub replica_id: String,
    pub gen: u64,
    pub files: Vec<FileRec>,
}

/// The index that a list of records from disk makes: records under acceptable
/// paths, in normal form, the last one for each path.
pub open spec fn loaded(recs: Seq<RecView>) -> Map<Seq<char>, RecView>
    decreases recs.len(),
{
    if recs.len() == 0 {
        Map::empty()
    } else {
        let before = loaded(recs.drop_last());
        match normalized(recs.last()) {
            Some(n) => before.insert(n.path, n),
            None => before,
        }
    }
}

/// The records of an index, in order of their paths.
pub open spec fn entry_recs(s: Seq<(Seq<char>, RecView)>) -> Seq<RecView> {
    Seq::new(s.len(), |i: int| s[i].1)
}

/// The live records of an index, in order of their paths.
pub open spec fn live_recs(s: Seq<(Seq<char>, RecView)>) -> Seq<RecView>
    decreases s.len(),
{
    if s.len() == 0 {
        Seq::empty()
    } else {
        let before = live_recs(s.drop_last());
        if s.last().1.deleted {
            before
        } else {
            before.push(s.last().1)
        }
    }
}

/// The paths and times of the live records with a given hash, in order.
pub open spec fn holders(s: Seq<(Seq<char>, RecView)>, hash: Seq<u8>) -> Seq<(Seq<char>, u64)>
    decreases s.len(),
{
    if s.len() == 0 {
        Seq::empty()
    } else {
        let before = holders(s.drop_last(), hash);
        let r = s.last().1;
        if r.deleted || r.hash != hash {
            before
        } else {
            before.push((r.path, r.mtime))
        }
    }
}

/// Where a blob of `len` bytes with the digest `got` goes when it came as the
/// content of `hash`: to every live path that names the hash, if it is within the
/// cap and is what was asked for.
pub open spec fn blob_targets(
    s: Seq<(Seq<char>, RecView)>,
    hash: Seq<u8>,
    len: nat,
    got: Seq<u8>,
) -> Seq<(Seq<char>, u64)> {
    if len <= MAX_FILE_BYTES && got == hash {
        holders(s, hash)
    } else {
        Seq::empty()
    }
}

/// Paths and times of a list.
pub open spec fn stamp_views(v: Seq<(String, u64)>) -> Seq<(Seq<char>, u64)> {
    Seq::new(v.len(), |i: int| (v[i].0@, v[i].1))
}

/// Texts of a list.
pub open spec fn text_views(v: Seq<String>) -> Seq<Seq<char>> {
    Seq::new(v.len(), |i: int| v[i]@)
}

/// Why a file was not written or removed.
#[derive(Clone, Copy, Debug, PartialEq, Eq, Structural)]
pub enum FileError {
    /// The path is not acceptable.
    BadPath,
    /// The content is over the cap.
    TooLarge,
    /// The disk refused.
    Io,
}

/// What comes of reading one of the files that may hold a blob.
#[derive(Clone, Copy, Debug, PartialEq, Eq, Structural)]
pub enum BlobStep {
    /// This is the blob.
    Found,
    /// The content is another; look further.
    Next,
    /// The file cannot be read: the blob is not to be had.
    Missing,
}

impl Store {
    /// The replica that the index on disk describes, or a new one; `fresh` is the
    /// id for a replica that has none.
    pub fn open_with(disk: Option<DiskIndex>, fresh: [u8; 16]) -> (s: Store)
        ensures
            s.wf(),
            s.safe(),
            match disk {
                Some(d) => {
                    &&& s.gen == d.gen
                    &&& s.files@ == loaded(rec_views(d.files@))
                    &&& s.replica_id@ == match codec::hex_bytes(encode_utf8(d.replica_id@), 16) {
                        Some(id) => id,
                        None => fresh@,
                    }
                },
                None => {
                    &&& s.gen == 0
                    &&& s.files@ == Map::<Seq<char>, RecView>::empty()
                    &&& s.replica_id == fresh
                },
            },
    {
        let mut files: PathMap<FileRec> = PathMap::new();
        let d = match disk {
            Some(d) => d,
            None => {
                return Store { replica_id: fresh, gen: 0, files };
            },
        };
        let ghost all = rec_views(d.files@);
        let mut i: usize = 0;
        while i < d.files.len()
            invariant
                i <= d.files@.len(),
                all == rec_views(d.files@),
                files.wf(),
                files@ == loaded(all.take(i as int)),
                forall|k: Seq<char>| #[trigger]
                    files@.dom().contains(k) ==> files@[k].path == k && paths::safe_path(k),
            decreases d.files@.len() - i,
        {
            let r = &d.files[i];
            proof {
                assert(all.take(i + 1).drop_last() =~= all.take(i as int));
                assert(all.take(i + 1).last() == r@);
                paths::sanitized_is_safe(r.path@);
            }
            if let Some(path) = paths::sanitize_rel(r.path.as_str()) {
                let key = path.clone();
                let n = FileRec {
                    path,
                    size: r.size,
                    mtime: r.mtime,
                    hash: r.hash,
                    deleted: r.deleted,
                };
                files.insert(key, n);
            }
            i += 1;
        }
        assert(all.take(all.len() as int) =~= all);
        let replica_id = match hex16_decode(d.replica_id.as_str()) {
            Some(id) => id,
            None => fresh,
        };
        Store { replica_id, gen: d.gen, files }
    }

    /// Opens the replica that the index on disk describes, or a new one under a
    /// random id.
    pub fn open(disk: Option<DiskIndex>) -> (s: Store)
        ensures
            s.wf(),
            s.safe(),
            match disk {
                Some(d) => {
                    &&& s.gen == d.gen
                    &&& s.files@ == loaded(rec_views(d.files@))
                    &&& codec::hex_bytes(encode_utf8(d.replica_id@), 16) matches Some(id)
                        ==> s.replica_id@ == id
                },
                None => s.gen == 0 && s.files@ == Map::<Seq<char>, RecView>::empty(),
            },
    {
        let known = match &disk {
            Some(d) => hex16_decode(d.replica_id.as_str()),
            None => None,
        };
        let fresh: [u8; 16] = match known {
            Some(id) => id,
            None => random_id(),
        };
        Store::open_with(disk, fresh)
    }

    /// The records of the index, in order of their paths.
    pub fn records(&self) -> (v: Vec<FileRec>)
        ensures
            rec_views(v@) == entry_recs(self.files.seq()),
    {
        let mut v: Vec<FileRec> = Vec::new();
        let mut i: usize = 0;
        while i < self.files.len()
            invariant
                i <= self.files.seq().len(),
                v@.len() == i,
                forall|j: int| 0 <= j < i ==> (#[trigger] v@[j])@ == self.files.seq()[j].1,
            decreases self.files.seq().len() - i,
        {
            v.push(self.files.value(i).clone());
            i += 1;
        }
        assert(rec_views(v@) =~= entry_recs(self.files.seq()));
        v
    }

    /// The index as it is to be kept on disk.
    pub fn persist(&self) -> (d: DiskIndex)
        ensures
            d.replica_id@ == codec::hex_text(self.replica_id@),
            d.gen == self.gen,
            rec_views(d.files@) == entry_recs(self.files.seq()),
    {
        DiskIndex { replica_id: hex16(&self.replica_id), gen: self.gen, files: self.records() }
    }

    /// The live records, in order of their paths.
    pub fn live_list(&self) -> (v: Vec<FileRec>)
        ensures
            rec_views(v@) == live_recs(self.files.seq()),
    {
        let mut v: Vec<FileRec> = Vec::new();
        let mut i: usize = 0;
        let ghost s = self.files.seq();
        assert(rec_views(v@) =~= live_recs(s.take(0)));
        while i < self.files.len()
            invariant
                i <= s.len(),
                s == self.files.seq(),
                rec_views(v@) == live_recs(s.take(i as int)),
            decreases s.len() - i,
        {
            proof {
                assert(s.take(i + 1).drop_last() =~= s.take(i as int));
                assert(s.take(i + 1).last() == s[i as int]);
            }
            let r = self.files.value(i);
            if !r.deleted {
                let ghost before = rec_views(v@);
                v.push(r.clone());
                assert(rec_views(v@) =~= before.push(r@));
            }
            i += 1;
        }
        assert(s.take(s.len() as int) =~= s);
        v
    }

    /// The paths and times of the live records with the given hash.
    fn holders(&self, hash: &[u8; 32]) -> (v: Vec<(String, u64)>)
        ensures
            stamp_views(v@) == holders(self.files.seq(), hash@),
    {
        let mut v: Vec<(String, u64)> = Vec::new();
        let mut i: usize = 0;
        let ghost s = self.files.seq();
        assert(stamp_views(v@) =~= holders(s.take(0), hash@));
        while i < self.files.len()
            invariant
                i <= s.len(),
                s == self.files.seq(),
                stamp_views(v@) == holders(s.take(i as int), hash@),
            decreases s.len() - i,
        {
            proof {
                assert(s.take(i + 1).drop_last() =~= s.take(i as int));
                assert(s.take(i + 1).last() == s[i as int]);
            }
            let r = self.files.value(i);
            if !r.deleted && codec::bytes_eq(r.hash.as_slice(), hash.as_slice()) {
                let ghost before = stamp_views(v@);
                v.push((r.path.clone(), r.mtime));
                assert(stamp_views(v@) =~= before.push((r@.path, r@.mtime)));
            }
            i += 1;
        }
        assert(s.take(s.len() as int) =~= s);
        v
    }

    /// Where a blob of `len` bytes with the digest `got` is to be written when it
    /// came as the content of `hash`: to every live path that names the hash, if
    /// it is within the cap and is what was asked for.
    pub fn install_targets(&self, hash: &[u8; 32], len: usize, got: &[u8; 32]) -> (v: Vec<
        (String, u64),
    >)
        ensures
            stamp_views(v@) == blob_targets(self.files.seq(), hash@, len as nat, got@),
    {
        let none: Vec<(String, u64)> = Vec::new();
        assert(stamp_views(none@) =~= Seq::empty());
        if len as u64 > MAX_FILE_BYTES {
            return none;
        }
        if !codec::bytes_eq(got.as_slice(), hash.as_slice()) {
            return none;
        }
        self.holders(hash)
    }

    /// The paths to write a completed blob to, with their times: every live path
    /// that names this hash. None if the blob is over the cap or is not what the
    /// hash names.
    pub fn install_blob(&self, hash: &[u8; 32], data: &[u8]) -> (v: Vec<(String, u64)>)
        ensures
            stamp_views(v@) == blob_targets(
                self.files.seq(),
                hash@,
                data@.len(),
                sha256_of(data@),
            ),
    {
        let got = sha256(data);
        self.install_targets(hash, data.len(), &got)
    }

    /// The path to read for a download: the file has to be in the index, alive.
    pub fn read_file(&self, rel: &str) -> (r: Option<String>)
        requires
            self.wf(),
        ensures
            match (r, paths::sanitized(rel@)) {
                (Some(path), Some(p)) => path@ == p && self.files@.dom().contains(p)
                    && !self.files@[p].deleted,
                (None, Some(p)) => !self.files@.dom().contains(p) || self.files@[p].deleted,
                (None, None) => true,
                (Some(_), None) => false,
            },
    {
        let rel = match paths::sanitize_rel(rel) {
            Some(p) => p,
            None => {
                return None;
            },
        };
        match self.files.get(rel.as_str()) {
            Some(rec) => if rec.deleted {
                None
            } else {
                Some(rel)
            },
            None => None,
        }
    }

    /// The path to write an upload of `len` bytes to.
    pub fn write_file(&self, rel: &str, len: usize) -> (r: Result<String, FileError>)
        ensures
            match (r, paths::sanitized(rel@)) {
                (Ok(path), Some(p)) => path@ == p && len <= MAX_FILE_BYTES,
                (Err(FileError::TooLarge), Some(_)) => len > MAX_FILE_BYTES,
                (Err(FileError::BadPath), None) => true,
                _ => false,
            },
    {
        match paths::sanitize_rel(rel) {
            Some(p) => if len as u64 > MAX_FILE_BYTES {
                Err(FileError::TooLarge)
            } else {
                Ok(p)
            },
            None => Err(FileError::BadPath),
        }
    }

    /// The path of a file to remove.
    pub fn remove_file(&self, rel: &str) -> (r: Result<String, FileError>)
        ensures
            match (r, paths::sanitized(rel@)) {
                (Ok(path), Some(p)) => path@ == p,
                (Err(FileError::BadPath), None) => true,
                _ => false,
            },
    {
        match paths::sanitize_rel(rel) {
            Some(p) => Ok(p),
            None => Err(FileError::BadPath),
        }
    }

    /// The paths where the blob of a hash may lie, in the order in which to try
    /// them.
    pub fn blob(&self, hash: &[u8; 32]) -> (v: Vec<String>)
        ensures
            text_views(v@) == holders(self.files.seq(), hash@).map_values(
                |h: (Seq<char>, u64)| h.0,
            ),
    {
        let held = self.holders(hash);
        let ghost want = holders(self.files.seq(), hash@).map_values(|h: (Seq<char>, u64)| h.0);
        let mut v: Vec<String> = Vec::new();
        let mut i: usize = 0;
        while i < held.len()
            invariant
                i <= held@.len(),
                stamp_views(held@) == holders(self.files.seq(), hash@),
                want == holders(self.files.seq(), hash@).map_values(|h: (Seq<char>, u64)| h.0),
                v@.len() == i,
                forall|j: int| 0 <= j < i ==> (#[trigger] v@[j])@ == want[j],
            decreases held@.len() - i,
        {
            assert(stamp_views(held@)[i as int].0 == want[i as int]);
            v.push(held[i].0.clone());
            i += 1;
        }
        assert(text_views(v@) =~= want);
        v
    }
}

/// What comes of a file that may hold a blob, given the digest of its content,
/// if it could be read.
pub open spec fn blob_verdict(hash: Seq<u8>, digest: Option<Seq<u8>>) -> BlobStep {
    match digest {
        None => BlobStep::Missing,
        Some(d) => if d == hash {
            BlobStep::Found
        } else {
            BlobStep::Next
        },
    }
}

/// Decides on one of the files that may hold a blob, given the digest of its
/// content.
pub fn blob_decide(hash: &[u8; 32], digest: Option<[u8; 32]>) -> (s: BlobStep)
    ensures
        s == blob_verdict(hash@, hash_view(digest)),
{
    match digest {
        None => BlobStep::Missing,
        Some(d) => if codec::bytes_eq(d.as_slice(), hash.as_slice()) {
            BlobStep::Found
        } else {
            BlobStep::Next
        },
    }
}

/// Decides on one of the files that may hold a blob, given its content, if it
/// could be read.
pub fn blob_step(hash: &[u8; 32], content: Option<&[u8]>) -> (s: BlobStep)
    ensures
        s == blob_verdict(
            hash@,
            match content {
                Some(c) => Some(sha256_of(c@)),
                None => None,
            },
        ),
{
    match content {
        Some(c) => blob_decide(hash, Some(sha256(c))),
        None => blob_decide(hash, None),
    }
}

/// A list of records under their own normal paths loads as the index that it
/// was written from.
proof fn lemma_load_entries(s: Seq<(Seq<char>, RecView)>)
    requires
        pathmap::rising(s),
        forall|i: int|
            0 <= i < s.len() ==> (#[trigger] s[i]).1.path == s[i].0 && paths::sanitized(s[i].0)
                == Some(s[i].0),
    ensures
        loaded(entry_recs(s)) == pathmap::map_of(s),
    decreases s.len(),
{
    if s.len() == 0 {
        assert(pathmap::map_of(s) =~= Map::empty());
    } else {
        let t = s.drop_last();
        let e = s.last();
        assert(t.push(e) =~= s);
        pathmap::lemma_map_of_push(t, e);
        assert forall|i: int| 0 <= i < t.len() implies (#[trigger] t[i]).1.path == t[i].0
            && paths::sanitized(t[i].0) == Some(t[i].0) by {
            assert(t[i] == s[i]);
        }
        lemma_load_entries(t);
        assert(entry_recs(s).drop_last() =~= entry_recs(t));
        assert(s[s.len() - 1] == e);
        assert(normalized(e.1) == Some(e.1));
    }
}

/// What is persisted of a replica opens as the same replica: its id is read back
/// from the text it is kept as, and its index from the list of its records.
pub proof fn persist_round_trip(id: Seq<u8>, s: Seq<(Seq<char>, RecView)>)
    requires
        id.len() == 16,
        pathmap::rising(s),
        settled(pathmap::map_of(s)),
    ensures
        codec::hex_bytes(encode_utf8(codec::hex_text(id)), 16) == Some(id),
        loaded(entry_recs(s)) == pathmap::map_of(s),
{
    codec::hex_round_trip(id);
    assert forall|i: int| 0 <= i < s.len() implies (#[trigger] s[i]).1.path == s[i].0
        && paths::sanitized(s[i].0) == Some(s[i].0) by {
        pathmap::lemma_key_once(s, i);
    }
    lemma_load_entries(s);
}

/// The records of an index in order list it.
pub proof fn records_list_the_index(s: Seq<(Seq<char>, RecView)>)
    requires
        pathmap::rising(s),
        settled(pathmap::map_of(s)),
    ensures
        lists(entry_recs(s), pathmap::map_of(s)),
{
    let files = pathmap::map_of(s);
    let recs = entry_recs(s);
    assert forall|i: int| 0 <= i < recs.len() implies files.dom().contains(
        (#[trigger] recs[i]).path,
    ) && files[recs[i].path] == recs[i] by {
        pathmap::lemma_key_once(s, i);
    }
    assert forall|k: Seq<char>| #[trigger] files.dom().contains(k) implies recs.contains(
        files[k],
    ) by {
        let i = pathmap::key_at(s, k);
        assert(recs[i] == files[k]);
    }
}

/// What a walk comes upon in a directory.
#[derive(Clone, Copy, Debug, PartialEq, Eq, Structural)]
pub enum EntryKind {
    Directory,
    File,
    /// A link, or something else.
    Other,
}

/// What a walk does with an entry of a directory.
#[derive(Debug, PartialEq, Eq)]
pub enum WalkStep {
    Skip,
    /// Walk this directory too.
    Enter,
    /// Take in the file under this path.
    Visit(String),
}

/// What a walk does with an entry, as values.
#[verifier::ext_equal]
pub enum WalkStepView {
    Skip,
    Enter,
    Visit(Seq<char>),
}

impl View for WalkStep {
    type V = WalkStepView;

    open spec fn view(&self) -> WalkStepView {
        match self {
            WalkStep::Skip => WalkStepView::Skip,
            WalkStep::Enter => WalkStepView::Enter,
            WalkStep::Visit(path) => WalkStepView::Visit(path@),
        }
    }
}

/// A path with slashes for backslashes.
pub open spec fn with_slashes(rel: Seq<char>) -> Seq<char> {
    Seq::new(
        rel.len(),
        |i: int|
            if rel[i] == '\\' {
                '/'
            } else {
                rel[i]
            },
    )
}

/// What a walk does with an entry: hidden ones are skipped, directories walked,
/// files taken in, links and the like left alone.
pub open spec fn walk_step_of(name: Seq<char>, rel: Seq<char>, kind: EntryKind) -> WalkStepView {
    if name.len() > 0 && name[0] == '.' {
        WalkStepView::Skip
    } else {
        match kind {
            EntryKind::Directory => WalkStepView::Enter,
            EntryKind::File => WalkStepView::Visit(with_slashes(rel)),
            EntryKind::Other => WalkStepView::Skip,
        }
    }
}

/// Decides on an entry of a directory, given its name, its path below the
/// folder, and what it is.
pub fn walk_step(name: &str, rel: &str, kind: EntryKind) -> (s: WalkStep)
    ensures
        s@ == walk_step_of(name@, rel@, kind),
{
    let chars = text::chars_of(name);
    if chars.len() > 0 && chars[0] == '.' {
        return WalkStep::Skip;
    }
    match kind {
        EntryKind::Directory => WalkStep::Enter,
        EntryKind::Other => WalkStep::Skip,
        EntryKind::File => {
            let from = text::chars_of(rel);
            let mut to: Vec<char> = Vec::new();
            let mut i: usize = 0;
            while i < from.len()
                invariant
                    i <= from@.len(),
                    from@ == rel@,
                    to@.len() == i,
                    forall|j: int| 0 <= j < i ==> to@[j] == with_slashes(rel@)[j],
                decreases from@.len() - i,
            {
                to.push(
                    if from[i] == '\\' {
                        '/'
                    } else {
                        from[i]
                    },
                );
                i += 1;
            }
            assert(to@ =~= with_slashes(rel@));
            WalkStep::Visit(text::string_of(to.as_slice()))
        },
    }
}

} // verus!
