//! A map from paths, kept in the order of the paths' bytes.

use vstd::prelude::*;
use vstd::utf8::*;

use crate::codec;
use crate::codec::Standing;

verus! {

/// The order of paths: that of their UTF-8 bytes.
pub open spec fn path_lt(a: Seq<char>, b: Seq<char>) -> bool {
    codec::lex_lt(encode_utf8(a), encode_utf8(b))
}

/// Paths in strictly rising order.
pub open spec fn rising<W>(s: Seq<(Seq<char>, W)>) -> bool {
    forall|i: int, j: int| 0 <= i < j < s.len() ==> path_lt(#[trigger] s[i].0, #[trigger] s[j].0)
}

/// Whether `key` stands in the list.
pub open spec fn has_key<W>(s: Seq<(Seq<char>, W)>, key: Seq<char>) -> bool {
    exists|i: int| 0 <= i < s.len() && #[trigger] s[i].0 == key
}

/// Where `key` stands in the list.
pub open spec fn key_at<W>(s: Seq<(Seq<char>, W)>, key: Seq<char>) -> int {
    choose|i: int| 0 <= i < s.len() && #[trigger] s[i].0 == key
}

/// The map that a list of entries stands for.
pub open spec fn map_of<W>(s: Seq<(Seq<char>, W)>) -> Map<Seq<char>, W> {
    Map::new(|k: Seq<char>| has_key(s, k), |k: Seq<char>| s[key_at(s, k)].1)
}

/// The list with `key` set to `value`: in place if it is there, else where the
/// order puts it.
pub open spec fn with_entry<W>(s: Seq<(Seq<char>, W)>, key: Seq<char>, value: W) -> Seq<
    (Seq<char>, W),
>
    decreases s.len(),
{
    if s.len() == 0 {
        seq![(key, value)]
    } else if s[0].0 == key {
        seq![(key, value)] + s.drop_first()
    } else if path_lt(key, s[0].0) {
        seq![(key, value)] + s
    } else {
        seq![s[0]] + with_entry(s.drop_first(), key, value)
    }
}

/// A map from paths to `V`, ordered by path.
pub struct PathMap<V> {
    entries: Vec<(String, V)>,
}

impl<V: View> PathMap<V> {
    /// The entries, in order.
    pub closed spec fn seq(self) -> Seq<(Seq<char>, V::V)> {
        Seq::new(self.entries@.len(), |i: int| (self.entries@[i].0@, self.entries@[i].1@))
    }

    /// The paths rise, so none occurs twice.
    pub open spec fn wf(self) -> bool {
        rising(self.seq())
    }
}

impl<V: View> View for PathMap<V> {
    type V = Map<Seq<char>, V::V>;

    open spec fn view(&self) -> Map<Seq<char>, V::V> {
        map_of(self.seq())
    }
}

/// Different paths have different encodings.
pub proof fn lemma_encode_injective(a: Seq<char>, b: Seq<char>)
    ensures
        encode_utf8(a) == encode_utf8(b) <==> a == b,
{
    encode_utf8_decode_utf8(a);
    encode_utf8_decode_utf8(b);
}

/// A path stands in a rising list at most once.
pub proof fn lemma_key_once<W>(s: Seq<(Seq<char>, W)>, i: int)
    requires
        rising(s),
        0 <= i < s.len(),
    ensures
        has_key(s, s[i].0),
        key_at(s, s[i].0) == i,
        map_of(s).dom().contains(s[i].0),
        map_of(s)[s[i].0] == s[i].1,
{
    let key = s[i].0;
    assert(has_key(s, key));
    let k = key_at(s, key);
    codec::lemma_lex_irreflexive(encode_utf8(key));
    if k < i {
        assert(path_lt(s[k].0, s[i].0));
    } else if i < k {
        assert(path_lt(s[i].0, s[k].0));
    }
}

/// Setting an entry of a rising list, knowing where it belongs.
proof fn lemma_with_entry_place<W>(s: Seq<(Seq<char>, W)>, key: Seq<char>, value: W, at: int)
    requires
        rising(s),
        0 <= at <= s.len(),
        forall|i: int| 0 <= i < at ==> path_lt(#[trigger] s[i].0, key),
        at < s.len() ==> s[at].0 == key || path_lt(key, s[at].0),
    ensures
        with_entry(s, key, value) == if at < s.len() && s[at].0 == key {
            s.update(at, (key, value))
        } else {
            s.insert(at, (key, value))
        },
    decreases s.len(),
{
    let result = if at < s.len() && s[at].0 == key {
        s.update(at, (key, value))
    } else {
        s.insert(at, (key, value))
    };
    codec::lemma_lex_irreflexive(encode_utf8(key));
    if at == 0 {
        assert(with_entry(s, key, value) =~= result);
    } else {
        assert(path_lt(s[0].0, key));
        codec::lemma_lex_asymmetric(encode_utf8(s[0].0), encode_utf8(key));
        let rest = s.drop_first();
        assert(forall|i: int| 0 <= i < rest.len() ==> rest[i] == s[i + 1]);
        assert(rising(rest));
        lemma_with_entry_place(rest, key, value, at - 1);
        assert(with_entry(s, key, value) =~= result);
    }
}

/// Where a path belongs in a rising list.
proof fn lemma_place<W>(s: Seq<(Seq<char>, W)>, key: Seq<char>) -> (at: int)
    requires
        rising(s),
    ensures
        0 <= at <= s.len(),
        forall|i: int| 0 <= i < at ==> path_lt(#[trigger] s[i].0, key),
        at < s.len() ==> s[at].0 == key || path_lt(key, s[at].0),
    decreases s.len(),
{
    if s.len() == 0 {
        0
    } else {
        lemma_encode_injective(s[0].0, key);
        codec::lemma_lex_total(encode_utf8(s[0].0), encode_utf8(key));
        if path_lt(s[0].0, key) {
            let rest = s.drop_first();
            assert(forall|i: int| 0 <= i < rest.len() ==> rest[i] == s[i + 1]);
            assert(rising(rest));
            let at = 1 + lemma_place(rest, key);
            assert forall|i: int| 0 <= i < at implies path_lt(#[trigger] s[i].0, key) by {
                if i > 0 {
                    assert(path_lt(rest[i - 1].0, key));
                }
            }
            at
        } else {
            0
        }
    }
}

/// Setting an entry keeps a list rising, and sets that key of the map.
pub proof fn lemma_with_entry<W>(s: Seq<(Seq<char>, W)>, key: Seq<char>, value: W)
    requires
        rising(s),
    ensures
        rising(with_entry(s, key, value)),
        map_of(with_entry(s, key, value)) == map_of(s).insert(key, value),
{
    let at = lemma_place(s, key);
    lemma_with_entry_place(s, key, value, at);
    let t = with_entry(s, key, value);
    let there = at < s.len() && s[at].0 == key;
    if !there {
        assert forall|i: int, j: int| 0 <= i < j < t.len() implies path_lt(
            #[trigger] t[i].0,
            #[trigger] t[j].0,
        ) by {
            if j == at {
            } else if i == at {
                assert(t[j] == s[j - 1]);
                if j - 1 > at {
                    assert(path_lt(s[at].0, s[j - 1].0));
                    codec::lemma_lex_transitive(
                        encode_utf8(key),
                        encode_utf8(s[at].0),
                        encode_utf8(s[j - 1].0),
                    );
                }
            } else {
                let i0 = if i < at { i } else { i - 1 };
                let j0 = if j < at { j } else { j - 1 };
                assert(path_lt(s[i0].0, s[j0].0));
            }
        }
    } else {
        assert forall|i: int, j: int| 0 <= i < j < t.len() implies path_lt(
            #[trigger] t[i].0,
            #[trigger] t[j].0,
        ) by {
            assert(path_lt(s[i].0, s[j].0));
        }
    }
    let m = map_of(s).insert(key, value);
    assert forall|k: Seq<char>| #[trigger] map_of(t).dom().contains(k) == m.dom().contains(k) by {
        if has_key(t, k) && k != key {
            let i = key_at(t, k);
            assert(s[if !there && i > at { i - 1 } else { i }].0 == k);
        }
        if has_key(s, k) {
            let i = key_at(s, k);
            assert(t[if !there && i >= at { i + 1 } else { i }].0 == k);
        }
        assert(t[at].0 == key);
    }
    assert forall|k: Seq<char>| #[trigger] m.dom().contains(k) implies map_of(t)[k] == m[k] by {
        assert(map_of(t).dom().contains(k));
        let i = key_at(t, k);
        lemma_key_once(t, i);
        if k == key {
            lemma_key_once(t, at);
        } else {
            let i0 = if !there && i > at { i - 1 } else { i };
            assert(i != at);
            assert(s[i0] == t[i]);
            lemma_key_once(s, i0);
        }
    }
    assert(map_of(t) =~= m);
}

impl<V: View> PathMap<V> {
    /// An empty map.
    pub fn new() -> (m: Self)
        ensures
            m.wf(),
            m.seq() == Seq::<(Seq<char>, V::V)>::empty(),
            m@ == Map::<Seq<char>, V::V>::empty(),
    {
        let m = PathMap { entries: Vec::new() };
        assert(m.seq() =~= Seq::empty());
        assert(m@ =~= Map::empty());
        m
    }

    /// The number of entries.
    pub fn len(&self) -> (n: usize)
        ensures
            n == self.seq().len(),
    {
        self.entries.len()
    }

    /// Whether there is no entry.
    pub fn is_empty(&self) -> (b: bool)
        ensures
            b == (self.seq().len() == 0),
    {
        self.entries.len() == 0
    }

    /// The path of the `i`-th entry.
    pub fn key(&self, i: usize) -> (k: &String)
        requires
            i < self.seq().len(),
        ensures
            k@ == self.seq()[i as int].0,
    {
        &self.entries[i].0
    }

    /// The value of the `i`-th entry.
    pub fn value(&self, i: usize) -> (v: &V)
        requires
            i < self.seq().len(),
        ensures
            v@ == self.seq()[i as int].1,
    {
        &self.entries[i].1
    }

    /// The first entry whose path is not before `key`, and whether it is `key`.
    fn place(&self, key: &str) -> (r: (usize, bool))
        requires
            self.wf(),
        ensures
            r.0 <= self.seq().len(),
            forall|i: int| 0 <= i < r.0 ==> path_lt(#[trigger] self.seq()[i].0, key@),
            r.1 ==> r.0 < self.seq().len() && self.seq()[r.0 as int].0 == key@,
            !r.1 ==> (r.0 < self.seq().len() ==> path_lt(key@, self.seq()[r.0 as int].0)),
    {
        let mut lo: usize = 0;
        let mut hi: usize = self.entries.len();
        let ghost s = self.seq();
        while lo < hi
            invariant
                rising(s),
                s == self.seq(),
                lo <= hi <= s.len(),
                s.len() == self.entries@.len(),
                forall|i: int| 0 <= i < lo ==> path_lt(#[trigger] s[i].0, key@),
                hi < s.len() ==> path_lt(key@, s[hi as int].0),
            decreases hi - lo,
        {
            let mid: usize = lo + (hi - lo) / 2;
            let here = codec::stand(self.entries[mid].0.as_str().as_bytes(), key.as_bytes());
            assert(s[mid as int].0 == self.entries@[mid as int].0@);
            proof {
                lemma_encode_injective(s[mid as int].0, key@);
            }
            match here {
                Standing::Before => {
                    assert forall|i: int| 0 <= i < mid + 1 implies path_lt(
                        #[trigger] s[i].0,
                        key@,
                    ) by {
                        if i < mid {
                            assert(path_lt(s[i].0, s[mid as int].0));
                            codec::lemma_lex_transitive(
                                encode_utf8(s[i].0),
                                encode_utf8(s[mid as int].0),
                                encode_utf8(key@),
                            );
                        }
                    }
                    lo = mid + 1;
                },
                Standing::Same => {
                    return (mid, true);
                },
                Standing::After => {
                    hi = mid;
                },
            }
        }
        (lo, false)
    }

    /// The value of `key`, if it is in the map.
    pub fn get(&self, key: &str) -> (r: Option<&V>)
        requires
            self.wf(),
        ensures
            match r {
                Some(v) => self@.dom().contains(key@) && v@ == self@[key@],
                None => !self@.dom().contains(key@),
            },
    {
        let (at, found) = self.place(key);
        if found {
            proof {
                lemma_key_once(self.seq(), at as int);
            }
            Some(self.value(at))
        } else {
            proof {
                self.lemma_absent(key@, at as int);
            }
            None
        }
    }

    /// Whether `key` is in the map.
    pub fn contains_key(&self, key: &str) -> (b: bool)
        requires
            self.wf(),
        ensures
            b == self@.dom().contains(key@),
    {
        self.get(key).is_some()
    }

    /// A path that falls between two entries is not in the map.
    proof fn lemma_absent(self, key: Seq<char>, at: int)
        requires
            self.wf(),
            0 <= at <= self.seq().len(),
            forall|i: int| 0 <= i < at ==> path_lt(#[trigger] self.seq()[i].0, key),
            at < self.seq().len() ==> path_lt(key, self.seq()[at].0),
        ensures
            !self@.dom().contains(key),
    {
        let s = self.seq();
        codec::lemma_lex_irreflexive(encode_utf8(key));
        if has_key(s, key) {
            let k = key_at(s, key);
            if k > at {
                assert(path_lt(s[at].0, s[k].0));
                codec::lemma_lex_transitive(
                    encode_utf8(key),
                    encode_utf8(s[at].0),
                    encode_utf8(key),
                );
            }
        }
    }

    /// Sets `key` to `value`.
    pub fn insert(&mut self, key: String, value: V)
        requires
            old(self).wf(),
        ensures
            final(self).wf(),
            final(self).seq() == with_entry(old(self).seq(), key@, value@),
            final(self)@ == old(self)@.insert(key@, value@),
    {
        let (at, found) = self.place(key.as_str());
        let ghost s = self.seq();
        proof {
            codec::lemma_lex_irreflexive(encode_utf8(key@));
            lemma_with_entry_place(s, key@, value@, at as int);
            lemma_with_entry(s, key@, value@);
        }
        if found {
            let ghost e = (key, value);
            self.entries[at] = (key, value);
            assert(self.entries@ == old(self).entries@.update(at as int, e));
            assert(self.seq() =~= s.update(at as int, (key@, value@)));
        } else {
            self.entries.insert(at, (key, value));
            assert(self.seq() =~= s.insert(at as int, (key@, value@)));
        }
    }

    /// Gives the `i`-th entry another value.
    pub fn set_value(&mut self, i: usize, value: V)
        requires
            old(self).wf(),
            i < old(self).seq().len(),
        ensures
            final(self).wf(),
            final(self).seq() == old(self).seq().update(
                i as int,
                (old(self).seq()[i as int].0, value@),
            ),
    {
        let ghost s = self.seq();
        self.entries[i].1 = value;
        assert(self.seq() =~= s.update(i as int, (s[i as int].0, value@)));
        assert forall|a: int, b: int| 0 <= a < b < s.len() implies path_lt(
            #[trigger] self.seq()[a].0,
            #[trigger] self.seq()[b].0,
        ) by {
            assert(path_lt(s[a].0, s[b].0));
        }
    }
}

/// A further entry at the end of a rising list adds its key to the map.
pub proof fn lemma_map_of_push<W>(s: Seq<(Seq<char>, W)>, e: (Seq<char>, W))
    requires
        rising(s.push(e)),
    ensures
        rising(s),
        map_of(s.push(e)) == map_of(s).insert(e.0, e.1),
{
    let t = s.push(e);
    assert forall|i: int, j: int| 0 <= i < j < s.len() implies path_lt(
        #[trigger] s[i].0,
        #[trigger] s[j].0,
    ) by {
        assert(path_lt(t[i].0, t[j].0));
    }
    let m = map_of(s).insert(e.0, e.1);
    lemma_key_once(t, s.len() as int);
    assert forall|k: Seq<char>| #[trigger] map_of(t).dom().contains(k) == m.dom().contains(k) by {
        if has_key(t, k) {
            let i = key_at(t, k);
            if i < s.len() {
                assert(s[i].0 == k);
            }
        }
        if has_key(s, k) {
            assert(t[key_at(s, k)].0 == k);
        }
    }
    assert forall|k: Seq<char>| #[trigger] m.dom().contains(k) implies map_of(t)[k] == m[k] by {
        assert(map_of(t).dom().contains(k));
        if k != e.0 {
            let i = key_at(s, k);
            assert(t[i] == s[i]);
            lemma_key_once(t, i);
        }
    }
    assert(map_of(t) =~= m);
}

/// The order leaves no choice: two rising lists of the same map are the same.
pub proof fn order_leaves_no_choice<W>(s: Seq<(Seq<char>, W)>, t: Seq<(Seq<char>, W)>)
    requires
        rising(s),
        rising(t),
        map_of(s) == map_of(t),
    ensures
        s == t,
    decreases s.len(),
{
    if s.len() == 0 {
        if t.len() > 0 {
            lemma_key_once(t, 0);
            assert(has_key(s, t[0].0));
        }
        assert(s =~= t);
    } else {
        let last = s.last();
        lemma_key_once(s, s.len() - 1);
        assert(has_key(t, last.0));
        let k = key_at(t, last.0);
        lemma_key_once(t, k);
        if k < t.len() - 1 {
            let over = t.last().0;
            assert(path_lt(t[k].0, t[t.len() - 1].0));
            lemma_key_once(t, t.len() - 1);
            assert(has_key(s, over));
            let i = key_at(s, over);
            codec::lemma_lex_irreflexive(encode_utf8(over));
            if i < s.len() - 1 {
                assert(path_lt(s[i].0, s[s.len() - 1].0));
                codec::lemma_lex_asymmetric(encode_utf8(over), encode_utf8(last.0));
            }
        }
        assert(t[k] == last);
        let a = s.drop_last();
        let b = t.drop_last();
        assert(a.push(last) =~= s);
        assert(b.push(last) =~= t);
        lemma_map_of_push(a, last);
        lemma_map_of_push(b, last);
        codec::lemma_lex_irreflexive(encode_utf8(last.0));
        assert(!has_key(a, last.0)) by {
            if has_key(a, last.0) {
                let i = key_at(a, last.0);
                assert(path_lt(s[i].0, s[s.len() - 1].0));
            }
        }
        assert(!has_key(b, last.0)) by {
            if has_key(b, last.0) {
                let i = key_at(b, last.0);
                assert(path_lt(t[i].0, t[t.len() - 1].0));
            }
        }
        assert(map_of(a) =~= map_of(s).remove(last.0));
        assert(map_of(b) =~= map_of(t).remove(last.0));
        order_leaves_no_choice(a, b);
    }
}

} // verus!
