//! An association map from byte strings to byte strings, the shape of both
//! the code table (`id -> code`) and the routing table (`code -> target`).
//!
//! Entries keep their insertion order, which fixes the byte layout of a
//! written snapshot; the logical content is the key/value map in the view.
use vstd::prelude::*;

use crate::bytes::bytes_eq;

verus! {

/// A map from byte strings to byte strings, stored as an ordered list of
/// pairs with pairwise distinct keys.
pub struct ByteMap {
    pairs: Vec<(Vec<u8>, Vec<u8>)>,
}

/// The map described by a sequence of key/value pairs; on duplicate keys the
/// later pair wins.
pub open spec fn map_of(s: Seq<(Seq<u8>, Seq<u8>)>) -> Map<Seq<u8>, Seq<u8>>
    decreases s.len(),
{
    if s.len() == 0 {
        Map::empty()
    } else {
        map_of(s.drop_last()).insert(s.last().0, s.last().1)
    }
}

/// Key uniqueness over a sequence of pairs.
pub open spec fn unique_keys(s: Seq<(Seq<u8>, Seq<u8>)>) -> bool {
    forall|i: int, j: int| 0 <= i < j < s.len() ==> s[i].0 != s[j].0
}

/// A key occurs in the pair sequence.
pub open spec fn has_key(s: Seq<(Seq<u8>, Seq<u8>)>, k: Seq<u8>) -> bool {
    exists|i: int| 0 <= i < s.len() && s[i].0 == k
}

pub proof fn lemma_map_of_contains(s: Seq<(Seq<u8>, Seq<u8>)>, k: Seq<u8>)
    ensures
        map_of(s).contains_key(k) <==> has_key(s, k),
    decreases s.len(),
{
    if s.len() > 0 {
        lemma_map_of_contains(s.drop_last(), k);
        if s.last().0 == k {
            assert(s[s.len() - 1].0 == k);
        } else if has_key(s.drop_last(), k) {
            let i = choose|i: int| 0 <= i < s.drop_last().len() && s.drop_last()[i].0 == k;
            assert(s[i].0 == k);
        } else if has_key(s, k) {
            let i = choose|i: int| 0 <= i < s.len() && s[i].0 == k;
            assert(s.drop_last()[i].0 == k);
        }
    }
}

/// With unique keys, the map agrees with every stored pair.
pub proof fn lemma_map_of_index(s: Seq<(Seq<u8>, Seq<u8>)>, i: int)
    requires
        unique_keys(s),
        0 <= i < s.len(),
    ensures
        map_of(s).contains_key(s[i].0),
        map_of(s)[s[i].0] == s[i].1,
    decreases s.len(),
{
    if i == s.len() - 1 {
        assert(s.last() == s[i]);
    } else {
        assert(unique_keys(s.drop_last())) by {
            assert(forall|x: int, y: int|
                0 <= x < y < s.drop_last().len() ==> s.drop_last()[x].0 != s.drop_last()[y].0);
        }
        lemma_map_of_index(s.drop_last(), i);
        assert(s.drop_last()[i] == s[i]);
        assert(s.last().0 != s[i].0);
    }
}

impl View for ByteMap {
    type V = Map<Seq<u8>, Seq<u8>>;

    open spec fn view(&self) -> Map<Seq<u8>, Seq<u8>> {
        map_of(self.entries())
    }
}

impl ByteMap {
    /// The stored pairs, as mathematical sequences.
    pub closed spec fn entries(&self) -> Seq<(Seq<u8>, Seq<u8>)> {
        self.pairs.deep_view()
    }

    /// Well-formed: no two entries share a key.
    pub open spec fn wf(&self) -> bool {
        unique_keys(self.entries())
    }

    /// An empty map.
    pub fn new() -> (r: ByteMap)
        ensures
            r.wf(),
            r.entries() == Seq::<(Seq<u8>, Seq<u8>)>::empty(),
            r@ == Map::<Seq<u8>, Seq<u8>>::empty(),
    {
        let r = ByteMap { pairs: Vec::new() };
        assert(r.entries() =~= Seq::<(Seq<u8>, Seq<u8>)>::empty());
        r
    }

    /// Number of entries.
    pub fn len(&self) -> (r: usize)
        ensures
            r == self.entries().len(),
    {
        self.pairs.len()
    }

    /// The key of the entry at a position.
    pub fn key_at(&self, i: usize) -> (r: &Vec<u8>)
        requires
            i < self.entries().len(),
        ensures
            r@ == self.entries()[i as int].0,
    {
        &self.pairs[i].0
    }

    /// The value of the entry at a position.
    pub fn val_at(&self, i: usize) -> (r: &Vec<u8>)
        requires
            i < self.entries().len(),
        ensures
            r@ == self.entries()[i as int].1,
    {
        &self.pairs[i].1
    }

    /// Position of the entry holding a key, if any.
    fn index_of(&self, key: &Vec<u8>) -> (r: Option<usize>)
        ensures
            match r {
                Some(i) => i < self.entries().len() && self.entries()[i as int].0 == key@,
                None => !has_key(self.entries(), key@),
            },
    {
        let n = self.pairs.len();
        let mut i: usize = 0;
        while i < n
            invariant
                n == self.entries().len(),
                i <= n,
                self.entries().len() == self.pairs.len(),
                forall|j: int| 0 <= j < i ==> self.entries()[j].0 != key@,
            decreases n - i,
        {
            if bytes_eq(&self.pairs[i].0, key) {
                assert(self.entries()[i as int].0 == key@);
                return Some(i);
            }
            assert(self.entries()[i as int].0 =~= self.pairs@[i as int].0@);
            i += 1;
        }
        None
    }

    /// Whether the map holds a key.
    pub fn contains_key(&self, key: &Vec<u8>) -> (r: bool)
        requires
            self.wf(),
        ensures
            r <==> self@.contains_key(key@),
    {
        proof {
            lemma_map_of_contains(self.entries(), key@);
        }
        match self.index_of(key) {
            Some(i) => {
                assert(has_key(self.entries(), key@));
                true
            },
            None => false,
        }
    }

    /// The value stored under a key, if any.
    pub fn get<'a>(&'a self, key: &Vec<u8>) -> (r: Option<&'a Vec<u8>>)
        requires
            self.wf(),
        ensures
            match r {
                Some(v) => self@.contains_key(key@) && v@ == self@[key@],
                None => !self@.contains_key(key@),
            },
    {
        proof {
            lemma_map_of_contains(self.entries(), key@);
        }
        match self.index_of(key) {
            Some(i) => {
                proof {
                    lemma_map_of_index(self.entries(), i as int);
                }
                Some(&self.pairs[i].1)
            },
            None => None,
        }
    }

    /// Insert or replace the value under a key. A fresh key is appended; an
    /// existing key keeps its position.
    pub fn insert(&mut self, key: Vec<u8>, value: Vec<u8>)
        requires
            old(self).wf(),
        ensures
            final(self).wf(),
            final(self)@ == old(self)@.insert(key@, value@),
            !old(self)@.contains_key(key@) ==> final(self).entries() == old(self).entries().push(
                (key@, value@),
            ),
            old(self)@.contains_key(key@) ==> exists|i: int|
                0 <= i < old(self).entries().len() && old(self).entries()[i].0 == key@
                    && final(self).entries() == old(self).entries().update(i, (key@, value@)),
            final(self).entries().len() >= old(self).entries().len(),
    {
        proof {
            lemma_map_of_contains(self.entries(), key@);
        }
        let ghost old_entries = self.entries();
        match self.index_of(&key) {
            Some(i) => {
                self.pairs.set(i, (key, value));
                proof {
                    assert(self.entries() =~~= old_entries.update(i as int, (key@, value@)));
                    lemma_map_of_update(old_entries, i as int, key@, value@);
                }
            },
            None => {
                self.pairs.push((key, value));
                proof {
                    assert(self.entries() =~~= old_entries.push((key@, value@)));
                    assert(self.entries().drop_last() =~= old_entries);
                    lemma_map_of_contains(old_entries, key@);
                    assert(forall|i: int, j: int|
                        0 <= i < j < self.entries().len() ==> self.entries()[i].0
                            != self.entries()[j].0) by {
                        assert(forall|i: int|
                            0 <= i < old_entries.len() ==> self.entries()[i] == old_entries[i]);
                    }
                }
            },
        }
    }

    /// An order-preserving copy.
    pub fn duplicate(&self) -> (r: ByteMap)
        ensures
            r.entries() == self.entries(),
            r@ == self@,
            r.wf() <==> self.wf(),
    {
        let n = self.pairs.len();
        let mut out: Vec<(Vec<u8>, Vec<u8>)> = Vec::new();
        let mut i: usize = 0;
        while i < n
            invariant
                n == self.pairs.len(),
                i <= n,
                out.deep_view() =~~= self.pairs.deep_view().take(i as int),
            decreases n - i,
        {
            let k = clone_bytes(&self.pairs[i].0);
            let v = clone_bytes(&self.pairs[i].1);
            out.push((k, v));
            assert(out.deep_view() =~~= self.pairs.deep_view().take(i + 1));
            i += 1;
        }
        let r = ByteMap { pairs: out };
        assert(r.entries() =~~= self.entries());
        r
    }

    /// Build a map from a pair list; on duplicate keys the later pair wins.
    pub fn from_pairs(ps: Vec<(Vec<u8>, Vec<u8>)>) -> (r: ByteMap)
        ensures
            r.wf(),
            r@ == map_of(ps.deep_view()),
    {
        let mut r = ByteMap::new();
        let n = ps.len();
        let ghost all = ps.deep_view();
        let mut ps = ps;
        let mut i: usize = 0;
        proof {
            assert(map_of(all.take(0)) =~= Map::<Seq<u8>, Seq<u8>>::empty());
        }
        while i < n
            invariant
                n == ps.len(),
                i <= n,
                ps.deep_view() == all,
                r.wf(),
                r@ == map_of(all.take(i as int)),
            decreases n - i,
        {
            let ghost before = all.take(i as int);
            let k = clone_bytes(&ps[i].0);
            let v = clone_bytes(&ps[i].1);
            assert(k@ == all[i as int].0 && v@ == all[i as int].1) by {
                assert(ps.deep_view()[i as int] == all[i as int]);
            }
            r.insert(k, v);
            proof {
                assert(all.take(i + 1).drop_last() =~= before);
                assert(all.take(i + 1).last() == all[i as int]);
            }
            i += 1;
        }
        proof {
            assert(all.take(n as int) =~= all);
        }
        r
    }
}

/// Copy of a byte string.
pub fn clone_bytes(v: &Vec<u8>) -> (r: Vec<u8>)
    ensures
        r@ == v@,
{
    let n = v.len();
    let mut out: Vec<u8> = Vec::new();
    let mut i: usize = 0;
    while i < n
        invariant
            n == v.len(),
            i <= n,
            out@ =~= v@.take(i as int),
        decreases n - i,
    {
        out.push(v[i]);
        assert(out@ =~= v@.take(i + 1));
        i += 1;
    }
    assert(out@ =~= v@);
    out
}

/// Updating a pair in place keeps uniqueness when the key is unchanged, and
/// performs the map-level insert.
proof fn lemma_map_of_update(s: Seq<(Seq<u8>, Seq<u8>)>, i: int, k: Seq<u8>, v: Seq<u8>)
    requires
        unique_keys(s),
        0 <= i < s.len(),
        s[i].0 == k,
    ensures
        unique_keys(s.update(i, (k, v))),
        map_of(s.update(i, (k, v))) == map_of(s).insert(k, v),
    decreases s.len(),
{
    let t = s.update(i, (k, v));
    assert(forall|x: int| 0 <= x < s.len() && x != i ==> t[x] == s[x]);
    assert(t[i] == (k, v));
    if i == s.len() - 1 {
        assert(t.drop_last() =~= s.drop_last());
        assert(t.last() == (k, v));
        assert(s.last().0 == k);
        assert(map_of(t) == map_of(s.drop_last()).insert(k, v));
        assert(map_of(s) == map_of(s.drop_last()).insert(k, s.last().1));
        assert(map_of(s).insert(k, v) =~= map_of(s.drop_last()).insert(k, v));
    } else {
        assert(unique_keys(s.drop_last())) by {
            assert(forall|x: int, y: int|
                0 <= x < y < s.drop_last().len() ==> s.drop_last()[x].0 != s.drop_last()[y].0);
        }
        assert(t.drop_last() =~= s.drop_last().update(i, (k, v)));
        lemma_map_of_update(s.drop_last(), i, k, v);
        assert(t.last() == s.last());
        assert(map_of(t) == map_of(s.drop_last()).insert(k, v).insert(s.last().0, s.last().1));
        assert(s.last().0 != k);
        assert(map_of(s.drop_last()).insert(k, v).insert(s.last().0, s.last().1)
            =~= map_of(s.drop_last()).insert(s.last().0, s.last().1).insert(k, v));
    }
}

} // verus!
