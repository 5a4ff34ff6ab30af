//! The in-memory index: a mapping from each live key to the byte span
//! of the record that set it.
//!
//! Its view is a map from the UTF-8 bytes of a key to that key's
//! `CommandPosition`; keys are compared as strings, so the entry list
//! never holds two entries for one key.

use vstd::prelude::*;

verus! {

broadcast use vstd::utf8::encode_utf8_decode_utf8;

/// The byte span of one surviving `Set` record: the segment it lies
/// in, where it starts, and how long it is.
#[derive(Clone, Copy, Debug)]
pub struct CommandPosition {
    /// The number of the segment that holds the record.
    pub file_number: u64,
    /// The byte offset of the record in that segment.
    pub offset: u64,
    /// The byte length of the record.
    pub length: u64,
}

/// The map that a run of index entries denotes, later entries
/// shadowing earlier ones.
pub open spec fn entries_map(s: Seq<(String, CommandPosition)>) -> Map<Seq<u8>, CommandPosition>
    decreases s.len(),
{
    if s.len() == 0 {
        Map::empty()
    } else {
        entries_map(s.drop_last()).insert(
            vstd::utf8::encode_utf8(s.last().0@),
            s.last().1,
        )
    }
}

/// Whether no two entries hold the same key.
pub open spec fn distinct_keys(s: Seq<(String, CommandPosition)>) -> bool {
    forall|i: int, j: int| 0 <= i < j < s.len() ==> (#[trigger] s[i]).0@ != (#[trigger] s[j]).0@
}

/// The bytes the index keeps live: the sum of the span lengths of its
/// entries.
pub open spec fn live_total(s: Seq<(Seq<char>, CommandPosition)>) -> int
    decreases s.len(),
{
    if s.len() == 0 {
        0
    } else {
        live_total(s.drop_last()) + s.last().1.length
    }
}

pub proof fn lemma_live_total_nonneg(s: Seq<(Seq<char>, CommandPosition)>)
    ensures
        live_total(s) >= 0,
    decreases s.len(),
{
    if s.len() > 0 {
        lemma_live_total_nonneg(s.drop_last());
    }
}

proof fn lemma_live_total_remove(s: Seq<(Seq<char>, CommandPosition)>, i: int)
    requires
        0 <= i < s.len(),
    ensures
        live_total(s.remove(i)) == live_total(s) - s[i].1.length,
    decreases s.len(),
{
    if i == s.len() - 1 {
        assert(s.remove(i) =~= s.drop_last());
    } else {
        assert(s.remove(i).drop_last() =~= s.drop_last().remove(i));
        assert(s.remove(i).last() == s.last());
        assert(s.drop_last()[i] == s[i]);
        lemma_live_total_remove(s.drop_last(), i);
    }
}

/// UTF-8 encoding is injective: equal encodings mean equal strings.
pub proof fn lemma_utf8_inj(a: Seq<char>, b: Seq<char>)
    requires
        vstd::utf8::encode_utf8(a) == vstd::utf8::encode_utf8(b),
    ensures
        a == b,
{
    vstd::utf8::encode_utf8_decode_utf8(a);
    vstd::utf8::encode_utf8_decode_utf8(b);
}

/// With distinct keys, every entry is in the map, under its key.
proof fn lemma_map_hit(s: Seq<(String, CommandPosition)>, i: int)
    requires
        distinct_keys(s),
        0 <= i < s.len(),
    ensures
        entries_map(s).contains_key(vstd::utf8::encode_utf8(s[i].0@)),
        entries_map(s)[vstd::utf8::encode_utf8(s[i].0@)] == s[i].1,
    decreases s.len(),
{
    if i == s.len() - 1 {
    } else {
        assert(s.drop_last()[i] == s[i]);
        lemma_map_hit(s.drop_last(), i);
        assert(s.last().0@ != s[i].0@);
        if vstd::utf8::encode_utf8(s.last().0@) == vstd::utf8::encode_utf8(s[i].0@) {
            lemma_utf8_inj(s.last().0@, s[i].0@);
        }
    }
}

/// A key held by no entry is not in the map.
proof fn lemma_map_miss(s: Seq<(String, CommandPosition)>, kc: Seq<char>)
    requires
        forall|q: int| 0 <= q < s.len() ==> (#[trigger] s[q]).0@ != kc,
    ensures
        !entries_map(s).contains_key(vstd::utf8::encode_utf8(kc)),
    decreases s.len(),
{
    if s.len() > 0 {
        assert(s.last().0@ != kc);
        if vstd::utf8::encode_utf8(s.last().0@) == vstd::utf8::encode_utf8(kc) {
            lemma_utf8_inj(s.last().0@, kc);
        }
        lemma_map_miss(s.drop_last(), kc);
    }
}

/// Every key of the map is the key of some entry.
proof fn lemma_map_in_entries(s: Seq<(String, CommandPosition)>, k: Seq<u8>)
    requires
        entries_map(s).contains_key(k),
    ensures
        exists|i: int|
            0 <= i < s.len() && vstd::utf8::encode_utf8((#[trigger] s[i]).0@) == k,
    decreases s.len(),
{
    if s.len() > 0 {
        if k == vstd::utf8::encode_utf8(s.last().0@) {
            assert(0 <= s.len() - 1 < s.len() && vstd::utf8::encode_utf8(
                s[s.len() - 1].0@,
            ) == k);
        } else {
            lemma_map_in_entries(s.drop_last(), k);
            let i = choose|i: int|
                0 <= i < s.drop_last().len() && vstd::utf8::encode_utf8(
                    (#[trigger] s.drop_last()[i]).0@,
                ) == k;
            assert(s.drop_last()[i] == s[i]);
        }
    }
}

/// Removing one entry removes exactly its key from the map.
proof fn lemma_map_remove(s: Seq<(String, CommandPosition)>, i: int)
    requires
        distinct_keys(s),
        0 <= i < s.len(),
    ensures
        entries_map(s.remove(i)) == entries_map(s).remove(
            vstd::utf8::encode_utf8(s[i].0@),
        ),
    decreases s.len(),
{
    let ki = vstd::utf8::encode_utf8(s[i].0@);
    if i == s.len() - 1 {
        assert(s.remove(i) =~= s.drop_last());
        assert(forall|q: int|
            0 <= q < s.drop_last().len() ==> (#[trigger] s.drop_last()[q]).0@ != s[i].0@);
        lemma_map_miss(s.drop_last(), s[i].0@);
        assert(entries_map(s.drop_last()) =~= entries_map(s.drop_last()).remove(ki));
        assert(entries_map(s).remove(ki) =~= entries_map(s.drop_last()).remove(ki));
    } else {
        let t = s.drop_last();
        assert(s.remove(i).drop_last() =~= t.remove(i));
        assert(s.remove(i).last() == s.last());
        assert(t[i] == s[i]);
        lemma_map_remove(t, i);
        let klast = vstd::utf8::encode_utf8(s.last().0@);
        assert(s.last().0@ != s[i].0@);
        if klast == ki {
            lemma_utf8_inj(s.last().0@, s[i].0@);
        }
        assert(klast != ki);
        assert(entries_map(s.remove(i)) == entries_map(t.remove(i)).insert(klast, s.last().1));
        assert(entries_map(t).remove(ki).insert(klast, s.last().1) =~= entries_map(t).insert(
            klast,
            s.last().1,
        ).remove(ki));
    }
}

/// The in-memory index.
pub struct Index {
    entries: Vec<(String, CommandPosition)>,
}

impl View for Index {
    type V = Map<Seq<u8>, CommandPosition>;

    closed spec fn view(&self) -> Map<Seq<u8>, CommandPosition> {
        entries_map(self.entries@)
    }
}

impl Index {
    /// The entries in order: each key as characters, with its span.
    pub closed spec fn entries_view(&self) -> Seq<(Seq<char>, CommandPosition)> {
        self.entries@.map_values(|e: (String, CommandPosition)| (e.0@, e.1))
    }

    /// No key is held twice.
    pub closed spec fn wf(&self) -> bool {
        distinct_keys(self.entries@)
    }

    /// Every entry stands in the map under the UTF-8 bytes of its key,
    /// and every key of the map is the key of some entry.
    pub proof fn lemma_entries_agree(&self)
        requires
            self.wf(),
        ensures
            forall|i: int|
                0 <= i < self.entries_view().len() ==> {
                    let kb = vstd::utf8::encode_utf8((#[trigger] self.entries_view()[i]).0);
                    &&& self@.contains_key(kb)
                    &&& self@[kb] == self.entries_view()[i].1
                },
            forall|k: Seq<u8>| #[trigger]
                self@.contains_key(k) ==> exists|i: int|
                    0 <= i < self.entries_view().len() && vstd::utf8::encode_utf8(
                        (#[trigger] self.entries_view()[i]).0,
                    ) == k,
            forall|i: int, j: int|
                0 <= i < j < self.entries_view().len() ==> (#[trigger] self.entries_view()[i]).0
                    != (#[trigger] self.entries_view()[j]).0,
    {
        assert forall|i: int| 0 <= i < self.entries_view().len() implies {
            let kb = vstd::utf8::encode_utf8((#[trigger] self.entries_view()[i]).0);
            &&& self@.contains_key(kb)
            &&& self@[kb] == self.entries_view()[i].1
        } by {
            lemma_map_hit(self.entries@, i);
        }
        assert forall|k: Seq<u8>| #[trigger] self@.contains_key(k) implies exists|i: int|
            0 <= i < self.entries_view().len() && vstd::utf8::encode_utf8(
                (#[trigger] self.entries_view()[i]).0,
            ) == k by {
            lemma_map_in_entries(self.entries@, k);
            let i = choose|i: int|
                0 <= i < self.entries@.len() && vstd::utf8::encode_utf8(
                    (#[trigger] self.entries@[i]).0@,
                ) == k;
            assert(0 <= i < self.entries_view().len() && vstd::utf8::encode_utf8(
                self.entries_view()[i].0,
            ) == k);
        }
    }

    /// An empty index.
    pub fn new() -> (r: Self)
        ensures
            r.wf(),
            r@ == Map::<Seq<u8>, CommandPosition>::empty(),
            r.entries_view() == Seq::<(Seq<char>, CommandPosition)>::empty(),
    {
        let r = Index { entries: Vec::new() };
        proof {
            assert(r.entries_view() =~= Seq::<(Seq<char>, CommandPosition)>::empty());
        }
        r
    }

    /// How many keys the index holds.
    pub fn len(&self) -> (r: usize)
        ensures
            r == self.entries_view().len(),
    {
        self.entries.len()
    }

    /// The entry at a position: the key and its span.
    pub fn entry_at(&self, i: usize) -> (r: (String, CommandPosition))
        requires
            i < self.entries_view().len(),
        ensures
            r.0@ == self.entries_view()[i as int].0,
            r.1 == self.entries_view()[i as int].1,
    {
        let e = &self.entries[i];
        (e.0.clone(), e.1)
    }

    /// The span of a key, if the key is live.
    pub fn get(&self, key: &String) -> (r: Option<CommandPosition>)
        requires
            self.wf(),
        ensures
            ({
                let kb = vstd::utf8::encode_utf8(key@);
                match r {
                    Some(p) => self@.contains_key(kb) && self@[kb] == p,
                    None => !self@.contains_key(kb),
                }
            }),
    {
        let mut i: usize = 0;
        while i < self.entries.len()
            invariant
                i <= self.entries@.len(),
                forall|q: int| 0 <= q < i ==> (#[trigger] self.entries@[q]).0@ != key@,
                self.wf(),
            decreases self.entries@.len() - i,
        {
            if self.entries[i].0 == *key {
                proof {
                    lemma_map_hit(self.entries@, i as int);
                }
                return Some(self.entries[i].1);
            }
            i = i + 1;
        }
        proof {
            lemma_map_miss(self.entries@, key@);
        }
        None
    }

    /// Binds the key to a span; returns the span it replaces, if the
    /// key was live already.
    pub fn insert(&mut self, key: String, pos: CommandPosition) -> (r: Option<CommandPosition>)
        requires
            old(self).wf(),
        ensures
            final(self).wf(),
            final(self)@ == old(self)@.insert(vstd::utf8::encode_utf8(key@), pos),
            ({
                let kb = vstd::utf8::encode_utf8(key@);
                match r {
                    Some(p) => old(self)@.contains_key(kb) && old(self)@[kb] == p,
                    None => !old(self)@.contains_key(kb),
                }
            }),
            live_total(final(self).entries_view()) == live_total(old(self).entries_view())
                + pos.length - (match r {
                Some(p) => p.length as int,
                None => 0,
            }),
    {
        let replaced = self.remove(&key);
        let ghost pre = self.entries@;
        let ghost pre_ev = self.entries_view();
        self.entries.push((key, pos));
        proof {
            assert(self.entries_view().drop_last() =~= pre_ev);
            assert(self.entries_view().last() == (key@, pos));
            assert(live_total(self.entries_view()) == live_total(pre_ev) + pos.length);
        }
        proof {
            assert(self.entries@.drop_last() =~= pre);
            assert(forall|q: int| 0 <= q < pre.len() ==> (#[trigger] pre[q]).0@ != key@) by {
                if exists|q: int| 0 <= q < pre.len() && (#[trigger] pre[q]).0@ == key@ {
                    let q = choose|q: int| 0 <= q < pre.len() && (#[trigger] pre[q]).0@ == key@;
                    lemma_map_hit(pre, q);
                }
            }
            assert(final(self)@ == old(self)@.remove(vstd::utf8::encode_utf8(key@)).insert(
                vstd::utf8::encode_utf8(key@),
                pos,
            ));
            assert(old(self)@.remove(vstd::utf8::encode_utf8(key@)).insert(
                vstd::utf8::encode_utf8(key@),
                pos,
            ) =~= old(self)@.insert(vstd::utf8::encode_utf8(key@), pos));
        }
        replaced
    }

    /// Unbinds the key; returns the span it was bound to, if any.
    pub fn remove(&mut self, key: &String) -> (r: Option<CommandPosition>)
        requires
            old(self).wf(),
        ensures
            final(self).wf(),
            final(self)@ == old(self)@.remove(vstd::utf8::encode_utf8(key@)),
            ({
                let kb = vstd::utf8::encode_utf8(key@);
                match r {
                    Some(p) => old(self)@.contains_key(kb) && old(self)@[kb] == p,
                    None => !old(self)@.contains_key(kb) && final(self)@ == old(self)@,
                }
            }),
            r matches Some(p) ==> live_total(final(self).entries_view()) == live_total(
                old(self).entries_view(),
            ) - p.length,
            r is None ==> final(self).entries_view() == old(self).entries_view(),
    {
        let mut i: usize = 0;
        while i < self.entries.len()
            invariant
                i <= self.entries@.len(),
                forall|q: int| 0 <= q < i ==> (#[trigger] self.entries@[q]).0@ != key@,
                self.wf(),
                self.entries@ == old(self).entries@,
            decreases self.entries@.len() - i,
        {
            if self.entries[i].0 == *key {
                proof {
                    lemma_map_hit(self.entries@, i as int);
                    lemma_map_remove(self.entries@, i as int);
                }
                let p = self.entries[i].1;
                self.entries.remove(i);
                proof {
                    assert forall|q: int|
                        0 <= q < self.entries@.len() implies self.entries_view()[q] == old(
                        self,
                    ).entries_view().remove(i as int)[q] by {
                        assert(self.entries_view()[q] == (self.entries@[q].0@, self.entries@[q].1));
                        if q < i {
                            assert(self.entries@[q] == old(self).entries@[q]);
                            assert(old(self).entries_view()[q] == (
                                old(self).entries@[q].0@,
                                old(self).entries@[q].1,
                            ));
                        } else {
                            assert(self.entries@[q] == old(self).entries@[q + 1]);
                            assert(old(self).entries_view()[q + 1] == (
                                old(self).entries@[q + 1].0@,
                                old(self).entries@[q + 1].1,
                            ));
                        }
                    }
                    assert(self.entries_view() =~= old(self).entries_view().remove(i as int));
                    lemma_live_total_remove(old(self).entries_view(), i as int);
                    assert(old(self).entries_view()[i as int].1 == p);
                }
                proof {
                    assert forall|a: int, b: int|
                        0 <= a < b < self.entries@.len() implies (#[trigger] self.entries@[a]).0@
                        != (#[trigger] self.entries@[b]).0@ by {
                        assert(self.entries@[a] == if a < i {
                            old(self).entries@[a]
                        } else {
                            old(self).entries@[a + 1]
                        });
                        assert(self.entries@[b] == if b < i {
                            old(self).entries@[b]
                        } else {
                            old(self).entries@[b + 1]
                        });
                    }
                }
                return Some(p);
            }
            i = i + 1;
        }
        proof {
            lemma_map_miss(self.entries@, key@);
            assert(final(self)@ =~= old(self)@.remove(vstd::utf8::encode_utf8(key@)));
        }
        None
    }
}

} // verus!
