//! The table of registered aborts.
//!
//! Entries lie in a dense vector with a hash index from key to position. A histogram of key
//! lengths tells which prefixes of a request id can be registered at all, so that a lookup
//! probes one prefix for each distinct key length and not one for each byte of the id.
use std::collections::BTreeMap;

use vstd::hash_map::StringHashMap;
use vstd::prelude::*;

use crate::state::{AbortInfo, Entry};
use crate::text::{len_in_bytes, prefix_at};

verus! {

/// An entry with its key.
pub struct Slot {
    key: String,
    entry: Entry,
}

/// The keys of `dom` whose encoding has `len` bytes.
pub open spec fn keys_of_len(dom: Set<Seq<char>>, len: usize) -> Set<Seq<char>> {
    dom.filter(|k: Seq<char>| crate::text::byte_len(k) == len)
}

/// Whether `hist` maps each length of a key in `dom` to the number of keys of that length, and
/// holds no other length.
pub open spec fn counts_lengths(hist: Map<usize, usize>, dom: Set<Seq<char>>) -> bool {
    forall|len: usize| #![trigger hist.contains_key(len)] #![trigger keys_of_len(dom, len)]
        (hist.contains_key(len) <==> keys_of_len(dom, len).len() > 0) && (hist.contains_key(len)
            ==> hist[len] == keys_of_len(dom, len).len())
}

/// Counting a new key of `len` bytes.
proof fn lemma_count_insert(
    hist: Map<usize, usize>,
    dom: Set<Seq<char>>,
    key: Seq<char>,
    len: usize,
    count: usize,
)
    requires
        counts_lengths(hist, dom),
        dom.finite(),
        !dom.contains(key),
        crate::text::byte_len(key) == len,
        count == keys_of_len(dom, len).len() + 1,
    ensures
        counts_lengths(hist.insert(len, count), dom.insert(key)),
{
    let more = hist.insert(len, count);
    assert forall|l: usize|
        #![trigger more.contains_key(l)]
        #![trigger keys_of_len(dom.insert(key), l)]
        (more.contains_key(l) <==> keys_of_len(dom.insert(key), l).len() > 0) && (
        more.contains_key(l) ==> more[l] == keys_of_len(dom.insert(key), l).len()) by {
        if l == len {
            assert(keys_of_len(dom.insert(key), l) =~= keys_of_len(dom, l).insert(key));
        } else {
            assert(keys_of_len(dom.insert(key), l) =~= keys_of_len(dom, l));
            assert(hist.contains_key(l) <==> more.contains_key(l));
        }
    }
}

/// Taking a key of `len` bytes out of the count.
proof fn lemma_count_remove(
    hist: Map<usize, usize>,
    less: Map<usize, usize>,
    dom: Set<Seq<char>>,
    key: Seq<char>,
    len: usize,
)
    requires
        counts_lengths(hist, dom),
        dom.finite(),
        dom.contains(key),
        crate::text::byte_len(key) == len,
        less == if hist[len] == 1 {
            hist.remove(len)
        } else {
            hist.insert(len, (hist[len] - 1) as usize)
        },
    ensures
        counts_lengths(less, dom.remove(key)),
{
    assert(keys_of_len(dom, len).contains(key));
    assert(keys_of_len(dom, len).len() > 0) by {
        if keys_of_len(dom, len).len() == 0 {
            assert(keys_of_len(dom, len) =~= Set::empty());
        }
    }
    assert(hist.contains_key(len));
    assert forall|l: usize|
        #![trigger less.contains_key(l)]
        #![trigger keys_of_len(dom.remove(key), l)]
        (less.contains_key(l) <==> keys_of_len(dom.remove(key), l).len() > 0) && (
        less.contains_key(l) ==> less[l] == keys_of_len(dom.remove(key), l).len()) by {
        if l == len {
            assert(keys_of_len(dom.remove(key), l) =~= keys_of_len(dom, l).remove(key));
        } else {
            assert(keys_of_len(dom.remove(key), l) =~= keys_of_len(dom, l));
            assert(hist.contains_key(l) <==> less.contains_key(l));
        }
    }
}

/// The keys of an ordered map come in increasing order.
proof fn lemma_increasing(s: Seq<usize>)
    requires
        vstd::std_specs::btree::increasing_seq(s),
    ensures
        forall|i: int, j: int| 0 <= i < j < s.len() ==> s[i] < s[j],
{
    broadcast use vstd::laws_cmp::group_laws_cmp;
    broadcast use vstd::std_specs::btree::axiom_increasing_seq_meaning;

    assert(vstd::laws_cmp::obeys_cmp::<usize>());
    assert forall|i: int, j: int| 0 <= i < j < s.len() implies s[i] < s[j] by {
        assert(vstd::std_specs::cmp::OrdSpec::cmp_spec(&s[i], &s[j]) is Less);
    }
}

/// The registered aborts.
pub struct Inner {
    slots: Vec<Slot>,
    index: StringHashMap<usize>,
    /// Key length in bytes, to the number of keys of that length.
    len_hist: BTreeMap<usize, usize>,
}

impl View for Inner {
    type V = Map<Seq<char>, Entry>;

    closed spec fn view(&self) -> Map<Seq<char>, Entry> {
        Map::new(
            |k: Seq<char>| self.index@.contains_key(k),
            |k: Seq<char>| self.slots@[self.index@[k] as int].entry,
        )
    }
}

impl Inner {
    /// The index and the vector agree.
    spec fn indexed(self) -> bool {
        &&& forall|i: int| #![trigger self.slots@[i]]
            0 <= i < self.slots@.len() ==> self.index@.contains_key(self.slots@[i].key@)
                && self.index@[self.slots@[i].key@] == i
        &&& forall|k: Seq<char>| #[trigger]
            self.index@.contains_key(k) ==> self.index@[k] < self.slots@.len()
                && self.slots@[self.index@[k] as int].key@ == k
    }

    /// Where the entries lie.
    pub closed spec fn layout(self) -> (Seq<Slot>, Map<Seq<char>, usize>) {
        (self.slots@, self.index@)
    }

    /// The histogram of key lengths.
    pub closed spec fn lengths(self) -> Map<usize, usize> {
        self.len_hist@
    }

    /// The index and the vector agree, and the histogram counts the keys by length.
    pub closed spec fn wf(self) -> bool {
        &&& self.indexed()
        &&& self@.dom().finite()
        &&& self@.len() == self.slots@.len()
        &&& forall|k: Seq<char>| #[trigger]
            self@.contains_key(k) ==> crate::text::byte_len(k) <= usize::MAX
        &&& counts_lengths(self.len_hist@, self@.dom())
    }

    /// A table has finitely many entries.
    pub proof fn lemma_finite(self)
        requires
            self.wf(),
        ensures
            self@.dom().finite(),
    {
    }

    /// An empty table.
    pub fn new() -> (table: Inner)
        ensures
            table.wf(),
            table@ == Map::<Seq<char>, Entry>::empty(),
    {
        let table = Inner {
            slots: Vec::new(),
            index: StringHashMap::new(),
            len_hist: BTreeMap::new(),
        };
        assert(table@ =~= Map::<Seq<char>, Entry>::empty());
        assert forall|len: usize| keys_of_len(table@.dom(), len).len() == 0 by {
            assert(keys_of_len(table@.dom(), len) =~= Set::empty());
        }
        table
    }

    /// Takes one key of `len` bytes out of the histogram.
    pub fn remove_len(&mut self, len: usize)
        requires
            old(self).lengths().contains_key(len) ==> old(self).lengths()[len] > 0,
        ensures
            final(self)@ == old(self)@,
            final(self).layout() == old(self).layout(),
            final(self).lengths() == if !old(self).lengths().contains_key(len) {
                old(self).lengths()
            } else if old(self).lengths()[len] == 1 {
                old(self).lengths().remove(len)
            } else {
                old(self).lengths().insert(len, (old(self).lengths()[len] - 1) as usize)
            },
    {
        let count: Option<usize> = match self.len_hist.get(&len) {
            Some(c) => Some(*c),
            None => None,
        };
        if let Some(c) = count {
            if c == 1 {
                self.len_hist.remove(&len);
            } else {
                self.len_hist.insert(len, c - 1);
            }
        }
    }

    /// The length of every registered key is among the lengths that a walk over the histogram
    /// visits.
    proof fn lemma_length_visited(self, visits: Seq<(&usize, &usize)>, k: Seq<char>)
        requires
            self.wf(),
            self@.contains_key(k),
            visits == vstd::std_specs::iter::IteratorSpec::remaining(
                &vstd::std_specs::btree::spec_btree_map_iter(&self.len_hist),
            ),
        ensures
            exists|j: int|
                0 <= j < visits.len() && *(#[trigger] visits[j]).0 == crate::text::byte_len(k),
    {
        broadcast use vstd::std_specs::btree::axiom_spec_btree_map_iter;

        let len = crate::text::byte_len(k) as usize;
        let same = keys_of_len(self@.dom(), len);
        assert(same.contains(k));
        assert(same.len() > 0) by {
            if same.len() == 0 {
                assert(same =~= Set::empty());
            }
        }
        assert(self.len_hist@.contains_key(len));
        assert(visits.contains((&len, &self.len_hist@[len])));
    }

    /// The position of the entry with the shortest key that `rid` starts with.
    fn find(&self, rid: &str) -> (pos: Option<usize>)
        requires
            self.wf(),
        ensures
            match pos {
                Some(i) => {
                    &&& i < self.slots@.len()
                    &&& crate::state::shortest_match(self@, rid@, self.slots@[i as int].key@)
                    &&& self.slots@[i as int].key@ == crate::state::matching_key(self@, rid@)
                },
                None => forall|k: Seq<char>| #[trigger]
                    self@.contains_key(k) ==> !k.is_prefix_of(rid@),
            },
    {
        let total: usize = len_in_bytes(rid);
        for probe in it: self.len_hist.iter()
            invariant
                self.wf(),
                total == crate::text::byte_len(rid@),
                it.seq() == vstd::std_specs::iter::IteratorSpec::remaining(
                    &vstd::std_specs::btree::spec_btree_map_iter(&self.len_hist),
                ),
                vstd::std_specs::btree::increasing_seq(
                    it.seq().map_values(|kv: (&usize, &usize)| *kv.0),
                ),
                forall|j: int, k: Seq<char>|
                    0 <= j < it.index() && #[trigger] self@.contains_key(k) && k.is_prefix_of(rid@)
                        ==> crate::text::byte_len(k) != *(#[trigger] it.seq()[j]).0,
        {
            let len: usize = *probe.0;
            let ghost visits = it.seq();
            let ghost at = it.index();
            // A registered prefix of `rid` is at least as long as the one probed here.
            assert forall|k: Seq<char>| #[trigger]
                self@.contains_key(k) && k.is_prefix_of(rid@) implies crate::text::byte_len(k)
                >= len by {
                let lens = visits.map_values(|kv: (&usize, &usize)| *kv.0);
                lemma_increasing(lens);
                self.lemma_length_visited(visits, k);
                let j = choose|j: int|
                    0 <= j < visits.len() && *(#[trigger] visits[j]).0 == crate::text::byte_len(k);
                assert(lens[j] == *visits[j].0);
                assert(lens[at] == *visits[at].0);
                assert(j >= at);
            }
            if len > total {
                assert forall|k: Seq<char>| #[trigger] self@.contains_key(k) implies
                    !k.is_prefix_of(rid@) by {
                    if k.is_prefix_of(rid@) {
                        crate::text::lemma_prefix_bytes(k, rid@);
                    }
                }
                return None;
            }
            if let Some(prefix) = prefix_at(rid, len) {
                if let Some(i) = self.index.get(prefix) {
                    assert forall|k: Seq<char>| #[trigger]
                        self@.contains_key(k) && k.is_prefix_of(rid@) implies prefix@.len()
                        <= k.len() by {
                        crate::text::lemma_prefix_order(prefix@, k, rid@);
                    }
                    proof {
                        assert(self@.contains_key(prefix@));
                        crate::state::lemma_matching_key(self@, rid@);
                        crate::state::lemma_shortest_unique(
                            self@,
                            rid@,
                            prefix@,
                            crate::state::matching_key(self@, rid@),
                        );
                    }
                    return Some(*i);
                }
                assert forall|k: Seq<char>| #[trigger]
                    self@.contains_key(k) && k.is_prefix_of(rid@) implies crate::text::byte_len(k)
                    != len by {
                    crate::text::lemma_prefix_order(prefix@, k, rid@);
                }
            }
        }
        assert forall|k: Seq<char>| #[trigger] self@.contains_key(k) implies !k.is_prefix_of(
            rid@,
        ) by {
            self.lemma_length_visited(
                vstd::std_specs::iter::IteratorSpec::remaining(
                    &vstd::std_specs::btree::spec_btree_map_iter(&self.len_hist),
                ),
                k,
            );
        }
        None
    }

    /// The number of entries.
    pub fn len(&self) -> (n: usize)
        requires
            self.wf(),
        ensures
            n == self@.len(),
    {
        self.slots.len()
    }

    /// The entry registered under exactly `rid`.
    pub fn get(&self, rid: &str) -> (entry: Option<Entry>)
        requires
            self.wf(),
        ensures
            entry == if self@.contains_key(rid@) {
                Some(self@[rid@])
            } else {
                None
            },
    {
        match self.index.get(rid) {
            Some(i) => Some(self.slots[*i].entry),
            None => None,
        }
    }

    /// Whether some registered key is a prefix of `rid`.
    pub fn covers(&self, rid: &str) -> (found: bool)
        requires
            self.wf(),
        ensures
            found == crate::state::covered(self@, rid@),
    {
        self.find(rid).is_some()
    }

    /// Counts one more hit for the entry at `i`.
    fn count_hit(&mut self, i: usize)
        requires
            old(self).wf(),
            i < old(self).slots@.len(),
        ensures
            final(self).wf(),
            final(self)@ == crate::state::with_hit(old(self)@, old(self).slots@[i as int].key@),
    {
        let hits: u32 = self.slots[i].entry.hits;
        self.slots[i].entry.hits = hits.wrapping_add(1);
        proof {
            let key = old(self).slots@[i as int].key@;
            assert(self@ =~= crate::state::with_hit(old(self)@, key));
            assert(self@.dom() =~= old(self)@.dom());
        }
    }

    /// Looks `rid` up and counts a hit for the entry that it matches. Says whether there was one.
    pub fn hit(&mut self, rid: &str) -> (found: bool)
        requires
            old(self).wf(),
        ensures
            final(self).wf(),
            found == crate::state::covered(old(self)@, rid@),
            final(self)@ == if found {
                crate::state::with_hit(
                    old(self)@,
                    crate::state::matching_key(old(self)@, rid@),
                )
            } else {
                old(self)@
            },
    {
        match self.find(rid) {
            Some(i) => {
                self.count_hit(i);
                true
            },
            None => false,
        }
    }

    /// Looks `rid` up, counts a hit for the entry that it matches, and tells of that entry.
    pub fn hit_info(&mut self, rid: &str) -> (info: Option<AbortInfo>)
        requires
            old(self).wf(),
        ensures
            final(self).wf(),
            info is Some <==> crate::state::covered(old(self)@, rid@),
            match info {
                Some(info) => {
                    let key = crate::state::matching_key(old(self)@, rid@);
                    &&& info.key@ == key
                    &&& info.reason == old(self)@[key].reason
                    &&& info.epoch == old(self)@[key].epoch
                    &&& final(self)@ == crate::state::with_hit(old(self)@, key)
                },
                None => final(self)@ == old(self)@,
            },
    {
        match self.find(rid) {
            Some(i) => {
                let info = AbortInfo {
                    key: self.slots[i].key.clone(),
                    reason: self.slots[i].entry.reason,
                    epoch: self.slots[i].entry.epoch,
                };
                self.count_hit(i);
                Some(info)
            },
            None => None,
        }
    }

    /// Registers `entry` under the new key `rid`.
    pub fn insert(&mut self, rid: &str, entry: Entry)
        requires
            old(self).wf(),
            !old(self)@.contains_key(rid@),
        ensures
            final(self).wf(),
            final(self)@ == old(self)@.insert(rid@, entry),
    {
        let at: usize = self.slots.len();
        let len: usize = len_in_bytes(rid);
        self.slots.push(Slot { key: rid.to_owned(), entry });
        self.index.insert(rid.to_owned(), at);
        let total: usize = self.slots.len();
        let count: usize = match self.len_hist.get(&len) {
            Some(c) => *c,
            None => 0,
        };
        proof {
            vstd::set_lib::lemma_len_subset(keys_of_len(old(self)@.dom(), len), old(self)@.dom());
            lemma_count_insert(
                self.len_hist@,
                old(self)@.dom(),
                rid@,
                len,
                (count + 1) as usize,
            );
        }
        self.len_hist.insert(len, count + 1);
        proof {
            assert(self@ =~= old(self)@.insert(rid@, entry));
            assert(self@.dom() =~= old(self)@.dom().insert(rid@));
        }
    }

    /// Takes out the entry at `i`; the last entry moves into its place.
    fn remove_at(&mut self, i: usize)
        requires
            old(self).wf(),
            i < old(self).slots@.len(),
        ensures
            final(self).wf(),
            final(self)@ == old(self)@.remove(old(self).slots@[i as int].key@),
            final(self).slots@ == old(self).slots@.update(
                i as int,
                old(self).slots@.last(),
            ).drop_last(),
    {
        let gone = self.slots.swap_remove(i);
        let len: usize = len_in_bytes(gone.key.as_str());
        self.index.remove(gone.key.as_str());
        if i < self.slots.len() {
            let moved = self.slots[i].key.clone();
            self.index.insert(moved, i);
        }
        proof {
            lemma_count_remove(
                self.len_hist@,
                if self.len_hist@[len] == 1 {
                    self.len_hist@.remove(len)
                } else {
                    self.len_hist@.insert(len, (self.len_hist@[len] - 1) as usize)
                },
                old(self)@.dom(),
                gone.key@,
                len,
            );
            assert(keys_of_len(old(self)@.dom(), len).contains(gone.key@));
        }
        self.remove_len(len);
        proof {
            assert(self@ =~= old(self)@.remove(gone.key@));
            assert(self@.dom() =~= old(self)@.dom().remove(gone.key@));
        }
    }

    /// Takes out the entry registered under exactly `rid`. Says whether there was one.
    pub fn remove(&mut self, rid: &str) -> (found: bool)
        requires
            old(self).wf(),
        ensures
            final(self).wf(),
            found == old(self)@.contains_key(rid@),
            final(self)@ == old(self)@.remove(rid@),
    {
        let at: Option<usize> = match self.index.get(rid) {
            Some(i) => Some(*i),
            None => None,
        };
        match at {
            Some(i) => {
                self.remove_at(i);
                true
            },
            None => {
                assert(self@.remove(rid@) =~= self@);
                false
            },
        }
    }

    /// Takes out the entries that are older than `ttl` when the clock reads `now`, and says how
    /// many there were.
    pub fn remove_outlived(&mut self, now: u128, ttl: u128) -> (removed: usize)
        requires
            old(self).wf(),
        ensures
            final(self).wf(),
            final(self)@ == old(self)@.remove_keys(
                crate::state::outlived_keys(old(self)@, now, ttl),
            ),
            removed == crate::state::outlived_keys(old(self)@, now, ttl).len(),
    {
        let total: usize = self.slots.len();
        let mut i: usize = 0;
        let mut removed: usize = 0;
        let ghost entries = self@;
        let ghost old_keys = crate::state::outlived_keys(entries, now, ttl);
        let ghost mut gone: Set<Seq<char>> = Set::empty();
        assert(self@ =~= entries.remove_keys(gone));
        while i < self.slots.len()
            invariant
                self.wf(),
                i <= self.slots@.len(),
                removed + self.slots@.len() == total,
                removed == gone.len(),
                gone.finite(),
                gone.subset_of(old_keys),
                old_keys == crate::state::outlived_keys(entries, now, ttl),
                self@ == entries.remove_keys(gone),
                forall|j: int|
                    0 <= j < i ==> !crate::state::outlived(
                        (#[trigger] self.slots@[j]).entry,
                        now,
                        ttl,
                    ),
            decreases self.slots@.len() - i,
        {
            let created: u128 = self.slots[i].entry.created;
            let ghost key = self.slots@[i as int].key@;
            assert(self@.contains_key(key));
            assert(self@[key] == self.slots@[i as int].entry);
            if now > created && now - created > ttl {
                assert(old_keys.contains(key));
                self.remove_at(i);
                removed = removed + 1;
                proof {
                    assert(self@ =~= entries.remove_keys(gone.insert(key)));
                    gone = gone.insert(key);
                }
            } else {
                i = i + 1;
            }
        }
        proof {
            assert forall|k: Seq<char>| old_keys.contains(k) implies gone.contains(k) by {
                if !gone.contains(k) {
                    assert(self@.contains_key(k));
                    let j = self.index@[k] as int;
                    assert(entries.remove_keys(gone)[k] == entries[k]);
                    assert(self@[k] == self.slots@[j].entry);
                    assert(!crate::state::outlived(self.slots@[j].entry, now, ttl));
                }
            }
            assert(gone =~= old_keys);
        }
        removed
    }
}

} // verus!
