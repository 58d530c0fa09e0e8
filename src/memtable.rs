//! The in-memory table of writes not yet flushed, ordered by key.
use vstd::prelude::*;
use crate::codec::{copy_bytes, record_bytes};
use std::collections::BTreeMap;
use vstd::std_specs::btree::spec_btree_map_iter;
use vstd::std_specs::cmp::OrdSpec;
use vstd::std_specs::iter::IteratorSpec;

verus! {

broadcast use vstd::std_specs::btree::group_btree_axioms, vstd::laws_cmp::group_laws_cmp;

/// The entries' keys strictly increase.
pub open spec fn sorted(s: Seq<(u64, Vec<u8>)>) -> bool {
    forall|i: int, j: int| 0 <= i < j < s.len() ==> s[i].0 < s[j].0
}

/// The map that a run of entries describes, later entries overriding earlier.
pub open spec fn entries_map(s: Seq<(u64, Vec<u8>)>) -> Map<u64, Seq<u8>>
    decreases s.len(),
{
    if s.len() == 0 {
        Map::empty()
    } else {
        entries_map(s.drop_last()).insert(s.last().0, s.last().1@)
    }
}

/// The encoded records of a run of entries, in order.
pub open spec fn records_of(s: Seq<(u64, Vec<u8>)>) -> Seq<u8>
    decreases s.len(),
{
    if s.len() == 0 {
        Seq::empty()
    } else {
        records_of(s.drop_last()) + record_bytes(s.last().0, s.last().1@)
    }
}

/// In a sorted run, a key is present exactly where an entry has it, with that
/// entry's payload.
pub proof fn lemma_entries_map(s: Seq<(u64, Vec<u8>)>)
    requires
        sorted(s),
    ensures
        forall|k: u64| #[trigger] entries_map(s).contains_key(k) <==> exists|i: int| 0 <= i < s.len() && s[i].0 == k,
        forall|i: int| 0 <= i < s.len() ==> #[trigger] entries_map(s)[s[i].0] == s[i].1@,
    decreases s.len(),
{
    if s.len() > 0 {
        let t = s.drop_last();
        assert(sorted(t)) by {
            assert forall|i: int, j: int| 0 <= i < j < t.len() implies t[i].0 < t[j].0 by {
                assert(t[i] == s[i] && t[j] == s[j]);
            }
        }
        lemma_entries_map(t);
        assert forall|k: u64| #[trigger] entries_map(s).contains_key(k) implies exists|i: int| 0 <= i < s.len() && s[i].0 == k by {
            if k != s.last().0 {
                assert(entries_map(t).contains_key(k));
                let i = choose|i: int| 0 <= i < t.len() && t[i].0 == k;
                assert(s[i].0 == k);
            } else {
                assert(s[s.len() - 1].0 == k);
            }
        }
        assert forall|i: int| 0 <= i < s.len() implies #[trigger] entries_map(s)[s[i].0] == s[i].1@ by {
            if i < s.len() - 1 {
                assert(t[i] == s[i]);
                assert(s[i].0 < s[s.len() - 1].0);
                assert(entries_map(t)[t[i].0] == t[i].1@);
            }
        }
        assert forall|k: u64| (exists|i: int| 0 <= i < s.len() && s[i].0 == k) implies #[trigger] entries_map(s).contains_key(k) by {
            let i = choose|i: int| 0 <= i < s.len() && s[i].0 == k;
            if i < s.len() - 1 {
                assert(t[i].0 == k);
                assert(entries_map(t).contains_key(k));
            }
        }
    }
}

/// Extending a run by one entry extends its map by that entry.
pub proof fn lemma_entries_map_push(s: Seq<(u64, Vec<u8>)>, e: (u64, Vec<u8>))
    ensures
        entries_map(s.push(e)) == entries_map(s).insert(e.0, e.1@),
        records_of(s.push(e)) == records_of(s) + record_bytes(e.0, e.1@),
{
    assert(s.push(e).drop_last() =~= s);
}

/// `s` lists the entries of `c` in strictly ascending key order.
pub open spec fn ascending_entries(c: Map<u64, Seq<u8>>, s: Seq<(u64, Vec<u8>)>) -> bool {
    sorted(s) && entries_map(s) == c
}

/// Buffered writes, at most one per key, and the byte count that decides when
/// they are flushed.
pub struct MemTable {
    pub map: BTreeMap<u64, Vec<u8>>,
    pub size: u64,
}

impl MemTable {
    /// The buffered document of each key.
    pub open spec fn contents(&self) -> Map<u64, Seq<u8>> {
        Map::new(|k: u64| self.map@.contains_key(k), |k: u64| self.map@[k]@)
    }

    /// An empty table.
    pub fn new() -> (r: MemTable)
        ensures
            r.contents() == Map::<u64, Seq<u8>>::empty(),
            r.size == 0,
    {
        let r = MemTable { map: BTreeMap::new(), size: 0 };
        assert(r.contents() =~= Map::<u64, Seq<u8>>::empty());
        r
    }

    /// The number of buffered keys.
    pub fn len(&self) -> (r: usize)
        ensures
            r == self.contents().dom().len(),
    {
        assert(self.contents().dom() =~= self.map@.dom());
        self.map.len()
    }

    /// The buffered document of `key`.
    pub fn get(&self, key: u64) -> (r: Option<Vec<u8>>)
        ensures
            match r {
                Some(v) => self.contents().contains_key(key) && v@ == self.contents()[key],
                None => !self.contents().contains_key(key),
            },
    {
        match self.map.get(&key) {
            Some(v) => Some(copy_bytes(v.as_slice())),
            None => None,
        }
    }

    /// The buffered entries in ascending key order.
    pub fn entries(&self) -> (r: Vec<(u64, Vec<u8>)>)
        ensures
            ascending_entries(self.contents(), r@),
    {
        let mut r: Vec<(u64, Vec<u8>)> = Vec::new();
        let ghost s0 = spec_btree_map_iter(&self.map).remaining();
        let it0 = self.map.iter();
        proof {
            let ks = s0.map_values(|kv: (&u64, &Vec<u8>)| *kv.0);
            vstd::std_specs::btree::axiom_increasing_seq_meaning(ks);
        }
        for kv in it: it0
            invariant
                it.seq() == s0,
                r@.len() == it.index(),
                forall|i: int| 0 <= i < it.index() ==> (#[trigger] r@[i]).0 == *s0[i].0 && r@[i].1@ == (*s0[i].1)@,
        {
            r.push((*kv.0, copy_bytes(kv.1.as_slice())));
        }
        proof {
            let ks = s0.map_values(|kv: (&u64, &Vec<u8>)| *kv.0);
            assert(r@.len() == s0.len());
            assert(sorted(r@)) by {
                assert forall|i: int, j: int| 0 <= i < j < r@.len() implies r@[i].0 < r@[j].0 by {
                    assert(ks[i].cmp_spec(&ks[j]) is Less);
                }
            }
            lemma_entries_map(r@);
            assert forall|k: u64| #[trigger] entries_map(r@).contains_key(k) == self.contents().contains_key(k) by {
                if self.map@.contains_key(k) {
                    assert(s0.contains((&k, &self.map@[k])));
                    let i = choose|i: int| 0 <= i < s0.len() && s0[i] == (&k, &self.map@[k]);
                    assert(r@[i].0 == k);
                }
                if entries_map(r@).contains_key(k) {
                    let i = choose|i: int| 0 <= i < r@.len() && r@[i].0 == k;
                    assert(self.map@.contains_key(*s0[i].0));
                }
            }
            assert forall|k: u64| #[trigger] entries_map(r@).contains_key(k) implies entries_map(r@)[k] == self.contents()[k] by {
                let i = choose|i: int| 0 <= i < r@.len() && r@[i].0 == k;
                assert(self.map@[*s0[i].0] == *s0[i].1);
            }
            assert(entries_map(r@) =~= self.contents());
        }
        r
    }

    /// Buffers `value` under `key`, replacing any buffered value of it, and
    /// adds the payload's length to the byte count.
    pub fn put(&mut self, key: u64, value: Vec<u8>)
        requires
            old(self).size + value@.len() <= u64::MAX,
        ensures
            final(self).contents() == old(self).contents().insert(key, value@),
            final(self).size == old(self).size + value@.len(),
    {
        let n = value.len() as u64;
        let ghost v = value@;
        self.map.insert(key, value);
        self.size = self.size + n;
        assert(self.contents() =~= old(self).contents().insert(key, v));
    }

    /// Empties the table and resets the byte count.
    pub fn clear(&mut self)
        ensures
            final(self).contents() == Map::<u64, Seq<u8>>::empty(),
            final(self).size == 0,
    {
        self.map.clear();
        self.size = 0;
        assert(self.contents() =~= Map::<u64, Seq<u8>>::empty());
    }
}

} // verus!
