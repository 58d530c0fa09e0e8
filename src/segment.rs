//! One segment: an append-only image of records and the index that maps each
//! key to the offset of its latest record in that image.
use vstd::prelude::*;
use std::collections::BTreeMap;
use vstd::std_specs::btree::{increasing_seq, spec_btree_map_iter};
use vstd::std_specs::iter::IteratorSpec;
use vstd::std_specs::cmp::OrdSpec;
use crate::codec::{
    append_record, encodes_uniquely, key_at, len_at, lemma_u64_of_encoding, next_at, read_u64,
    read_value, record_bytes, record_ok, value_at,
};
use crate::DbError;

verus! {

broadcast use vstd::std_specs::btree::group_btree_axioms, vstd::laws_cmp::group_laws_cmp;

/// The index a sequential scan builds from offset `off` on, starting from
/// `idx`: each record maps its key to its own offset, later records
/// overriding earlier ones. `None` where a record is cut short.
pub open spec fn scan_from(data: Seq<u8>, off: int, idx: Map<u64, u64>) -> Option<Map<u64, u64>>
    decreases data.len() - off,
{
    if off >= data.len() {
        Some(idx)
    } else if off < 0 || off + 16 > data.len() || next_at(data, off) > data.len() {
        None
    } else {
        scan_from(data, next_at(data, off), idx.insert(key_at(data, off), off as u64))
    }
}

/// The index of a whole image, or `None` where the image is corrupt.
pub open spec fn index_of(data: Seq<u8>) -> Option<Map<u64, u64>> {
    scan_from(data, 0, Map::empty())
}

/// The documents of an image under an index: each key's payload.
pub open spec fn contents_of(data: Seq<u8>, index: Map<u64, u64>) -> Map<u64, Seq<u8>> {
    Map::new(|k: u64| index.contains_key(k), |k: u64| value_at(data, index[k] as int))
}

/// The image that keeps, in file order, only those records from `off` on
/// that `idx` points at: for each key, its latest record.
pub open spec fn compacted_from(data: Seq<u8>, idx: Map<u64, u64>, off: int) -> Seq<u8>
    decreases data.len() - off,
{
    if off < 0 || off >= data.len() || off + 16 > data.len() || next_at(data, off) > data.len() {
        Seq::empty()
    } else {
        let rest = compacted_from(data, idx, next_at(data, off));
        let k = key_at(data, off);
        if idx.contains_key(k) && idx[k] == off as u64 {
            record_bytes(k, value_at(data, off)) + rest
        } else {
            rest
        }
    }
}


/// `ks` lists the keys of `idx` in strictly ascending order.
pub open spec fn ascending_keys_of(ks: Seq<u64>, idx: Map<u64, u64>) -> bool {
    &&& forall|i: int, j: int| 0 <= i < j < ks.len() ==> ks[i] < ks[j]
    &&& forall|k: u64| #[trigger] ks.contains(k) <==> idx.contains_key(k)
}

/// The records of `keys`, in that order, each with its document in `c`.
pub open spec fn records_in(c: Map<u64, Seq<u8>>, keys: Seq<u64>) -> Seq<u8>
    decreases keys.len(),
{
    if keys.len() == 0 {
        Seq::empty()
    } else {
        records_in(c, keys.drop_last()) + record_bytes(keys.last(), c[keys.last()])
    }
}

/// The number of bytes the records of `keys` take, each with its document in `c`.
pub open spec fn records_size(c: Map<u64, Seq<u8>>, keys: Seq<u64>) -> nat
    decreases keys.len(),
{
    if keys.len() == 0 {
        0
    } else {
        records_size(c, keys.drop_last()) + 16 + c[keys.last()].len()
    }
}

/// A strictly ascending listing of a set of keys is unique.
pub proof fn lemma_ascending_keys_unique(a: Seq<u64>, b: Seq<u64>, idx: Map<u64, u64>)
    requires
        ascending_keys_of(a, idx),
        ascending_keys_of(b, idx),
    ensures
        a == b,
    decreases a.len() + b.len(),
{
    if a.len() == 0 {
        if b.len() > 0 {
            assert(b.contains(b[0]));
            assert(idx.contains_key(b[0]));
            assert(a.contains(b[0]));
        }
        assert(a =~= b);
    } else if b.len() == 0 {
        assert(a.contains(a[0]));
        assert(idx.contains_key(a[0]));
        assert(b.contains(a[0]));
    } else {
        let x = a.last();
        let y = b.last();
        assert(a.contains(x));
        assert(b.contains(y));
        assert(b.contains(x));
        assert(a.contains(y));
        let ix = choose|i: int| 0 <= i < b.len() && b[i] == x;
        let iy = choose|i: int| 0 <= i < a.len() && a[i] == y;
        assert(x == y) by {
            if x < y {
                assert(a[iy] <= a[a.len() - 1]);
            } else if y < x {
                assert(b[ix] <= b[b.len() - 1]);
            }
        }
        let a2 = a.drop_last();
        let b2 = b.drop_last();
        let idx2 = idx.remove(x);
        assert forall|k: u64| #[trigger] a2.contains(k) <==> idx2.contains_key(k) by {
            if a2.contains(k) {
                let i = choose|i: int| 0 <= i < a2.len() && a2[i] == k;
                assert(a[i] == k && a.contains(k));
            }
            if idx2.contains_key(k) {
                assert(a.contains(k));
                let i = choose|i: int| 0 <= i < a.len() && a[i] == k;
                assert(i != a.len() - 1);
                assert(a2[i] == k);
            }
        }
        assert forall|k: u64| #[trigger] b2.contains(k) <==> idx2.contains_key(k) by {
            if b2.contains(k) {
                let i = choose|i: int| 0 <= i < b2.len() && b2[i] == k;
                assert(b[i] == k && b.contains(k));
            }
            if idx2.contains_key(k) {
                assert(b.contains(k));
                let i = choose|i: int| 0 <= i < b.len() && b[i] == k;
                assert(i != b.len() - 1);
                assert(b2[i] == k);
            }
        }
        lemma_ascending_keys_unique(a2, b2, idx2);
        assert(a =~= a2.push(x));
        assert(b =~= b2.push(y));
    }
}

proof fn lemma_records_size_remove(c: Map<u64, Seq<u8>>, s: Seq<u64>, j: int)
    requires
        0 <= j < s.len(),
    ensures
        records_size(c, s) == records_size(c, s.remove(j)) + 16 + c[s[j]].len(),
    decreases s.len(),
{
    if j == s.len() - 1 {
        assert(s.remove(j) =~= s.drop_last());
    } else {
        assert(s.remove(j).drop_last() =~= s.drop_last().remove(j));
        assert(s.remove(j).last() == s.last());
        lemma_records_size_remove(c, s.drop_last(), j);
    }
}

/// Two listings of the same keys, each without repeats, take the same bytes.
#[verifier::rlimit(50)]
proof fn lemma_records_size_perm(c: Map<u64, Seq<u8>>, a: Seq<u64>, b: Seq<u64>)
    requires
        a.no_duplicates(),
        b.no_duplicates(),
        forall|k: u64| #[trigger] a.contains(k) <==> b.contains(k),
    ensures
        records_size(c, a) == records_size(c, b),
    decreases a.len(),
{
    if a.len() == 0 {
        if b.len() > 0 {
            assert(b.contains(b[0]));
            assert(a.contains(b[0]));
        }
        assert(b.len() == 0);
    } else {
        let x = a.last();
        assert(a.contains(x));
        let j = choose|j: int| 0 <= j < b.len() && b[j] == x;
        lemma_records_size_remove(c, b, j);
        let a2 = a.drop_last();
        let b2 = b.remove(j);
        assert forall|k: u64| #[trigger] a2.contains(k) <==> b2.contains(k) by {
            if a2.contains(k) {
                let i = choose|i: int| 0 <= i < a2.len() && a2[i] == k;
                assert(a[i] == k);
                assert(a.contains(k));
                assert(k != x);
                assert(b.contains(k));
                let i2 = choose|i2: int| 0 <= i2 < b.len() && b[i2] == k;
                assert(i2 != j);
                if i2 < j {
                    assert(b2[i2] == k);
                } else {
                    assert(b2[i2 - 1] == k);
                }
            }
            if b2.contains(k) {
                let i = choose|i: int| 0 <= i < b2.len() && b2[i] == k;
                let i2 = if i < j { i } else { i + 1 };
                assert(b[i2] == k);
                assert(b.contains(k));
                assert(i2 != j);
                assert(k != x);
                assert(a.contains(k));
                let i3 = choose|i3: int| 0 <= i3 < a.len() && a[i3] == k;
                assert(i3 != a.len() - 1);
                assert(a2[i3] == k);
            }
        }
        assert(b2.no_duplicates()) by {
            assert forall|p: int, q: int| 0 <= p < q < b2.len() implies b2[p] != b2[q] by {
                let p2 = if p < j { p } else { p + 1 };
                let q2 = if q < j { q } else { q + 1 };
                assert(b2[p] == b[p2] && b2[q] == b[q2]);
            }
        }
        lemma_records_size_perm(c, a2, b2);
        assert(records_size(c, a) == records_size(c, a2) + 16 + c[x].len());
        assert(b[j] == x);
    }
}

/// The live records of an image from `off` on: their keys without repeats,
/// exactly the indexed keys whose record starts at `off` or later, and the
/// bytes they take fit in what remains of the image.
proof fn lemma_live_records(data: Seq<u8>, off: int, cur: Map<u64, u64>, full: Map<u64, u64>) -> (f: Seq<u64>)
    requires
        0 <= off <= data.len(),
        data.len() <= u64::MAX,
        scan_from(data, off, cur) == Some(full),
        forall|k: u64| #[trigger] cur.contains_key(k) ==> cur[k] < off,
        forall|k: u64| #[trigger] full.contains_key(k) ==> record_ok(data, full[k] as int),
    ensures
        f.no_duplicates(),
        forall|k: u64| #[trigger] f.contains(k) <==> full.contains_key(k) && full[k] >= off,
        records_size(contents_of(data, full), f) <= data.len() - off,
    decreases data.len() - off,
{
    if off >= data.len() {
        let f = Seq::<u64>::empty();
        assert forall|k: u64| #[trigger] f.contains(k) <==> full.contains_key(k) && full[k] >= off by {
            if full.contains_key(k) {
                assert(record_ok(data, full[k] as int));
            }
        }
        f
    } else {
        let k0 = key_at(data, off);
        let next = next_at(data, off);
        let c2 = cur.insert(k0, off as u64);
        let f2 = lemma_live_records(data, next, c2, full);
        lemma_scan_below(data, next, c2);
        let c = contents_of(data, full);
        let live = full.contains_key(k0) && full[k0] == off as u64;
        let f = if live { seq![k0] + f2 } else { f2 };
        assert forall|k: u64| #[trigger] f.contains(k) <==> full.contains_key(k) && full[k] >= off by {
            if full.contains_key(k) && full[k] >= off && full[k] < next {
                assert(scan_from(data, next, c2)->0[k] == full[k]);
                assert(c2.contains_key(k) && c2[k] == full[k]);
                assert(k == k0);
            }
            if live && k == k0 {
                assert(f[0] == k0);
            }
            if f2.contains(k) {
                let i = choose|i: int| 0 <= i < f2.len() && f2[i] == k;
                if live {
                    assert(f[i + 1] == k);
                }
            }
            if f.contains(k) && live && k != k0 {
                let i = choose|i: int| 0 <= i < f.len() && f[i] == k;
                assert(f2[i - 1] == k);
            }
        }
        if live {
            assert(!f2.contains(k0));
            assert(f.no_duplicates()) by {
                assert forall|p: int, q: int| 0 <= p < q < f.len() implies f[p] != f[q] by {
                    if p == 0 {
                        assert(f[q] == f2[q - 1]);
                        assert(f2.contains(f2[q - 1]));
                    } else {
                        assert(f[p] == f2[p - 1] && f[q] == f2[q - 1]);
                    }
                }
            }
            lemma_records_size_front(c, k0, f2);
            assert(c[k0] == value_at(data, off));
        }
        f
    }
}

proof fn lemma_records_size_front(c: Map<u64, Seq<u8>>, k: u64, s: Seq<u64>)
    ensures
        records_size(c, seq![k] + s) == 16 + c[k].len() + records_size(c, s),
    decreases s.len(),
{
    if s.len() > 0 {
        assert((seq![k] + s).drop_last() =~= seq![k] + s.drop_last());
        assert((seq![k] + s).last() == s.last());
        lemma_records_size_front(c, k, s.drop_last());
    } else {
        assert(seq![k] + s =~= seq![k]);
        assert(seq![k].drop_last() =~= Seq::<u64>::empty());
        assert(records_size(c, Seq::<u64>::empty()) == 0);
    }
}

/// The entries of an index in ascending key order.
pub fn index_entries(m: &BTreeMap<u64, u64>) -> (r: Vec<(u64, u64)>)
    ensures
        forall|i: int, j: int| 0 <= i < j < r@.len() ==> r@[i].0 < r@[j].0,
        forall|i: int| 0 <= i < r@.len() ==> m@.contains_key(#[trigger] r@[i].0) && m@[r@[i].0] == r@[i].1,
        forall|k: u64| #[trigger] m@.contains_key(k) ==> exists|i: int| 0 <= i < r@.len() && r@[i].0 == k,
{
    let mut r: Vec<(u64, u64)> = Vec::new();
    let ghost s0 = spec_btree_map_iter(m).remaining();
    let entries = m.iter();
    proof {
        let ks = s0.map_values(|kv: (&u64, &u64)| *kv.0);
        assert(increasing_seq(ks));
        vstd::std_specs::btree::axiom_increasing_seq_meaning(ks);
    }
    for kv in it: entries
        invariant
            it.seq() == s0,
            r@.len() == it.index(),
            forall|i: int| 0 <= i < it.index() ==> r@[i] == (*s0[i].0, *s0[i].1),
    {
        r.push((*kv.0, *kv.1));
    }
    assert(r@.len() == s0.len());
    proof {
        let ks = s0.map_values(|kv: (&u64, &u64)| *kv.0);
        assert forall|i: int, j: int| 0 <= i < j < r@.len() implies r@[i].0 < r@[j].0 by {
            assert(ks[i].cmp_spec(&ks[j]) is Less);
        }
        assert forall|k: u64| #[trigger] m@.contains_key(k) implies exists|i: int| 0 <= i < r@.len() && r@[i].0 == k by {
            assert(s0.contains((&k, &m@[k])));
            let i = choose|i: int| 0 <= i < s0.len() && s0[i] == (&k, &m@[k]);
            assert(r@[i].0 == k);
        }
    }
    r
}

/// Scanning past an appended record adds that record's key at its offset.
pub proof fn lemma_scan_append(
    data: Seq<u8>,
    off: int,
    idx: Map<u64, u64>,
    key: u64,
    v: Seq<u8>,
)
    requires
        0 <= off <= data.len(),
        data.len() <= u64::MAX,
        scan_from(data, off, idx) is Some,
        encodes_uniquely(key),
        encodes_uniquely(v.len() as u64),
        v.len() <= u64::MAX,
    ensures
        scan_from(data + record_bytes(key, v), off, idx) == Some(
            scan_from(data, off, idx)->0.insert(key, data.len() as u64),
        ),
    decreases data.len() - off,
{
    let d2 = data + record_bytes(key, v);
    if off == data.len() {
        assert(d2.subrange(off, off + 8) =~= crate::codec::ne_bytes(key));
        assert(d2.subrange(off + 8, off + 16) =~= crate::codec::ne_bytes(v.len() as u64));
        lemma_u64_of_encoding(key);
        lemma_u64_of_encoding(v.len() as u64);
        assert(next_at(d2, off) == d2.len());
        assert(scan_from(d2, d2.len() as int, idx.insert(key, off as u64)) == Some(idx.insert(key, off as u64)));
        assert(scan_from(data, off, idx) == Some(idx));
    } else {
        assert(d2.subrange(off, off + 8) =~= data.subrange(off, off + 8));
        assert(d2.subrange(off + 8, off + 16) =~= data.subrange(off + 8, off + 16));
        assert(key_at(d2, off) == key_at(data, off));
        assert(next_at(d2, off) == next_at(data, off));
        lemma_scan_append(data, next_at(data, off), idx.insert(key_at(data, off), off as u64), key, v);
    }
}

/// A scan keeps every key it starts with.
pub proof fn lemma_scan_keeps_keys(data: Seq<u8>, off: int, idx: Map<u64, u64>)
    requires
        0 <= off,
        scan_from(data, off, idx) is Some,
    ensures
        forall|k: u64| #[trigger] idx.contains_key(k) ==> scan_from(data, off, idx)->0.contains_key(k),
    decreases data.len() - off,
{
    if off < data.len() {
        let i2 = idx.insert(key_at(data, off), off as u64);
        lemma_scan_keeps_keys(data, next_at(data, off), i2);
        assert forall|k: u64| #[trigger] idx.contains_key(k) implies scan_from(data, off, idx)->0.contains_key(k) by {
            assert(i2.contains_key(k));
        }
    }
}

/// Appending a record of a key the image does not hold, and indexing it,
/// appends that record to the compacted image.
pub proof fn lemma_compacted_append(
    data: Seq<u8>,
    off: int,
    cur: Map<u64, u64>,
    idx: Map<u64, u64>,
    key: u64,
    v: Seq<u8>,
)
    requires
        0 <= off <= data.len(),
        data.len() <= u64::MAX,
        v.len() <= u64::MAX,
        scan_from(data, off, cur) == Some(idx),
        !idx.contains_key(key),
        encodes_uniquely(key),
        encodes_uniquely(v.len() as u64),
    ensures
        compacted_from(data + record_bytes(key, v), idx.insert(key, data.len() as u64), off)
            == compacted_from(data, idx, off) + record_bytes(key, v),
    decreases data.len() - off,
{
    let d2 = data + record_bytes(key, v);
    let i2 = idx.insert(key, data.len() as u64);
    if off == data.len() {
        assert(d2.subrange(off, off + 8) =~= crate::codec::ne_bytes(key));
        assert(d2.subrange(off + 8, off + 16) =~= crate::codec::ne_bytes(v.len() as u64));
        lemma_u64_of_encoding(key);
        lemma_u64_of_encoding(v.len() as u64);
        assert(next_at(d2, off) == d2.len());
        assert(value_at(d2, off) =~= v);
        assert(compacted_from(d2, i2, d2.len() as int) == Seq::<u8>::empty());
        assert(compacted_from(d2, i2, off) =~= record_bytes(key, v));
        assert(compacted_from(data, idx, off) == Seq::<u8>::empty());
        assert(compacted_from(data, idx, off) + record_bytes(key, v) =~= record_bytes(key, v));
    } else {
        assert(d2.subrange(off, off + 8) =~= data.subrange(off, off + 8));
        assert(d2.subrange(off + 8, off + 16) =~= data.subrange(off + 8, off + 16));
        let k0 = key_at(data, off);
        assert(key_at(d2, off) == k0);
        assert(next_at(d2, off) == next_at(data, off));
        assert(value_at(d2, off) =~= value_at(data, off));
        let c2 = cur.insert(k0, off as u64);
        lemma_scan_keeps_keys(data, next_at(data, off), c2);
        assert(c2.contains_key(k0));
        assert(idx.contains_key(k0));
        lemma_compacted_append(data, next_at(data, off), c2, idx, key, v);
        let rest = compacted_from(data, idx, next_at(data, off));
        let rec = record_bytes(key, v);
        if idx[k0] == off as u64 {
            let r0 = record_bytes(k0, value_at(data, off));
            assert(r0 + (rest + rec) =~= (r0 + rest) + rec);
        }
    }
}

/// Every entry that a scan leaves below `off` was already in `idx`.
pub proof fn lemma_scan_below(data: Seq<u8>, off: int, idx: Map<u64, u64>)
    requires
        0 <= off,
        data.len() <= u64::MAX,
        scan_from(data, off, idx) is Some,
    ensures
        forall|k: u64|
            #![trigger scan_from(data, off, idx)->0[k]]
            scan_from(data, off, idx)->0.contains_key(k) && (scan_from(data, off, idx)->0[k] as int) < off
                ==> idx.contains_key(k) && idx[k] == scan_from(data, off, idx)->0[k],
    decreases data.len() - off,
{
    if off < data.len() {
        lemma_scan_below(data, next_at(data, off), idx.insert(key_at(data, off), off as u64));
    }
}

/// A scan that starts from whole records ends with whole records.
pub proof fn lemma_scan_records(data: Seq<u8>, off: int, idx: Map<u64, u64>)
    requires
        0 <= off,
        data.len() <= u64::MAX,
        scan_from(data, off, idx) is Some,
        forall|k: u64| #[trigger] idx.contains_key(k) ==> record_ok(data, idx[k] as int),
    ensures
        forall|k: u64|
            #[trigger] scan_from(data, off, idx)->0.contains_key(k) ==> record_ok(
                data,
                scan_from(data, off, idx)->0[k] as int,
            ),
    decreases data.len() - off,
{
    if off < data.len() {
        let i2 = idx.insert(key_at(data, off), off as u64);
        assert forall|k: u64| #[trigger] i2.contains_key(k) implies record_ok(data, i2[k] as int) by {
            if k != key_at(data, off) {
                assert(idx.contains_key(k));
            }
        }
        lemma_scan_records(data, next_at(data, off), i2);
    }
}

/// A segment: a named image of records, its index, a recency key, and bounds
/// on the keys it holds.
pub struct Segment {
    pub path: String,
    pub data: Vec<u8>,
    pub index: BTreeMap<u64, u64>,
    pub created: u64,
    pub lo: u64,
    pub hi: u64,
}

impl Segment {
    /// The index is the one a scan of the image builds, and `lo..=hi` holds
    /// every indexed key.
    pub open spec fn wf(&self) -> bool {
        &&& self.data@.len() <= u64::MAX
        &&& index_of(self.data@) == Some(self.index@)
        &&& forall|k: u64| #[trigger] self.index@.contains_key(k) ==> record_ok(self.data@, self.index@[k] as int)
        &&& forall|k: u64| #[trigger] self.index@.contains_key(k) ==> self.lo <= k <= self.hi
    }

    /// The latest document of each key in this segment.
    pub open spec fn contents(&self) -> Map<u64, Seq<u8>> {
        contents_of(self.data@, self.index@)
    }

    /// An empty segment.
    pub fn empty(path: String, created: u64) -> (r: Segment)
        ensures
            r.wf(),
            r.contents() == Map::<u64, Seq<u8>>::empty(),
            r.data@.len() == 0,
            r.path == path,
            r.created == created,
    {
        let r = Segment { path, data: Vec::new(), index: BTreeMap::new(), created, lo: u64::MAX, hi: 0 };
        assert(r.contents() =~= Map::<u64, Seq<u8>>::empty());
        r
    }

    /// Rebuilds a segment from its image by a sequential scan; a record cut
    /// short is a corrupt image.
    pub fn recover(path: String, data: Vec<u8>, created: u64) -> (r: Result<Segment, DbError>)
        ensures
            match r {
                Ok(s) => s.wf() && s.data@ == data@ && s.path == path && s.created == created
                    && Some(s.index@) == index_of(data@),
                Err(e) => e == DbError::CorruptSegment && index_of(data@) is None,
            },
    {
        let total = data.len();
        let mut index: BTreeMap<u64, u64> = BTreeMap::new();
        let mut lo: u64 = u64::MAX;
        let mut hi: u64 = 0;
        let mut off: usize = 0;
        while off < total
            invariant
                total == data@.len(),
                off <= total,
                index_of(data@) == scan_from(data@, off as int, index@),
                forall|k: u64| #[trigger] index@.contains_key(k) ==> record_ok(data@, index@[k] as int),
                forall|k: u64| #[trigger] index@.contains_key(k) ==> lo <= k <= hi,
            decreases total - off,
        {
            if total - off < 16 {
                return Err(DbError::CorruptSegment);
            }
            let key = read_u64(data.as_slice(), off);
            assert(data@.subrange(off + 8, off + 16) == data@.subrange(off + 8, off + 8 + 8));
            let n = read_u64(data.as_slice(), off + 8);
            if n > (total - off - 16) as u64 {
                return Err(DbError::CorruptSegment);
            }
            index.insert(key, off as u64);
            if key < lo {
                lo = key;
            }
            if key > hi {
                hi = key;
            }
            off = off + 16 + n as usize;
        }
        Ok(Segment { path, data, index, created, lo, hi })
    }

    /// The latest document of `key` in this segment.
    pub fn get(&self, key: u64) -> (r: Option<Vec<u8>>)
        requires
            self.wf(),
        ensures
            match r {
                Some(v) => self.contents().contains_key(key) && v@ == self.contents()[key],
                None => !self.contents().contains_key(key),
            },
    {
        match self.index.get(&key) {
            Some(off) => {
                Some(read_value(self.data.as_slice(), *off))
            },
            None => None,
        }
    }

    /// Appends one record; its key now maps to `value`.
    pub fn append(&mut self, key: u64, value: &[u8])
        requires
            old(self).wf(),
        ensures
            final(self).wf(),
            final(self).contents() == old(self).contents().insert(key, value@),
            final(self).data@ == old(self).data@ + record_bytes(key, value@),
            final(self).index@ == old(self).index@.insert(key, old(self).data@.len() as u64),
            encodes_uniquely(key),
            encodes_uniquely(value@.len() as u64),
            final(self).path == old(self).path,
            final(self).created == old(self).created,
    {
        let ghost d0 = self.data@;
        let start = self.data.len();
        append_record(&mut self.data, key, value);
        let total = self.data.len();
        proof {
            lemma_scan_append(d0, 0, Map::empty(), key, value@);
            let d2 = self.data@;
            assert(d2.subrange(start + 8, start + 16) =~= crate::codec::ne_bytes(value@.len() as u64));
            lemma_u64_of_encoding(value@.len() as u64);
            assert forall|k: u64| #[trigger] self.index@.contains_key(k) implies
                d2.subrange(self.index@[k] as int + 8, self.index@[k] as int + 16)
                    == d0.subrange(self.index@[k] as int + 8, self.index@[k] as int + 16)
                && value_at(d2, self.index@[k] as int) == value_at(d0, self.index@[k] as int) by {
                let o = self.index@[k] as int;
                assert(d2.subrange(o + 8, o + 16) =~= d0.subrange(o + 8, o + 16));
                assert(value_at(d2, o) =~= value_at(d0, o));
            }
            assert(value_at(d2, start as int) =~= value@);
        }
        self.index.insert(key, start as u64);
        if key < self.lo {
            self.lo = key;
        }
        if key > self.hi {
            self.hi = key;
        }
        proof {
            let d2 = self.data@;
            assert forall|k: u64| #[trigger] self.index@.contains_key(k) implies record_ok(d2, self.index@[k] as int) by {
                if k != key {
                    let o = self.index@[k] as int;
                    assert(d2.subrange(o + 8, o + 16) =~= d0.subrange(o + 8, o + 16));
                }
            }
            assert(self.contents() =~= old(self).contents().insert(key, value@));
        }
    }
    /// Rewrites the image to hold only the records the index points at, one
    /// per indexed key, in ascending key order; every indexed key keeps its
    /// document and the image does not grow.
    pub fn compact(&mut self)
        requires
            old(self).wf(),
        ensures
            final(self).wf(),
            final(self).contents() == old(self).contents(),
            final(self).data@.len() <= old(self).data@.len(),
            exists|ks: Seq<u64>| #[trigger] ascending_keys_of(ks, old(self).index@)
                && final(self).data@ == records_in(old(self).contents(), ks),
            compacted_from(final(self).data@, final(self).index@, 0) == final(self).data@,
            final(self).path == old(self).path,
            final(self).created == old(self).created,
    {
        let entries = index_entries(&self.index);
        let ghost ks = entries@.map_values(|e: (u64, u64)| e.0);
        let ghost c = self.contents();
        let ghost full = self.index@;
        let mut out = Segment::empty(String::new(), self.created);
        let mut i: usize = 0;
        proof {
            assert(records_in(c, ks.take(0)) =~= Seq::<u8>::empty()) by {
                assert(ks.take(0) =~= Seq::<u64>::empty());
            }
            assert(ks.take(0) =~= Seq::<u64>::empty());
        }
        while i < entries.len()
            invariant
                self.wf(),
                self.index@ == full,
                c == self.contents(),
                ks == entries@.map_values(|e: (u64, u64)| e.0),
                forall|a: int, b: int| 0 <= a < b < entries@.len() ==> entries@[a].0 < entries@[b].0,
                forall|a: int| 0 <= a < entries@.len() ==> full.contains_key(#[trigger] entries@[a].0)
                    && full[entries@[a].0] == entries@[a].1,
                i <= entries@.len(),
                out.wf(),
                out.data@ == records_in(c, ks.take(i as int)),
                out.data@.len() == records_size(c, ks.take(i as int)),
                compacted_from(out.data@, out.index@, 0) == out.data@,
                forall|k: u64| #[trigger] out.contents().contains_key(k) <==> ks.take(i as int).contains(k),
                forall|k: u64| #[trigger] out.contents().contains_key(k) ==> out.contents()[k] == c[k],
            decreases entries@.len() - i,
        {
            let key = entries[i].0;
            let at = entries[i].1;
            let v = read_value(self.data.as_slice(), at);
            let ghost oidx = out.index@;
            let ghost ocont = out.contents();
            let ghost out0 = out.data@;
            proof {
                assert(ks[i as int] == key);
                if oidx.contains_key(key) {
                    assert(ocont.contains_key(key));
                    let t0 = ks.take(i as int);
                    assert(t0.contains(key));
                    let j = choose|j: int| 0 <= j < t0.len() && #[trigger] t0[j] == key;
                    assert(entries@[j].0 < entries@[i as int].0);
                }
                assert(v@ == c[key]);
            }
            out.append(key, v.as_slice());
            proof {
                lemma_compacted_append(out0, 0, Map::empty(), oidx, key, v@);
                let t0 = ks.take(i as int);
                let t1 = ks.take(i as int + 1);
                assert(t1 =~= t0.push(key));
                assert(t1.drop_last() =~= t0);
                assert(records_size(c, t1) == records_size(c, t0) + 16 + c[key].len());
                assert(records_in(c, t1) == records_in(c, t0) + record_bytes(key, c[key]));
                assert forall|k: u64| #[trigger] out.contents().contains_key(k) <==> t1.contains(k) by {
                    if k != key && t1.contains(k) {
                        let j = choose|j: int| 0 <= j < t1.len() && #[trigger] t1[j] == k;
                        assert(t0[j] == k);
                    }
                    if k != key && t0.contains(k) {
                        let j = choose|j: int| 0 <= j < t0.len() && #[trigger] t0[j] == k;
                        assert(t1[j] == k);
                    }
                    if k == key {
                        assert(t1[i as int] == k);
                    }
                }
            }
            i = i + 1;
        }
        proof {
            assert(ks.take(i as int) =~= ks);
            assert(ascending_keys_of(ks, full)) by {
                assert forall|k: u64| #[trigger] ks.contains(k) <==> full.contains_key(k) by {
                    if full.contains_key(k) {
                        let a = choose|a: int| 0 <= a < entries@.len() && entries@[a].0 == k;
                        assert(ks[a] == k);
                    }
                }
            }
            assert(out.contents() =~= c);
            lemma_scan_records(self.data@, 0, Map::empty());
            let f = lemma_live_records(self.data@, 0, Map::empty(), full);
            assert(ks.no_duplicates());
            lemma_records_size_perm(c, ks, f);
        }
        self.data = out.data;
        self.index = out.index;
        self.lo = out.lo;
        self.hi = out.hi;
    }
}

} // verus!

