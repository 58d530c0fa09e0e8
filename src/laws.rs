//! Properties of the engine that relate several operations or states.
use vstd::prelude::*;
use crate::segment::{ascending_keys_of, lemma_ascending_keys_unique, records_in, Segment};
use crate::engine::{lemma_layered_first, rebuilt_from, stably_sorted, SegmentImage, DB};
use crate::segment::index_of;

verus! {

/// Two engines with nothing buffered whose main segments hold the same image
/// and whose sealed segments hold the same images in the same order answer
/// every lookup alike: reopening over the stored images, with no write in
/// between, loses and changes no document.
pub proof fn lemma_reopen_same_documents(db: DB, db2: DB)
    requires
        db.wf(),
        db2.wf(),
        db.mem_table.contents() == Map::<u64, Seq<u8>>::empty(),
        db2.mem_table.contents() == Map::<u64, Seq<u8>>::empty(),
        db2.main_segment.data@ == db.main_segment.data@,
        db2.segments@.len() == db.segments@.len(),
        forall|i: int| 0 <= i < db.segments@.len() ==> (#[trigger] db2.segments@[i]).data@ == db.segments@[i].data@,
    ensures
        db2.documents() == db.documents(),
{
    assert(index_of(db.main_segment.data@) == Some(db2.main_segment.index@));
    assert forall|i: int| 0 <= i < db.segments@.len() implies (#[trigger] db2.segments@[i]).contents() == db.segments@[i].contents() by {
        assert(db.segments@[i].wf());
        assert(db2.segments@[i].wf());
        assert(index_of(db.segments@[i].data@) == Some(db2.segments@[i].index@));
    }
    assert(db2.layers() =~= db.layers());
    assert(db2.documents() =~= db.documents());
}

proof fn lemma_increasing_at_least(p: Seq<int>, a: int)
    requires
        0 <= a < p.len(),
        forall|i: int| 0 <= i < p.len() ==> 0 <= #[trigger] p[i],
        forall|i: int, j: int| 0 <= i < j < p.len() ==> p[i] < p[j],
    ensures
        p[a] >= a,
    decreases a,
{
    if a > 0 {
        lemma_increasing_at_least(p, a - 1);
    }
}

proof fn lemma_increasing_at_most(p: Seq<int>, a: int)
    requires
        0 <= a < p.len(),
        forall|i: int| 0 <= i < p.len() ==> #[trigger] p[i] < p.len(),
        forall|i: int, j: int| 0 <= i < j < p.len() ==> p[i] < p[j],
    ensures
        p[a] <= a,
    decreases p.len() - a,
{
    if a < p.len() - 1 {
        lemma_increasing_at_most(p, a + 1);
    }
}

/// Reopening an engine that has nothing buffered, over its own stored images
/// in its own order of sealed segments, yields an engine that answers every
/// lookup as it did.
pub proof fn lemma_reopen_keeps_documents(
    db: DB,
    db2: DB,
    sealed: Seq<SegmentImage>,
    mem_max: u64,
    seg_max: u64,
)
    requires
        db.wf(),
        db.mem_table.contents() == Map::<u64, Seq<u8>>::empty(),
        sealed.len() == db.segments@.len(),
        forall|i: int| 0 <= i < sealed.len() ==> (#[trigger] sealed[i]).data@ == db.segments@[i].data@
            && sealed[i].created == db.segments@[i].created,
        DB::recovered(Ok(db2), db.main_segment.data@, sealed, mem_max, seg_max),
    ensures
        db2.documents() == db.documents(),
{
    let p = choose|p: Seq<int>| #[trigger] stably_sorted(db2.segments@, sealed, p);
    assert forall|a: int, b: int| 0 <= a < b < p.len() implies p[a] < p[b] by {
        let x = p[a];
        let y = p[b];
        assert(sealed[x].created < sealed[y].created || (sealed[x].created == sealed[y].created && x < y));
        if y < x {
            assert(db.segments@[y].created <= db.segments@[x].created);
        }
        assert(x != y);
    }
    assert forall|a: int| 0 <= a < p.len() implies #[trigger] p[a] == a by {
        lemma_increasing_at_least(p, a);
        lemma_increasing_at_most(p, a);
    }
    assert forall|i: int| 0 <= i < db.segments@.len() implies (#[trigger] db2.segments@[i]).data@ == db.segments@[i].data@ by {
        assert(p[i] == i);
        assert(rebuilt_from(db2.segments@[i], sealed[i]));
    }
    lemma_reopen_same_documents(db, db2);
}

/// A document that is current in a flushed engine is read back, unchanged,
/// from an engine reopened over its stored images.
pub proof fn lemma_round_trip(
    db: DB,
    db2: DB,
    sealed: Seq<SegmentImage>,
    mem_max: u64,
    seg_max: u64,
    key: u64,
    value: Seq<u8>,
)
    requires
        db.wf(),
        db.lookup(key) == Some(value),
        db.mem_table.contents() == Map::<u64, Seq<u8>>::empty(),
        sealed.len() == db.segments@.len(),
        forall|i: int| 0 <= i < sealed.len() ==> (#[trigger] sealed[i]).data@ == db.segments@[i].data@
            && sealed[i].created == db.segments@[i].created,
        DB::recovered(Ok(db2), db.main_segment.data@, sealed, mem_max, seg_max),
    ensures
        db2.lookup(key) == Some(value),
{
    lemma_reopen_keeps_documents(db, db2, sealed, mem_max, seg_max);
    assert(db.documents().contains_key(key));
    assert(db.documents()[key] == value);
    assert(db2.documents().contains_key(key));
    assert(db2.lookup(key) is Some);
    assert(db2.lookup(key)->0 == value);
}

/// Compacting twice writes the same image and index as compacting once:
/// `s1` is what compacting `s0` leaves, `s2` what compacting `s1` leaves.
pub proof fn lemma_compact_twice(s0: Segment, s1: Segment, s2: Segment)
    requires
        s0.wf(),
        s1.wf(),
        s2.wf(),
        s1.contents() == s0.contents(),
        exists|ks: Seq<u64>| #[trigger] ascending_keys_of(ks, s0.index@) && s1.data@ == records_in(s0.contents(), ks),
        s2.contents() == s1.contents(),
        exists|ks: Seq<u64>| #[trigger] ascending_keys_of(ks, s1.index@) && s2.data@ == records_in(s1.contents(), ks),
    ensures
        s2.data@ == s1.data@,
        s2.index@ == s1.index@,
{
    let k1 = choose|ks: Seq<u64>| #[trigger] ascending_keys_of(ks, s0.index@) && s1.data@ == records_in(s0.contents(), ks);
    let k2 = choose|ks: Seq<u64>| #[trigger] ascending_keys_of(ks, s1.index@) && s2.data@ == records_in(s1.contents(), ks);
    assert forall|k: u64| #[trigger] k2.contains(k) <==> s0.index@.contains_key(k) by {
        assert(s1.contents().contains_key(k) == s0.contents().contains_key(k));
        assert(s1.contents().contains_key(k) == s1.index@.contains_key(k));
        assert(s0.contents().contains_key(k) == s0.index@.contains_key(k));
        assert(k2.contains(k) == s1.index@.contains_key(k));
    }
    assert(ascending_keys_of(k2, s0.index@));
    lemma_ascending_keys_unique(k1, k2, s0.index@);
}

/// Of two writes of one key, the second is the one read: after documents
/// `a` and then `b` are written to `key`, its current document is `b`.
pub proof fn lemma_last_write_wins(d0: DB, d1: DB, d2: DB, key: u64, a: Seq<u8>, b: Seq<u8>)
    requires
        d1.documents() == d0.documents().insert(key, a),
        d2.documents() == d1.documents().insert(key, b),
    ensures
        d2.lookup(key) == Some(b),
{
    assert(d2.documents().contains_key(key));
    assert(d2.documents()[key] == b);
    assert(d2.lookup(key) is Some);
    assert(d2.lookup(key)->0 == b);
}

/// A sealed segment answers for a key that neither the memtable, the main
/// segment nor any newer sealed segment holds, whatever older segments hold.
pub proof fn lemma_newest_segment_answers(db: DB, key: u64, j: int)
    requires
        db.wf(),
        0 <= j < db.segments@.len(),
        db.segments@[j].contents().contains_key(key),
        !db.mem_table.contents().contains_key(key),
        !db.main_segment.contents().contains_key(key),
        forall|l: int| j < l < db.segments@.len() ==> !(#[trigger] db.segments@[l]).contents().contains_key(key),
    ensures
        db.lookup(key) == Some(db.segments@[j].contents()[key]),
{
    let ls = db.layers();
    let n = db.segments@.len();
    let at = 2 + (n - 1 - j);
    assert(ls[at] == db.segments@[j].contents());
    assert forall|m: int| 0 <= m < at implies !(#[trigger] ls[m].contains_key(key)) by {
        if m >= 2 {
            assert(ls[m] == db.segments@[n - 1 - (m - 2)].contents());
        }
    }
    lemma_layered_first(ls, at, key);
}

/// A range answer holds each key of the range that has a current document
/// exactly once, so its length is the number of such keys.
pub proof fn lemma_range_counts_keys(db: DB, start: u64, end: u64, r: Seq<(u64, Seq<u8>)>)
    requires
        db.range_answer(start, end, r),
    ensures
        r.len() == db.documents().dom().filter(|k: u64| start <= k <= end).len(),
{
    let keys = r.map_values(|e: (u64, Seq<u8>)| e.0);
    assert(keys.no_duplicates()) by {
        assert forall|i: int, j: int| 0 <= i < keys.len() && 0 <= j < keys.len() && i != j implies keys[i] != keys[j] by {
            if i < j {
                assert(r[i].0 != r[j].0);
            } else {
                assert(r[j].0 != r[i].0);
            }
        }
    }
    keys.unique_seq_to_set();
    let s = db.documents().dom().filter(|k: u64| start <= k <= end);
    assert forall|k: u64| #[trigger] s.contains(k) <==> keys.to_set().contains(k) by {
        if s.contains(k) {
            assert(db.lookup(k) is Some);
            let i = choose|i: int| 0 <= i < r.len() && r[i].0 == k;
            assert(keys[i] == k);
        }
        if keys.to_set().contains(k) {
            let i = choose|i: int| 0 <= i < keys.len() && keys[i] == k;
            assert(start <= r[i].0 <= end && db.lookup(r[i].0) == Some(r[i].1));
        }
    }
    assert(s =~= keys.to_set());
}

} // verus!
