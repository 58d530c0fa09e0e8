//! The engine: the memtable, the main segment and the sealed segments, and the
//! operations that move writes through them and read them back.
use vstd::prelude::*;
use crate::codec::copy_bytes;
use crate::document::{decode_all, decode_document, json_of};
use crate::memtable::{ascending_entries, entries_map, lemma_entries_map_push, records_of, MemTable};
use vstd::string::StringExecFns;
use crate::segment::{ascending_keys_of, compacted_from, index_of, records_in, Segment};
use crate::DbError;
use std::collections::BTreeSet;

verus! {

broadcast use vstd::std_specs::btree::group_btree_axioms, vstd::laws_cmp::group_laws_cmp;

/// Default byte threshold that triggers a rotation of the main segment.
pub const DEFAULT_MAX_SEGMENT_SIZE: u64 = 6400000;

/// Default byte threshold that triggers a flush of the memtable.
pub const DEFAULT_MEM_TABLE_MAX_SIZE: u64 = 64000;

/// Thresholds that decide when writes move on.
pub struct Config {
    /// Buffered payload bytes above which the memtable is flushed.
    pub mem_table_max_size: u64,
    /// Segment bytes above which the main segment is sealed.
    pub max_segment_size: u64,
}

impl Config {
    /// The default thresholds.
    pub fn default() -> (r: Config)
        ensures
            r.mem_table_max_size == DEFAULT_MEM_TABLE_MAX_SIZE,
            r.max_segment_size == DEFAULT_MAX_SEGMENT_SIZE,
    {
        Config { mem_table_max_size: DEFAULT_MEM_TABLE_MAX_SIZE, max_segment_size: DEFAULT_MAX_SEGMENT_SIZE }
    }
}

/// The stored bytes of one sealed segment, with its name and recency key.
pub struct SegmentImage {
    pub path: String,
    pub data: Vec<u8>,
    pub created: u64,
}

/// Names a segment of an engine.
#[derive(Clone, Copy, Debug, PartialEq, Eq, Structural)]
pub enum SegmentRef {
    Main,
    Sealed(usize),
}

/// The first map of `layers` that holds `key` answers for it.
pub open spec fn layered(layers: Seq<Map<u64, Seq<u8>>>, key: u64) -> Option<Seq<u8>>
    decreases layers.len(),
{
    if layers.len() == 0 {
        None
    } else if layers[0].contains_key(key) {
        Some(layers[0][key])
    } else {
        layered(layers.drop_first(), key)
    }
}

/// The position of the first layer that holds `key`.
pub open spec fn first_layer(layers: Seq<Map<u64, Seq<u8>>>, key: u64) -> int
    decreases layers.len(),
{
    if layers.len() == 0 || layers[0].contains_key(key) {
        0
    } else {
        1 + first_layer(layers.drop_first(), key)
    }
}

/// A key that no earlier layer holds is answered by the first layer that does.
pub proof fn lemma_layered_first(layers: Seq<Map<u64, Seq<u8>>>, j: int, key: u64)
    requires
        0 <= j < layers.len(),
        layers[j].contains_key(key),
        forall|l: int| 0 <= l < j ==> !(#[trigger] layers[l].contains_key(key)),
    ensures
        layered(layers, key) == Some(layers[j][key]),
        first_layer(layers, key) == j,
    decreases j,
{
    if j > 0 {
        assert(!layers[0].contains_key(key));
        let t = layers.drop_first();
        assert forall|l: int| 0 <= l < j - 1 implies !(#[trigger] t[l].contains_key(key)) by {
            assert(t[l] == layers[l + 1]);
        }
        lemma_layered_first(t, j - 1, key);
    }
}

/// A key that no layer holds has no answer.
pub proof fn lemma_layered_none(layers: Seq<Map<u64, Seq<u8>>>, key: u64)
    requires
        forall|l: int| 0 <= l < layers.len() ==> !(#[trigger] layers[l].contains_key(key)),
    ensures
        layered(layers, key) is None,
    decreases layers.len(),
{
    if layers.len() > 0 {
        let t = layers.drop_first();
        assert forall|l: int| 0 <= l < t.len() implies !(#[trigger] t[l].contains_key(key)) by {
            assert(t[l] == layers[l + 1]);
        }
        lemma_layered_none(t, key);
    }
}


/// The pairs of `out` with their payloads as byte sequences.
pub open spec fn pairs_view(out: Seq<(u64, Vec<u8>)>) -> Seq<(u64, Seq<u8>)> {
    out.map_values(|e: (u64, Vec<u8>)| (e.0, e.1@))
}

/// Progress of a range query after the first `j` layers: every pair emitted
/// is in range and current, no key twice, `seen` holds exactly the emitted
/// keys, and every in-range key of those layers was emitted.
pub open spec fn collected(
    ls: Seq<Map<u64, Seq<u8>>>,
    j: int,
    start: u64,
    end: u64,
    seen: Set<u64>,
    out: Seq<(u64, Vec<u8>)>,
) -> bool {
    &&& forall|i: int| 0 <= i < out.len() ==> start <= (#[trigger] out[i]).0 <= end
        && layered(ls, out[i].0) == Some(out[i].1@) && seen.contains(out[i].0)
    &&& forall|i: int, i2: int| 0 <= i < i2 < out.len() ==> out[i].0 != out[i2].0
    &&& forall|k: u64| #[trigger] seen.contains(k) ==> exists|i: int| 0 <= i < out.len() && out[i].0 == k
    &&& forall|k: u64, l: int|
        0 <= l < j && start <= k <= end && #[trigger] ls[l].contains_key(k) ==> seen.contains(k)
    &&& layer_ordered(ls, pairs_view(out))
}

/// Every emitted key is answered by a layer before `j`.
pub open spec fn below_layer(ls: Seq<Map<u64, Seq<u8>>>, j: int, out: Seq<(u64, Vec<u8>)>) -> bool {
    forall|i: int| 0 <= i < out.len() ==> first_layer(ls, (#[trigger] out[i]).0) < j
}

/// Pairs come by the position of the layer that answers for their key, and
/// within one layer in ascending key order.
pub open spec fn layer_ordered(ls: Seq<Map<u64, Seq<u8>>>, r: Seq<(u64, Seq<u8>)>) -> bool {
    forall|i: int, j: int| 0 <= i < j < r.len() ==> {
        ||| first_layer(ls, r[i].0) < first_layer(ls, r[j].0)
        ||| first_layer(ls, r[i].0) == first_layer(ls, r[j].0) && r[i].0 < r[j].0
    }
}

/// A handle on one store: buffered writes, the main segment, and the sealed
/// segments in ascending order of recency key.
pub struct DB {
    pub mem_table: MemTable,
    pub config: Config,
    pub main_segment: Segment,
    pub segments: Vec<Segment>,
    pub next_created: u64,
}

/// The name of the main segment's file.
pub fn main_segment_path() -> (r: String)
    ensures
        r@ == "main_segment.db"@,
{
    "main_segment.db".to_owned()
}

/// Relies on uuid::Uuid::new_v4 and its text form: a random identifier,
/// written as 36 characters (hyphenated lower-case hex).
#[verifier::external_body]
fn fresh_id() -> (r: String)
    ensures
        r@.len() == 36,
{
    uuid::Uuid::new_v4().to_string()
}

/// The file name of a sealed segment with identifier `id`.
pub open spec fn segment_path_of(id: Seq<char>) -> Seq<char> {
    "./segments/segment_"@ + id + ".db"@
}

/// The file name of the sealed segment with identifier `id`, inside the
/// segments directory.
pub fn segment_path(id: &str) -> (r: String)
    ensures
        r@ == segment_path_of(id@),
{
    let mut r = String::from_str("./segments/segment_");
    r.append(id);
    r.append(".db");
    r
}

/// `seg` is the segment that a scan of `img` rebuilds.
pub open spec fn rebuilt_from(seg: Segment, img: SegmentImage) -> bool {
    &&& seg.data@ == img.data@
    &&& seg.created == img.created
    &&& seg.path == img.path
    &&& index_of(img.data@) == Some(seg.index@)
}

/// `segs` are `imgs` rebuilt and stably sorted by recency key: segment `a`
/// is rebuilt from image `p[a]`, and images come in ascending key order,
/// equal keys in their given order.
pub open spec fn stably_sorted(segs: Seq<Segment>, imgs: Seq<SegmentImage>, p: Seq<int>) -> bool {
    &&& p.len() == segs.len()
    &&& forall|a: int| 0 <= a < segs.len() ==> 0 <= #[trigger] p[a] < imgs.len() && rebuilt_from(segs[a], imgs[p[a]])
    &&& forall|a: int, b: int| 0 <= a < b < segs.len() ==> (#[trigger] imgs[p[a]]).created < (#[trigger] imgs[p[b]]).created
        || (imgs[p[a]].created == imgs[p[b]].created && p[a] < p[b])
}

/// Some segment of `segs` is the one a scan of `img` rebuilds.
pub open spec fn image_used(segs: Seq<Segment>, img: SegmentImage) -> bool {
    exists|i: int| 0 <= i < segs.len() && #[trigger] rebuilt_from(segs[i], img)
}

impl DB {
    pub open spec fn wf(&self) -> bool {
        &&& self.main_segment.wf()
        &&& forall|i: int| 0 <= i < self.segments@.len() ==> (#[trigger] self.segments@[i]).wf()
        &&& forall|i: int, j: int|
            0 <= i < j < self.segments@.len() ==> self.segments@[i].created <= self.segments@[j].created
        &&& forall|i: int|
            0 <= i < self.segments@.len() ==> (#[trigger] self.segments@[i]).created < self.next_created
        &&& self.main_segment.path@ == "main_segment.db"@
    }

    /// Flushing now would seal the main segment first.
    pub open spec fn rotation_due(&self) -> bool {
        self.mem_table.size + self.main_segment.data@.len() > self.config.max_segment_size
    }

    /// Buffering `n` more payload bytes would flush the memtable first.
    pub open spec fn flush_due(&self, n: nat) -> bool {
        self.mem_table.size + n > self.config.mem_table_max_size
    }

    /// `new` holds the segments that sealing the main segment of `self`
    /// leaves: the old main image and index as the newest sealed segment, under
    /// a fresh segment file name and the next recency key, and an empty main
    /// segment.
    pub open spec fn sealed_into(&self, new: &DB) -> bool {
        &&& new.segments@.len() == self.segments@.len() + 1
        &&& forall|i: int| 0 <= i < self.segments@.len() ==> new.segments@[i] == self.segments@[i]
        &&& new.segments@.last().data@ == self.main_segment.data@
        &&& new.segments@.last().index@ == self.main_segment.index@
        &&& new.segments@.last().created == self.next_created
        &&& exists|id: Seq<char>| new.segments@.last().path@ == #[trigger] segment_path_of(id)
        &&& new.segments@.last().path@ != new.main_segment.path@
        &&& forall|i: int| 0 <= i < self.segments@.len() ==> (#[trigger] self.segments@[i]).path@ != new.segments@.last().path@
    }

    /// `new` holds the segments that a flush of `self` leaves: the memtable's
    /// records in ascending key order appended to the main image, after
    /// sealing the main segment where that is due.
    pub open spec fn segments_after_flush(&self, new: &DB) -> bool {
        if self.rotation_due() {
            &&& self.sealed_into(new)
            &&& exists|s: Seq<(u64, Vec<u8>)>| #[trigger] ascending_entries(self.mem_table.contents(), s)
                && new.main_segment.data@ == records_of(s)
        } else {
            &&& new.segments@ == self.segments@
            &&& exists|s: Seq<(u64, Vec<u8>)>| #[trigger] ascending_entries(self.mem_table.contents(), s)
                && new.main_segment.data@ == self.main_segment.data@ + records_of(s)
        }
    }

    /// The structures a lookup consults, most recent first: the memtable, the
    /// main segment, then the sealed segments from newest to oldest.
    pub open spec fn layers(&self) -> Seq<Map<u64, Seq<u8>>> {
        seq![self.mem_table.contents(), self.main_segment.contents()] + Seq::new(
            self.segments@.len(),
            |i: int| self.segments@[self.segments@.len() - 1 - i].contents(),
        )
    }

    /// The current document of `key`: the most recent write of it.
    pub open spec fn lookup(&self, key: u64) -> Option<Seq<u8>> {
        layered(self.layers(), key)
    }

    /// The current document of every key.
    pub open spec fn documents(&self) -> Map<u64, Seq<u8>> {
        Map::new(|k: u64| self.lookup(k) is Some, |k: u64| self.lookup(k)->0)
    }

    /// Opens an engine with the default thresholds over the stored main
    /// segment image and sealed segment images.
    pub fn new(main: Vec<u8>, sealed: Vec<SegmentImage>) -> (r: Result<DB, DbError>)
        ensures
            Self::recovered(r, main@, sealed@, DEFAULT_MEM_TABLE_MAX_SIZE, DEFAULT_MAX_SEGMENT_SIZE),
    {
        Self::create_with_config(Config::default(), main, sealed)
    }

    /// What opening over stored images yields: every image rebuilt by a scan,
    /// the sealed ones stably sorted by recency key, nothing buffered. A
    /// corrupt-segment error exactly where some image is corrupt; otherwise a
    /// recency error exactly where some sealed image has the largest key.
    pub open spec fn recovered(
        r: Result<DB, DbError>,
        main: Seq<u8>,
        sealed: Seq<SegmentImage>,
        mem_max: u64,
        seg_max: u64,
    ) -> bool {
        match r {
            Ok(db) => {
                &&& db.wf()
                &&& db.config.mem_table_max_size == mem_max
                &&& db.config.max_segment_size == seg_max
                &&& db.mem_table.contents() == Map::<u64, Seq<u8>>::empty()
                &&& db.mem_table.size == 0
                &&& db.main_segment.data@ == main
                &&& index_of(main) == Some(db.main_segment.index@)
                &&& db.segments@.len() == sealed.len()
                &&& sealed.len() == 0 ==> db.next_created == 0
                &&& sealed.len() > 0 ==> exists|j: int|
                    0 <= j < sealed.len() && db.next_created == (#[trigger] sealed[j]).created + 1
                &&& forall|j: int| 0 <= j < sealed.len() ==> (#[trigger] sealed[j]).created < db.next_created
                &&& exists|p: Seq<int>| #[trigger] stably_sorted(db.segments@, sealed, p)
                &&& forall|j: int| 0 <= j < sealed.len() ==> #[trigger] image_used(db.segments@, sealed[j])
            },
            Err(e) => {
                ||| e == DbError::CorruptSegment && (index_of(main) is None || exists|j: int|
                    0 <= j < sealed.len() && index_of(#[trigger] sealed[j].data@) is None)
                ||| e == DbError::RecencyExhausted && index_of(main) is Some
                    && (forall|j: int| 0 <= j < sealed.len() ==> index_of(#[trigger] sealed[j].data@) is Some)
                    && exists|j: int| 0 <= j < sealed.len() && (#[trigger] sealed[j]).created == u64::MAX
            },
        }
    }

    /// Opens an engine with the given thresholds over the stored main segment
    /// image and sealed segment images.
    pub fn create_with_config(config: Config, main: Vec<u8>, sealed: Vec<SegmentImage>) -> (r: Result<DB, DbError>)
        ensures
            Self::recovered(r, main@, sealed@, config.mem_table_max_size, config.max_segment_size),
    {
        let ghost images = sealed@;
        let main_segment = match Segment::recover(main_segment_path(), main, 0) {
            Ok(s) => s,
            Err(e) => return Err(e),
        };
        let mut segments: Vec<Segment> = Vec::new();
        let ghost mut perm: Seq<int> = Seq::empty();
        let mut next_created: u64 = 0;
        let mut exhausted = false;
        let mut i: usize = 0;
        while i < sealed.len()
            invariant
                sealed@ == images,
                i <= sealed@.len(),
                segments@.len() == i,
                forall|a: int| 0 <= a < segments@.len() ==> (#[trigger] segments@[a]).wf(),
                forall|a: int, b: int|
                    0 <= a < b < segments@.len() ==> segments@[a].created <= segments@[b].created,
                !exhausted ==> forall|a: int| 0 <= a < segments@.len() ==> (#[trigger] segments@[a]).created < next_created,
                exhausted ==> exists|j: int| 0 <= j < i && (#[trigger] images[j]).created == u64::MAX,
                i == 0 ==> next_created == 0,
                !exhausted && i > 0 ==> exists|j: int| 0 <= j < i && next_created == (#[trigger] images[j]).created + 1,
                !exhausted ==> forall|j: int| 0 <= j < i ==> (#[trigger] images[j]).created < next_created,
                forall|j: int| 0 <= j < i ==> index_of(#[trigger] images[j].data@) is Some,
                forall|j: int| 0 <= j < i ==> #[trigger] image_used(segments@, images[j]),
                perm.len() == i,
                stably_sorted(segments@, images.take(i as int), perm),
            decreases sealed@.len() - i,
        {
            let img = &sealed[i];
            let created = img.created;
            let seg = match Segment::recover(copy_path(&img.path), copy_bytes(img.data.as_slice()), created) {
                Ok(s) => s,
                Err(e) => {
                    assert(index_of(images[i as int].data@) is None);
                    return Err(e);
                },
            };
            let mut pos: usize = 0;
            while pos < segments.len() && segments[pos].created <= created
                invariant
                    pos <= segments@.len(),
                    forall|a: int| 0 <= a < pos ==> segments@[a].created <= created,
                decreases segments@.len() - pos,
            {
                pos = pos + 1;
            }
            let ghost before = segments@;
            let ghost pbefore = perm;
            segments.insert(pos, seg);
            proof {
                perm = perm.insert(pos as int, i as int);
                let im0 = images.take(i as int);
                let im1 = images.take(i + 1);
                assert forall|a: int| 0 <= a < segments@.len() implies 0 <= perm[a] < i + 1
                    && rebuilt_from(segments@[a], im1[perm[a]]) by {
                    if a < pos {
                        assert(segments@[a] == before[a] && perm[a] == pbefore[a]);
                        assert(im1[perm[a]] == im0[perm[a]]);
                    } else if a > pos {
                        assert(segments@[a] == before[a - 1] && perm[a] == pbefore[a - 1]);
                        assert(im1[perm[a]] == im0[perm[a]]);
                    } else {
                        assert(rebuilt_from(segments@[a], images[i as int]));
                    }
                }
                assert forall|a: int, b: int| 0 <= a < b < segments@.len() implies
                    (#[trigger] im1[perm[a]]).created < (#[trigger] im1[perm[b]]).created
                    || (im1[perm[a]].created == im1[perm[b]].created && perm[a] < perm[b]) by {
                    if b < pos {
                        assert(perm[a] == pbefore[a] && perm[b] == pbefore[b]);
                        assert(im1[perm[a]] == im0[perm[a]] && im1[perm[b]] == im0[perm[b]]);
                    } else if a > pos {
                        assert(perm[a] == pbefore[a - 1] && perm[b] == pbefore[b - 1]);
                        assert(im1[perm[a]] == im0[perm[a]] && im1[perm[b]] == im0[perm[b]]);
                    } else if a == pos {
                        assert(perm[b] == pbefore[b - 1] && segments@[b] == before[b - 1]);
                        assert(im1[perm[b]] == im0[perm[b]]);
                        assert(rebuilt_from(segments@[b], im1[perm[b]]));
                        assert(before[pos as int].created > created);
                    } else if b == pos {
                        assert(perm[a] == pbefore[a] && segments@[a] == before[a]);
                        assert(im1[perm[a]] == im0[perm[a]]);
                        assert(rebuilt_from(segments@[a], im1[perm[a]]));
                    } else {
                        assert(perm[a] == pbefore[a] && perm[b] == pbefore[b - 1]);
                        assert(im1[perm[a]] == im0[perm[a]] && im1[perm[b]] == im0[perm[b]]);
                    }
                }
                assert(stably_sorted(segments@, im1, perm));
                assert forall|j: int| 0 <= j < i + 1 implies #[trigger] image_used(segments@, images[j]) by {
                    if j < i {
                        assert(image_used(before, images[j]));
                        let a = choose|a: int| 0 <= a < before.len() && #[trigger] rebuilt_from(before[a], images[j]);
                        if a < pos {
                            assert(segments@[a] == before[a]);
                            assert(rebuilt_from(segments@[a], images[j]));
                        } else {
                            assert(segments@[a + 1] == before[a]);
                            assert(rebuilt_from(segments@[a + 1], images[j]));
                        }
                    } else {
                        assert(rebuilt_from(segments@[pos as int], images[j]));
                    }
                }
                assert forall|a: int, b: int|
                    0 <= a < b < segments@.len() implies segments@[a].created <= segments@[b].created by {
                    if b < pos {
                    } else if a > pos {
                        assert(segments@[a] == before[a - 1] && segments@[b] == before[b - 1]);
                    } else if a == pos {
                        assert(segments@[b] == before[b - 1]);
                        if pos < before.len() {
                            assert(before[pos as int].created > created);
                        }
                    } else if b == pos {
                        assert(segments@[a] == before[a]);
                    } else {
                        assert(segments@[a] == before[a] && segments@[b] == before[b - 1]);
                    }
                }
                assert forall|a: int| 0 <= a < segments@.len() implies (#[trigger] segments@[a]).wf() by {
                    if a < pos {
                        assert(segments@[a] == before[a]);
                    } else if a > pos {
                        assert(segments@[a] == before[a - 1]);
                    }
                }
            }
            let ghost prev = next_created;
            if created == u64::MAX {
                exhausted = true;
            } else if created >= next_created {
                next_created = created + 1;
            }
            proof {
                if !exhausted {
                    assert(images[i as int].created == created);
                    if i == 0 || created >= prev {
                        assert(next_created == images[i as int].created + 1);
                    }
                }
            }
            proof {
                if !exhausted {
                    assert forall|a: int| 0 <= a < segments@.len() implies (#[trigger] segments@[a]).created < next_created by {
                        if a < pos {
                            assert(segments@[a] == before[a]);
                        } else if a > pos {
                            assert(segments@[a] == before[a - 1]);
                        }
                    }
                }
            }
            i = i + 1;
        }
        if exhausted {
            return Err(DbError::RecencyExhausted);
        }
        proof {
            assert(images.take(i as int) =~= images);
            reveal_strlit("main_segment.db");
        }
        let db = DB { mem_table: MemTable::new(), config, main_segment, segments, next_created };
        proof {
            assert(stably_sorted(db.segments@, images, perm));
            assert(db.main_segment.path@ == "main_segment.db"@);
            assert(db.wf());
            assert(db.mem_table.contents() == Map::<u64, Seq<u8>>::empty());
            assert(db.mem_table.size == 0);
            assert(images.len() == 0 ==> db.next_created == 0);
            assert(images.len() > 0 ==> exists|j: int| 0 <= j < images.len() && db.next_created == (#[trigger] images[j]).created + 1);
            assert(forall|j: int| 0 <= j < images.len() ==> (#[trigger] images[j]).created < db.next_created);
            assert(forall|j: int| 0 <= j < images.len() ==> #[trigger] image_used(db.segments@, images[j]));
            assert(exists|p: Seq<int>| #[trigger] stably_sorted(db.segments@, images, p));
        }
        Ok(db)
    }

    /// Seals the main segment: its image and index become the newest sealed
    /// segment under a fresh name and the next recency key, and the main
    /// segment starts empty. Where no recency key is left, nothing changes.
    pub fn rotate(&mut self) -> (r: Result<(), DbError>)
        requires
            old(self).wf(),
        ensures
            final(self).wf(),
            r is Err <==> old(self).next_created == u64::MAX,
            r is Err ==> r == Err::<(), DbError>(DbError::RecencyExhausted) && *final(self) == *old(self),
            r is Ok ==> {
                &&& old(self).sealed_into(final(self))
                &&& final(self).documents() == old(self).documents()
                &&& final(self).mem_table == old(self).mem_table
                &&& final(self).config == old(self).config
                &&& final(self).main_segment.contents() == Map::<u64, Seq<u8>>::empty()
                &&& final(self).main_segment.data@.len() == 0
                &&& final(self).segments@.last().contents() == old(self).main_segment.contents()
            },
    {
        if self.next_created == u64::MAX {
            return Err(DbError::RecencyExhausted);
        }
        let mut id = fresh_id();
        let mut path = segment_path(id.as_str());
        let mut longest: usize = 0;
        let mut i: usize = 0;
        while i < self.segments.len()
            invariant
                i <= self.segments@.len(),
                forall|j: int| 0 <= j < i ==> (#[trigger] self.segments@[j]).path@.len() <= longest,
            decreases self.segments@.len() - i,
        {
            let l = self.segments[i].path.as_str().unicode_len();
            if l > longest {
                longest = l;
            }
            i = i + 1;
        }
        let mut taken = path_taken(&self.segments, &path);
        while taken
            invariant
                forall|j: int| 0 <= j < self.segments@.len() ==> (#[trigger] self.segments@[j]).path@.len() <= longest,
                taken == exists|j: int| 0 <= j < self.segments@.len() && (#[trigger] self.segments@[j]).path@ == path@,
                path@ == segment_path_of(id@),
            decreases longest + 1 - path@.len(),
        {
            proof {
                let j = choose|j: int| 0 <= j < self.segments@.len() && (#[trigger] self.segments@[j]).path@ == path@;
                assert(path@.len() <= longest);
            }
            id.append("x");
            path = segment_path(id.as_str());
            proof {
                reveal_strlit("x");
            }
            taken = path_taken(&self.segments, &path);
        }
        let sealed = Segment {
            path,
            data: copy_bytes(self.main_segment.data.as_slice()),
            index: self.main_segment.index.clone(),
            created: self.next_created,
            lo: self.main_segment.lo,
            hi: self.main_segment.hi,
        };
        self.segments.push(sealed);
        self.next_created = self.next_created + 1;
        let main_path = copy_path(&self.main_segment.path);
        self.main_segment = Segment::empty(main_path, 0);
        proof {
            let o = old(self).layers();
            let n = self.layers();
            let last = self.segments@.len() - 1;
            reveal_strlit("main_segment.db");
            reveal_strlit("./segments/segment_");
            assert(self.segments@[last].path@[0] != self.main_segment.path@[0]);
            assert(self.segments@[last].contents() =~= old(self).main_segment.contents());
            assert(n.drop_first().drop_first() =~= o.drop_first());
            assert forall|k: u64| self.lookup(k) == old(self).lookup(k) by {
                if !o[0].contains_key(k) {
                    assert(layered(o, k) == layered(o.drop_first(), k));
                    assert(layered(n, k) == layered(n.drop_first(), k));
                    assert(!n.drop_first()[0].contains_key(k));
                    assert(layered(n.drop_first(), k) == layered(n.drop_first().drop_first(), k));
                }
            }
            assert(self.documents() =~= old(self).documents());
        }
        Ok(())
    }

    /// Writes every buffered entry, in ascending key order, to the main
    /// segment (sealing it first where it would grow past the threshold), and
    /// empties the memtable. Where sealing is due and no recency key is left,
    /// nothing changes.
    pub fn flush(&mut self) -> (r: Result<(), DbError>)
        requires
            old(self).wf(),
        ensures
            final(self).wf(),
            r is Err <==> old(self).rotation_due() && old(self).next_created == u64::MAX,
            r is Err ==> r == Err::<(), DbError>(DbError::RecencyExhausted) && *final(self) == *old(self),
            r is Ok ==> {
                &&& old(self).segments_after_flush(final(self))
                &&& final(self).documents() == old(self).documents()
                &&& final(self).mem_table.contents() == Map::<u64, Seq<u8>>::empty()
                &&& final(self).mem_table.size == 0
                &&& final(self).config == old(self).config
            },
    {
        let main_size = self.main_segment.data.len() as u64;
        if self.mem_table.size > self.config.max_segment_size
            || main_size > self.config.max_segment_size - self.mem_table.size {
            match self.rotate() {
                Ok(()) => {},
                Err(e) => return Err(e),
            }
        }
        let ghost mid = *self;
        let ghost m0 = self.main_segment.contents();
        let ghost d0 = self.main_segment.data@;
        let ents = self.mem_table.entries();
        let mut i: usize = 0;
        while i < ents.len()
            invariant
                i <= ents@.len(),
                self.mem_table == mid.mem_table,
                self.segments@ == mid.segments@,
                self.config == mid.config,
                self.next_created == mid.next_created,
                self.main_segment.wf(),
                self.main_segment.path == mid.main_segment.path,
                self.main_segment.contents() == m0.union_prefer_right(entries_map(ents@.take(i as int))),
                self.main_segment.data@ == d0 + records_of(ents@.take(i as int)),
            decreases ents@.len() - i,
        {
            self.main_segment.append(ents[i].0, ents[i].1.as_slice());
            proof {
                let s = ents@;
                assert(s.take(i + 1) =~= s.take(i as int).push(s[i as int]));
                lemma_entries_map_push(s.take(i as int), s[i as int]);
                assert(self.main_segment.contents() =~= m0.union_prefer_right(entries_map(s.take(i + 1))));
                assert(self.main_segment.data@ =~= d0 + records_of(s.take(i + 1)));
            }
            i = i + 1;
        }
        proof {
            assert(ents@.take(i as int) =~= ents@);
            assert(ascending_entries(mid.mem_table.contents(), ents@));
            assert(Map::<u64, Seq<u8>>::empty().union_prefer_right(mid.mem_table.contents()) =~= mid.mem_table.contents());
            assert(Seq::<u8>::empty() + records_of(ents@) =~= records_of(ents@));
        }
        self.mem_table.clear();
        proof {
            let o = mid.layers();
            let n = self.layers();
            assert(n.drop_first().drop_first() =~= o.drop_first().drop_first());
            assert forall|k: u64| self.lookup(k) == mid.lookup(k) by {
                assert(!n[0].contains_key(k));
                assert(layered(n, k) == layered(n.drop_first(), k));
                assert(n.drop_first()[0] == n[1]);
                assert(o.drop_first()[0] == o[1]);
                if !o[0].contains_key(k) {
                    assert(layered(o, k) == layered(o.drop_first(), k));
                    if !o[1].contains_key(k) {
                        assert(!n[1].contains_key(k));
                        assert(layered(n.drop_first(), k) == layered(n.drop_first().drop_first(), k));
                        assert(layered(o.drop_first(), k) == layered(o.drop_first().drop_first(), k));
                    }
                }
            }
            assert(self.documents() =~= mid.documents());
        }
        Ok(())
    }

    /// Buffers `value` as the document of `key`, first flushing the memtable
    /// where the new payload would take its byte count past the threshold. A
    /// payload larger than the threshold is still taken, alone in the emptied
    /// memtable. Without a flush no segment changes. Where the flush cannot
    /// seal the main segment for want of a recency key, nothing changes.
    pub fn insert(&mut self, key: u64, value: String) -> (r: Result<(), DbError>)
        requires
            old(self).wf(),
        ensures
            final(self).wf(),
            final(self).config == old(self).config,
            r is Err <==> old(self).flush_due(vstd::utf8::encode_utf8(value@).len()) && old(self).rotation_due()
                && old(self).next_created == u64::MAX,
            r is Err ==> r == Err::<(), DbError>(DbError::RecencyExhausted) && *final(self) == *old(self),
            r is Ok ==> final(self).documents() == old(self).documents().insert(key, vstd::utf8::encode_utf8(value@)),
            r is Ok && old(self).flush_due(vstd::utf8::encode_utf8(value@).len()) ==> {
                &&& old(self).segments_after_flush(final(self))
                &&& final(self).mem_table.contents() == map![key => vstd::utf8::encode_utf8(value@)]
                &&& final(self).mem_table.size == vstd::utf8::encode_utf8(value@).len()
            },
            !old(self).flush_due(vstd::utf8::encode_utf8(value@).len()) ==> {
                &&& final(self).mem_table.contents() == old(self).mem_table.contents().insert(
                    key,
                    vstd::utf8::encode_utf8(value@),
                )
                &&& final(self).mem_table.size == old(self).mem_table.size + vstd::utf8::encode_utf8(value@).len()
                &&& final(self).main_segment == old(self).main_segment
                &&& final(self).segments@ == old(self).segments@
                &&& final(self).next_created == old(self).next_created
            },
    {
        let bytes = copy_bytes(value.as_str().as_bytes());
        let n = bytes.len() as u64;
        if n > self.config.mem_table_max_size || self.mem_table.size > self.config.mem_table_max_size - n {
            match self.flush() {
                Ok(()) => {},
                Err(e) => return Err(e),
            }
        }
        let ghost mid = *self;
        self.mem_table.put(key, bytes);
        proof {
            let o = mid.layers();
            let nl = self.layers();
            assert(nl.drop_first() =~= o.drop_first());
            assert forall|k: u64| k != key implies self.lookup(k) == mid.lookup(k) by {}
            assert(self.lookup(key) == Some(vstd::utf8::encode_utf8(value@)));
            assert(self.documents() =~= mid.documents().insert(key, vstd::utf8::encode_utf8(value@)));
            if old(self).flush_due(vstd::utf8::encode_utf8(value@).len()) {
                assert(self.mem_table.contents() =~= map![key => vstd::utf8::encode_utf8(value@)]);
            }
        }
        Ok(())
    }

    /// The stored bytes of the current document of `key`: the memtable first,
    /// then the main segment, then the sealed segments from newest to oldest.
    pub fn find_raw(&self, key: u64) -> (r: Option<Vec<u8>>)
        requires
            self.wf(),
        ensures
            match r {
                Some(v) => self.lookup(key) == Some(v@),
                None => self.lookup(key) is None,
            },
    {
        let ghost ls = self.layers();
        match self.mem_table.get(key) {
            Some(v) => return Some(v),
            None => {},
        }
        match self.main_segment.get(key) {
            Some(v) => {
                proof {
                    lemma_layered_first(ls, 1, key);
                }
                return Some(v);
            },
            None => {},
        }
        let len = self.segments.len();
        let mut i: usize = len;
        while i > 0
            invariant
                i <= len == self.segments@.len(),
                self.wf(),
                ls == self.layers(),
                !ls[0].contains_key(key),
                !ls[1].contains_key(key),
                forall|j: int| i <= j < len ==> !(#[trigger] self.segments@[j]).contents().contains_key(key),
            decreases i,
        {
            i = i - 1;
            match self.segments[i].get(key) {
                Some(v) => {
                    proof {
                        let l = 2 + (len - 1 - i);
                        assert(ls[l] == self.segments@[i as int].contents());
                        assert forall|m: int| 0 <= m < l implies !(#[trigger] ls[m].contains_key(key)) by {
                            if m >= 2 {
                                assert(ls[m] == self.segments@[len - 1 - (m - 2)].contents());
                            }
                        }
                        lemma_layered_first(ls, l, key);
                    }
                    return Some(v);
                },
                None => {},
            }
        }
        proof {
            assert forall|m: int| 0 <= m < ls.len() implies !(#[trigger] ls[m].contains_key(key)) by {
                if m >= 2 {
                    assert(ls[m] == self.segments@[len - 1 - (m - 2)].contents());
                }
            }
            lemma_layered_none(ls, key);
        }
        None
    }

    /// The current document of `key`, `None` where it was never written, or a
    /// decode error where its stored text is not JSON.
    pub fn find_by_id(&self, key: &u64) -> (r: Result<Option<serde_json::Value>, DbError>)
        requires
            self.wf(),
        ensures
            r == match self.lookup(*key) {
                None => Ok::<Option<serde_json::Value>, DbError>(None),
                Some(b) => match json_of(b) {
                    Some(v) => Ok(Some(v)),
                    None => Err(DbError::Decode),
                },
            },
    {
        match self.find_raw(*key) {
            None => Ok(None),
            Some(b) => match decode_document(b.as_slice()) {
                Ok(v) => Ok(Some(v)),
                Err(e) => Err(e),
            },
        }
    }
    /// Every key and document a range query returns: exactly the keys in
    /// `start..=end` that have a current document, each once, with that
    /// document; grouped by the structure that answers for the key, most
    /// recent structure first, and ascending by key within each group.
    pub open spec fn range_answer(&self, start: u64, end: u64, r: Seq<(u64, Seq<u8>)>) -> bool {
        &&& forall|i: int| 0 <= i < r.len() ==> start <= (#[trigger] r[i]).0 <= end
            && self.lookup(r[i].0) == Some(r[i].1)
        &&& forall|i: int, j: int| 0 <= i < j < r.len() ==> r[i].0 != r[j].0
        &&& forall|k: u64| start <= k <= end && (#[trigger] self.lookup(k)) is Some ==> exists|i: int|
            0 <= i < r.len() && r[i].0 == k
        &&& layer_ordered(self.layers(), r)
    }

    /// Adds the in-range keys of one segment, layer `j` of the lookup order,
    /// that no earlier layer holds, visiting them in ascending order.
    fn collect_segment(
        &self,
        seg: &Segment,
        start: u64,
        end: u64,
        seen: &mut BTreeSet<u64>,
        out: &mut Vec<(u64, Vec<u8>)>,
        Ghost(j): Ghost<int>,
    )
        requires
            self.wf(),
            seg.wf(),
            0 <= j < self.layers().len(),
            self.layers()[j] == seg.contents(),
            collected(self.layers(), j, start, end, old(seen)@, old(out)@),
            below_layer(self.layers(), j, old(out)@),
        ensures
            collected(self.layers(), j + 1, start, end, final(seen)@, final(out)@),
            below_layer(self.layers(), j + 1, final(out)@),
    {
        let ghost ls = self.layers();
        let a = if start > seg.lo { start } else { seg.lo };
        let b = if end < seg.hi { end } else { seg.hi };
        if a > b {
            proof {
                assert forall|k: u64, l: int|
                    0 <= l < j + 1 && start <= k <= end && #[trigger] ls[l].contains_key(k) implies seen@.contains(k) by {
                    if l == j {
                        assert(seg.index@.contains_key(k));
                    }
                }
            }
            return;
        }
        let mut k: u64 = a;
        let mut done = false;
        while !done
            invariant
                a <= k <= b,
                ls == self.layers(),
                self.wf(),
                seg.wf(),
                0 <= j < ls.len(),
                ls[j] == seg.contents(),
                a == (if start > seg.lo { start } else { seg.lo }),
                b == (if end < seg.hi { end } else { seg.hi }),
                collected(ls, j, start, end, seen@, out@),
                below_layer(ls, j + 1, out@),
                forall|i: int| 0 <= i < out@.len() && first_layer(ls, (#[trigger] out@[i]).0) == j
                    ==> out@[i].0 < k || done,
                forall|k2: u64|
                    start <= k2 <= end && #[trigger] ls[j].contains_key(k2) && (k2 < k || done) ==> seen@.contains(k2),
                done ==> k == b,
            decreases b - k + (if done { 0int } else { 1int }),
        {
            if !seen.contains(&k) {
                match seg.get(k) {
                    Some(v) => {
                        proof {
                            assert forall|l: int| 0 <= l < j implies !(#[trigger] ls[l].contains_key(k)) by {}
                            lemma_layered_first(ls, j, k);
                        }
                        let ghost before = out@;
                        out.push((k, v));
                        seen.insert(k);
                        proof {
                            assert(out@[out@.len() - 1].0 == k);
                            assert forall|k3: u64| #[trigger] seen@.contains(k3) implies exists|i: int|
                                0 <= i < out@.len() && out@[i].0 == k3 by {
                                if k3 != k {
                                    let i = choose|i: int| 0 <= i < before.len() && before[i].0 == k3;
                                    assert(out@[i] == before[i]);
                                }
                            }
                            assert forall|i: int| 0 <= i < out@.len() implies start <= (#[trigger] out@[i]).0 <= end
                                && layered(ls, out@[i].0) == Some(out@[i].1@) && seen@.contains(out@[i].0) by {
                                if i < before.len() {
                                    assert(out@[i] == before[i]);
                                }
                            }
                            assert forall|i: int, i2: int| 0 <= i < i2 < out@.len() implies out@[i].0 != out@[i2].0 by {
                                if i2 < before.len() {
                                    assert(out@[i] == before[i] && out@[i2] == before[i2]);
                                } else {
                                    assert(out@[i] == before[i]);
                                    assert(seen@.contains(before[i].0));
                                }
                            }
                            let pv = pairs_view(out@);
                            let pb = pairs_view(before);
                            assert forall|i: int, i2: int| 0 <= i < i2 < pv.len() implies {
                                ||| first_layer(ls, pv[i].0) < first_layer(ls, pv[i2].0)
                                ||| first_layer(ls, pv[i].0) == first_layer(ls, pv[i2].0) && pv[i].0 < pv[i2].0
                            } by {
                                assert(out@[i] == before[i]);
                                if i2 < before.len() {
                                    assert(out@[i2] == before[i2]);
                                    assert(pv[i] == pb[i] && pv[i2] == pb[i2]);
                                } else {
                                    assert(first_layer(ls, before[i].0) <= j);
                                }
                            }
                            assert forall|i: int| 0 <= i < out@.len() implies first_layer(ls, (#[trigger] out@[i]).0) < j + 1 by {
                                if i < before.len() {
                                    assert(out@[i] == before[i]);
                                }
                            }
                            assert forall|i: int| 0 <= i < out@.len() && first_layer(ls, (#[trigger] out@[i]).0) == j
                                implies out@[i].0 <= k by {
                                if i < before.len() {
                                    assert(out@[i] == before[i]);
                                }
                            }
                        }
                    },
                    None => {},
                }
            }
            if k == b {
                done = true;
            } else {
                k = k + 1;
            }
        }
        proof {
            assert forall|k2: u64, l: int|
                0 <= l < j + 1 && start <= k2 <= end && #[trigger] ls[l].contains_key(k2) implies seen@.contains(k2) by {
                if l == j {
                    assert(seg.index@.contains_key(k2));
                }
            }
        }
    }

    /// The current stored bytes of every key in `start..=end`: the memtable's
    /// keys in ascending order, then those of the main segment, then those of
    /// each sealed segment from newest to oldest, each key only where no more
    /// recent structure already gave it.
    pub fn find_raw_range(&self, start: u64, end: u64) -> (r: Vec<(u64, Vec<u8>)>)
        requires
            self.wf(),
        ensures
            self.range_answer(start, end, pairs_view(r@)),
    {
        let ghost ls = self.layers();
        let mut seen: BTreeSet<u64> = BTreeSet::new();
        let mut out: Vec<(u64, Vec<u8>)> = Vec::new();
        let ents = self.mem_table.entries();
        proof {
            crate::memtable::lemma_entries_map(ents@);
        }
        let mut i: usize = 0;
        while i < ents.len()
            invariant
                ls == self.layers(),
                self.wf(),
                i <= ents@.len(),
                ascending_entries(self.mem_table.contents(), ents@),
                collected(ls, 0, start, end, seen@, out@),
                below_layer(ls, 1, out@),
                forall|p: int| 0 <= p < out@.len() ==> i > 0 && (#[trigger] out@[p]).0 <= ents@[i - 1].0,
                forall|p: int| 0 <= p < i && start <= ents@[p].0 <= end
                    ==> seen@.contains(#[trigger] ents@[p].0),
            decreases ents@.len() - i,
        {
            let k = ents[i].0;
            if start <= k && k <= end && !seen.contains(&k) {
                let v = copy_bytes(ents[i].1.as_slice());
                proof {
                    crate::memtable::lemma_entries_map(ents@);
                    assert(ls[0] == self.mem_table.contents());
                    assert(ls[0][k] == v@);
                }
                let ghost before = out@;
                out.push((k, v));
                seen.insert(k);
                proof {
                    assert forall|k3: u64| #[trigger] seen@.contains(k3) implies exists|i: int|
                        0 <= i < out@.len() && out@[i].0 == k3 by {
                        if k3 != k {
                            let i = choose|i: int| 0 <= i < before.len() && before[i].0 == k3;
                            assert(out@[i] == before[i]);
                        } else {
                            assert(out@[out@.len() - 1].0 == k);
                        }
                    }
                    assert forall|p: int| 0 <= p < out@.len() implies start <= (#[trigger] out@[p]).0 <= end
                        && layered(ls, out@[p].0) == Some(out@[p].1@) && seen@.contains(out@[p].0) by {
                        if p < before.len() {
                            assert(out@[p] == before[p]);
                        }
                    }
                    assert forall|p: int, q: int| 0 <= p < q < out@.len() implies out@[p].0 != out@[q].0 by {
                        if q < before.len() {
                            assert(out@[p] == before[p] && out@[q] == before[q]);
                        } else {
                            assert(out@[p] == before[p]);
                            assert(seen@.contains(before[p].0));
                        }
                    }
                    lemma_layered_first(ls, 0, k);
                    let pv = pairs_view(out@);
                    let pb = pairs_view(before);
                    assert forall|p: int, q: int| 0 <= p < q < pv.len() implies {
                        ||| first_layer(ls, pv[p].0) < first_layer(ls, pv[q].0)
                        ||| first_layer(ls, pv[p].0) == first_layer(ls, pv[q].0) && pv[p].0 < pv[q].0
                    } by {
                        assert(out@[p] == before[p]);
                        if q < before.len() {
                            assert(out@[q] == before[q]);
                            assert(pv[p] == pb[p] && pv[q] == pb[q]);
                        } else {
                            assert(first_layer(ls, before[p].0) < 1);
                            assert(before[p].0 <= ents@[i - 1].0);
                        }
                    }
                    assert forall|p: int| 0 <= p < out@.len() implies first_layer(ls, (#[trigger] out@[p]).0) < 1 by {
                        if p < before.len() {
                            assert(out@[p] == before[p]);
                        }
                    }
                }
            }
            i = i + 1;
        }
        proof {
            assert forall|k2: u64, l: int|
                0 <= l < 1 && start <= k2 <= end && #[trigger] ls[l].contains_key(k2) implies seen@.contains(k2) by {
                crate::memtable::lemma_entries_map(ents@);
                let p = choose|p: int| 0 <= p < ents@.len() && ents@[p].0 == k2;
                assert(seen@.contains(ents@[p].0));
            }
        }
        self.collect_segment(&self.main_segment, start, end, &mut seen, &mut out, Ghost(1));
        let len = self.segments.len();
        let mut s: usize = len;
        while s > 0
            invariant
                ls == self.layers(),
                self.wf(),
                s <= len == self.segments@.len(),
                collected(ls, 2 + (len - s), start, end, seen@, out@),
                below_layer(ls, 2 + (len - s), out@),
            decreases s,
        {
            s = s - 1;
            proof {
                assert(ls[2 + (len - 1 - s)] == self.segments@[s as int].contents());
            }
            self.collect_segment(&self.segments[s], start, end, &mut seen, &mut out, Ghost(2 + (len - 1 - s)));
        }
        proof {
            let pv = pairs_view(out@);
            assert forall|k: u64| start <= k <= end && (#[trigger] self.lookup(k)) is Some implies exists|i: int|
                0 <= i < pv.len() && pv[i].0 == k by {
                if forall|l: int| 0 <= l < ls.len() ==> !(#[trigger] ls[l].contains_key(k)) {
                    lemma_layered_none(ls, k);
                }
                let l = choose|l: int| 0 <= l < ls.len() && #[trigger] ls[l].contains_key(k);
                assert(seen@.contains(k));
                let i = choose|i: int| 0 <= i < out@.len() && out@[i].0 == k;
                assert(pv[i].0 == k);
            }
            assert forall|i: int| 0 <= i < pv.len() implies start <= (#[trigger] pv[i]).0 <= end
                && self.lookup(pv[i].0) == Some(pv[i].1) by {
                assert(start <= out@[i].0 <= end);
            }
            assert forall|i: int, j: int| 0 <= i < j < pv.len() implies pv[i].0 != pv[j].0 by {
                assert(out@[i].0 != out@[j].0);
            }
        }
        out
    }

    /// The current documents of every key in `start..=end`, in the order of
    /// `find_raw_range`; a decode error where one of them is not JSON text.
    pub fn find_by_id_range(&self, start_key: &u64, end_key: &u64) -> (r: Result<Vec<serde_json::Value>, DbError>)
        requires
            self.wf(),
        ensures
            match r {
                Ok(docs) => exists|raw: Seq<(u64, Seq<u8>)>| #[trigger] self.range_answer(*start_key, *end_key, raw)
                    && docs@.len() == raw.len()
                    && forall|i: int| 0 <= i < raw.len() ==> json_of(#[trigger] raw[i].1) == Some(docs@[i]),
                Err(e) => e == DbError::Decode && exists|k: u64| *start_key <= k <= *end_key
                    && #[trigger] self.lookup(k) is Some && json_of(self.lookup(k)->0) is None,
            },
    {
        let raw = self.find_raw_range(*start_key, *end_key);
        let r = decode_all(&raw);
        proof {
            let pv = pairs_view(raw@);
            match &r {
                Ok(docs) => {
                    assert(self.range_answer(*start_key, *end_key, pv));
                    assert forall|i: int| 0 <= i < pv.len() implies json_of(#[trigger] pv[i].1) == Some(docs@[i]) by {
                        assert(json_of(raw@[i].1@) == Some(docs@[i]));
                    }
                },
                Err(_) => {
                    let i = choose|i: int| 0 <= i < raw@.len() && json_of(#[trigger] raw@[i].1@) is None;
                    assert(pv[i].0 == raw@[i].0);
                    assert(self.lookup(raw@[i].0) == Some(pv[i].1));
                },
            }
        }
        r
    }
    /// Compacts one segment in place: its image becomes the records its
    /// index points at, one per key in ascending key order, so compacting it
    /// again changes nothing. No current document changes, and the image does not grow. Naming a sealed segment that does not exist is an error that
    /// changes nothing.
    pub fn compact(&mut self, target: SegmentRef) -> (r: Result<(), DbError>)
        requires
            old(self).wf(),
        ensures
            final(self).wf(),
            final(self).documents() == old(self).documents(),
            final(self).mem_table == old(self).mem_table,
            final(self).config == old(self).config,
            final(self).segments@.len() == old(self).segments@.len(),
            match target {
                SegmentRef::Main => {
                    &&& r is Ok
                    &&& final(self).main_segment.contents() == old(self).main_segment.contents()
                    &&& final(self).main_segment.data@.len() <= old(self).main_segment.data@.len()
                    &&& exists|ks: Seq<u64>| #[trigger] ascending_keys_of(ks, old(self).main_segment.index@)
                        && final(self).main_segment.data@ == records_in(old(self).main_segment.contents(), ks)
                    &&& compacted_from(final(self).main_segment.data@, final(self).main_segment.index@, 0)
                        == final(self).main_segment.data@
                    &&& final(self).segments@ == old(self).segments@
                },
                SegmentRef::Sealed(i) => if i < old(self).segments@.len() {
                    &&& r is Ok
                    &&& final(self).segments@[i as int].contents() == old(self).segments@[i as int].contents()
                    &&& final(self).segments@[i as int].data@.len() <= old(self).segments@[i as int].data@.len()
                    &&& exists|ks: Seq<u64>| #[trigger] ascending_keys_of(ks, old(self).segments@[i as int].index@)
                        && final(self).segments@[i as int].data@ == records_in(old(self).segments@[i as int].contents(), ks)
                    &&& compacted_from(final(self).segments@[i as int].data@, final(self).segments@[i as int].index@, 0)
                        == final(self).segments@[i as int].data@
                    &&& final(self).segments@[i as int].path == old(self).segments@[i as int].path
                    &&& final(self).main_segment == old(self).main_segment
                    &&& forall|j: int| 0 <= j < old(self).segments@.len() && j != i
                        ==> final(self).segments@[j] == old(self).segments@[j]
                } else {
                    &&& r == Err::<(), DbError>(DbError::NoSuchSegment)
                    &&& final(self).main_segment == old(self).main_segment
                    &&& final(self).segments@ == old(self).segments@
                },
            },
    {
        match target {
            SegmentRef::Main => {
                self.main_segment.compact();
            },
            SegmentRef::Sealed(i) => {
                if i >= self.segments.len() {
                    return Err(DbError::NoSuchSegment);
                }
                let mut seg = self.segments.remove(i);
                seg.compact();
                self.segments.insert(i, seg);
                proof {
                    assert forall|j: int| 0 <= j < old(self).segments@.len() && j != i
                        implies self.segments@[j] == old(self).segments@[j] by {}
                }
            },
        }
        proof {
            assert(self.layers() =~= old(self).layers());
            assert(self.documents() =~= old(self).documents());
        }
        Ok(())
    }
}

/// Whether some segment of `segs` has the file name `path`.
fn path_taken(segs: &Vec<Segment>, path: &String) -> (r: bool)
    ensures
        r == exists|j: int| 0 <= j < segs@.len() && (#[trigger] segs@[j]).path@ == path@,
{
    let mut i: usize = 0;
    while i < segs.len()
        invariant
            i <= segs@.len(),
            forall|j: int| 0 <= j < i ==> (#[trigger] segs@[j]).path@ != path@,
        decreases segs@.len() - i,
    {
        if segs[i].path == *path {
            return true;
        }
        i = i + 1;
    }
    false
}

/// A copy of a path.
fn copy_path(p: &String) -> (r: String)
    ensures
        r == *p,
{
    p.clone()
}

} // verus!
