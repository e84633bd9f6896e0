//! The metadata store: single owner of the ordered record list, with
//! write-through persistence. Every mutation hands back the JSON text of the
//! new list; the caller writes that text to the backing file before letting
//! the next operation in, so memory and disk agree after every successful
//! mutation. The caller is expected to run all operations under one mutual
//! exclusion boundary covering both the in-memory update and the disk write.
//!
//! Should the disk write itself fail, the caller surfaces the error; the
//! in-memory list stays mutated, and the next successful mutation rewrites
//! the whole file.

use vstd::prelude::*;
use crate::json::parse_images;
use crate::json::serialize_images;
use crate::json::serialize_spec;
use crate::json::spec_load;
use crate::record::ImageMeta;
use crate::record::ImageMetaView;

verus! {

/// The backing file's contents as seen at startup: `None` stands for a file
/// that is missing or unreadable.
pub open spec fn contents_view(contents: Option<&str>) -> Option<Seq<char>> {
    match contents {
        Some(s) => Some(s@),
        None => None,
    }
}

/// Load the record list from the backing file's contents. Malformed contents
/// degrade to the empty list: the service must start even with a corrupted
/// state file.
pub fn load_images(contents: Option<&str>) -> (r: Vec<ImageMeta>)
    ensures
        r.deep_view() == spec_load(contents_view(contents)),
{
    let parsed = match contents {
        None => None,
        Some(s) => parse_images(s),
    };
    match parsed {
        Some(l) => l,
        None => {
            let v: Vec<ImageMeta> = Vec::new();
            assert(v.deep_view() =~= Seq::<ImageMetaView>::empty());
            v
        },
    }
}

/// The metadata store. It owns the list; everything else goes through
/// [`ImageStore::snapshot`], [`ImageStore::append`] and
/// [`ImageStore::replace`].
pub struct ImageStore {
    images: Vec<ImageMeta>,
}

impl View for ImageStore {
    type V = Seq<ImageMetaView>;

    closed spec fn view(&self) -> Seq<ImageMetaView> {
        self.images.deep_view()
    }
}

impl ImageStore {
    /// An empty store.
    pub fn new() -> (s: Self)
        ensures
            s@ == Seq::<ImageMetaView>::empty(),
    {
        let v: Vec<ImageMeta> = Vec::new();
        assert(v.deep_view() =~= Seq::<ImageMetaView>::empty());
        ImageStore { images: v }
    }

    /// A store holding the given records; pair it with [`load_images`] at
    /// startup.
    pub fn from_images(images: Vec<ImageMeta>) -> (s: Self)
        ensures
            s@ == images.deep_view(),
    {
        ImageStore { images }
    }

    /// How many records the store holds.
    pub fn len(&self) -> (n: usize)
        ensures
            n == self@.len(),
    {
        self.images.len()
    }

    /// Snapshot-read: a complete copy of the current list. Never fails, and
    /// never shows a partial mutation.
    pub fn snapshot(&self) -> (r: Vec<ImageMeta>)
        ensures
            r.deep_view() == self@,
    {
        let mut r: Vec<ImageMeta> = Vec::new();
        let mut i: usize = 0;
        while i < self.images.len()
            invariant
                i <= self.images@.len(),
                r@.len() == i,
                r.deep_view() == self.images.deep_view().take(i as int),
            decreases self.images@.len() - i,
        {
            let c = self.images[i].clone();
            assert(c@ == self.images@[i as int]@);
            r.push(c);
            assert(r.deep_view() =~= self.images.deep_view().take(i + 1 as int)) by {
                assert(forall|q: int|
                    0 <= q < r@.len() ==> r.deep_view()[q] == #[trigger] r@[q].deep_view());
                assert(forall|q: int|
                    0 <= q < self.images@.len() ==> self.images.deep_view()[q]
                        == #[trigger] self.images@[q].deep_view());
            }
            i = i + 1;
        }
        assert(self.images.deep_view().take(self.images@.len() as int) =~= self.images.deep_view());
        r
    }

    /// Append one record to the end of the list and re-serialize the whole
    /// list; the returned JSON is what the backing file must now hold.
    pub fn append(&mut self, record: ImageMeta) -> (json: String)
        ensures
            final(self)@ == old(self)@.push(record@),
            json@ == serialize_spec(final(self)@),
    {
        let ghost before = self.images.deep_view();
        self.images.push(record);
        proof {
            assert(self.images.deep_view() =~= before.push(record@)) by {
                assert(forall|q: int|
                    0 <= q < self.images@.len() ==> self.images.deep_view()[q]
                        == #[trigger] self.images@[q].deep_view());
            }
        }
        serialize_images(&self.images)
    }

    /// Swap the entire list for `records` and re-serialize; the returned JSON
    /// is what the backing file must now hold.
    pub fn replace(&mut self, records: Vec<ImageMeta>) -> (json: String)
        ensures
            final(self)@ == records.deep_view(),
            json@ == serialize_spec(final(self)@),
    {
        self.images = records;
        serialize_images(&self.images)
    }

    /// The serialized form of the current contents, without mutating.
    pub fn to_json(&self) -> (json: String)
        ensures
            json@ == serialize_spec(self@),
    {
        serialize_images(&self.images)
    }
}

/// Idempotent reads: a snapshot is a function of the store's state alone, so
/// repeated snapshots with no intervening mutation return identical sequences.
pub proof fn lemma_snapshot_idempotent(s: ImageStore, r1: Seq<ImageMetaView>, r2: Seq<
    ImageMetaView,
>)
    requires
        r1 == s@,
        r2 == s@,
    ensures
        r1 == r2,
{
}

/// Round-trip, in-memory half: right after an append, the snapshot holds the
/// appended record as its last element, with everything before it unchanged.
pub proof fn lemma_append_last(before: Seq<ImageMetaView>, r: ImageMetaView)
    ensures
        before.push(r).len() == before.len() + 1,
        before.push(r).last() == r,
        forall|i: int| 0 <= i < before.len() ==> before.push(r)[i] == before[i],
{
}

/// The list after a chain of appends, each starting from the previous result:
/// how serialized appends compose.
pub open spec fn fold_appends(init: Seq<ImageMetaView>, records: Seq<ImageMetaView>) -> Seq<
    ImageMetaView,
>
    decreases records.len(),
{
    if records.len() == 0 {
        init
    } else {
        fold_appends(init.push(records[0]), records.skip(1))
    }
}

/// Mutual exclusion pays off: appends run one at a time, in whatever order
/// the requests won the lock, and none is lost — after N appends of distinct
/// records the list holds exactly N more elements, the appended records in
/// arrival order behind the initial ones.
pub proof fn lemma_no_lost_updates(init: Seq<ImageMetaView>, records: Seq<ImageMetaView>)
    ensures
        fold_appends(init, records) == init + records,
        fold_appends(init, records).len() == init.len() + records.len(),
        forall|i: int|
            0 <= i < records.len() ==> fold_appends(init, records)[init.len() + i] == records[i],
    decreases records.len(),
{
    if records.len() == 0 {
        assert(init + records =~= init);
    } else {
        lemma_no_lost_updates(init.push(records[0]), records.skip(1));
        assert(init.push(records[0]) + records.skip(1) =~= init + records);
    }
}

/// Replace semantics, serialized half: the empty list serializes as an empty
/// JSON array, so after `replace` with no records the backing file holds
/// exactly `[]`.
pub proof fn lemma_replace_empty_serializes_empty()
    ensures
        serialize_spec(Seq::<ImageMetaView>::empty()) == "[]"@,
{
}

} // verus!
