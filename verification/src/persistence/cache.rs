//! The in-memory image cache.
//!
//! It holds decoded images beside their documents, so that a tool need not
//! read and decode the file again; the file on disk stays the source of
//! truth. The least recently used entries leave when either budget, that of
//! bytes or that of images, is exceeded.
use crate::error::RpError;
use crate::persistence::document::{
    file_name, file_name_of, fits_sidecar, is_fits_path, last_part, lemma_fits_name, plain_path,
    roll_back_undoes_staging, rolled_back, same_but_sections, staged_over, ExposureDocument,
};
use crate::persistence::pixels::{capped_bytes, CachedPixels};
use crate::text::{concat2, same_text};
use vstd::prelude::*;
use vstd::seq_lib::{to_multiset_build, to_multiset_contains, to_multiset_remove};

verus! {

/// A cached image with what tools need to make sense of it.
pub struct CachedImage {
    pub pixels: CachedPixels,
    pub width: u32,
    pub height: u32,
    pub fits_path: String,
    pub max_adu: u32,
    pub document: ExposureDocument,
    /// The size of the document when it was last written out as JSON.
    pub json_nbytes: usize,
}

impl CachedImage {
    /// The bytes that count against the budget: pixels and document.
    pub open spec fn byte_size(self) -> int {
        capped_bytes(self.pixels.byte_size() + self.json_nbytes)
    }

    /// An entry for the cache. A document that could not be written out as
    /// JSON counts for nothing.
    pub fn new(
        pixels: CachedPixels,
        width: u32,
        height: u32,
        fits_path: String,
        max_adu: u32,
        document: ExposureDocument,
        serialized: Option<usize>,
    ) -> (r: Self)
        ensures
            r == (CachedImage {
                pixels,
                width,
                height,
                fits_path,
                max_adu,
                document,
                json_nbytes: match serialized {
                    Some(n) => n,
                    None => 0,
                },
            }),
    {
        let json_nbytes: usize = match serialized {
            Some(n) => n,
            None => 0,
        };
        CachedImage { pixels, width, height, fits_path, max_adu, document, json_nbytes }
    }

    /// The bytes that count against the budget: pixels and document.
    pub fn nbytes(&self) -> (r: usize)
        ensures
            r == self.byte_size(),
    {
        self.pixels.nbytes().saturating_add(self.json_nbytes)
    }
}

/// An image in the cache.
#[verifier::ext_equal]
pub struct CacheEntry {
    /// The id of the image's document.
    pub id: Seq<char>,
    pub image: CachedImage,
    /// The number of the insertion that the image came in by.
    pub ticket: u64,
}

/// What an [`ImageCache`] holds.
#[verifier::ext_equal]
pub struct CacheView {
    /// The images, the least recently used first.
    pub entries: Seq<CacheEntry>,
    /// The running total of bytes.
    pub bytes: int,
    pub max_bytes: int,
    pub max_images: int,
    /// The number of the next insertion.
    pub next_ticket: u64,
}

/// The number after a ticket; the count starts over when it is exhausted.
pub open spec fn ticket_after(ticket: u64) -> u64 {
    if ticket == u64::MAX {
        0
    } else {
        (ticket + 1) as u64
    }
}

/// The bytes of the first `n` entries.
pub open spec fn entry_bytes(entries: Seq<CacheEntry>, n: int) -> int
    decreases n,
{
    if n <= 0 {
        0
    } else {
        entry_bytes(entries, n - 1) + entries[n - 1].image.byte_size()
    }
}

/// The place at `from` or after it that an id has among the entries.
pub open spec fn place_from(
    entries: Seq<CacheEntry>,
    id: Seq<char>,
    from: int,
) -> Option<int>
    decreases entries.len() - from,
{
    if from < 0 || from >= entries.len() {
        None
    } else if entries[from].id == id {
        Some(from)
    } else {
        place_from(entries, id, from + 1)
    }
}

impl CacheView {
    /// The place of a document among the entries.
    pub open spec fn place(self, id: Seq<char>) -> Option<int> {
        place_from(self.entries, id, 0)
    }

    /// The place of a document's image that came in by a certain insertion.
    pub open spec fn place_of(self, id: Seq<char>, ticket: u64) -> Option<int> {
        match self.place(id) {
            Some(i) => if self.entries[i].ticket == ticket {
                Some(i)
            } else {
                None
            },
            None => None,
        }
    }

    /// No document has two entries.
    pub open spec fn distinct(self) -> bool {
        forall|i: int, j: int|
            0 <= i < j < self.entries.len() ==> (#[trigger] self.entries[i]).id != (
            #[trigger] self.entries[j]).id
    }

    /// The cache with a document made the most recently used.
    pub open spec fn promoted(self, id: Seq<char>) -> CacheView {
        match self.place(id) {
            Some(i) => CacheView {
                entries: self.entries.remove(i).push(self.entries[i]),
                ..self
            },
            None => self,
        }
    }

    /// The running total after the `k` least recently used entries have
    /// left; it does not go below zero.
    pub open spec fn bytes_after(self, k: int) -> int {
        let rest = self.bytes - entry_bytes(self.entries, k);
        if rest < 0 {
            0
        } else {
            rest
        }
    }

    /// Both budgets are met once the `k` least recently used entries have
    /// left.
    pub open spec fn fits_after(self, k: int) -> bool {
        self.bytes_after(k) <= self.max_bytes && self.entries.len() - k <= self.max_images
    }

    /// The least number of evictions, `k` or more, that meets both budgets
    /// or empties the cache.
    pub open spec fn evictions_from(self, k: int) -> int
        decreases self.entries.len() - k,
    {
        if k >= self.entries.len() || self.fits_after(k) {
            k
        } else {
            self.evictions_from(k + 1)
        }
    }

    /// The cache after just enough of its least recently used entries have
    /// left.
    pub open spec fn evicted(self) -> CacheView {
        let k = self.evictions_from(0);
        CacheView { entries: self.entries.skip(k), bytes: self.bytes_after(k), ..self }
    }

    /// The cache without a document.
    pub open spec fn without(self, id: Seq<char>) -> CacheView {
        match self.place(id) {
            Some(i) => CacheView {
                entries: self.entries.remove(i),
                bytes: {
                    let rest = self.bytes - self.entries[i].image.byte_size();
                    if rest < 0 {
                        0
                    } else {
                        rest
                    }
                },
                ..self
            },
            None => self,
        }
    }

    /// The cache with an image in it as the most recently used, in place of
    /// any earlier one of the same document.
    pub open spec fn with_image(self, id: Seq<char>, image: CachedImage) -> CacheView {
        let base = self.without(id);
        CacheView {
            entries: base.entries.push(CacheEntry { id, image, ticket: base.next_ticket }),
            bytes: capped_bytes(base.bytes + image.byte_size()),
            next_ticket: ticket_after(base.next_ticket),
            ..base
        }
    }

    /// The cache with an image put in, and then trimmed.
    pub open spec fn inserted(self, id: Seq<char>, image: CachedImage) -> CacheView {
        self.with_image(id, image).evicted()
    }

    /// The cache with its running total moved by `delta`, and then trimmed.
    pub open spec fn adjusted(self, delta: int) -> CacheView {
        let moved = self.bytes + delta;
        CacheView {
            bytes: if moved < 0 {
                0
            } else {
                capped_bytes(moved)
            },
            ..self
        }.evicted()
    }

    /// The running total is the sum of what the entries take.
    pub open spec fn accounted(self) -> bool {
        self.bytes == entry_bytes(self.entries, self.entries.len() as int)
    }

    /// Every ticket in the cache was given out before the next one.
    pub open spec fn tickets_are_issued(self) -> bool {
        forall|i: int|
            0 <= i < self.entries.len() ==> (#[trigger] self.entries[i]).ticket < self.next_ticket
    }

    /// The cache is as it should be: no document has two entries, the running
    /// total is what the entries take, and both budgets are met.
    pub open spec fn sound(self) -> bool {
        self.distinct() && self.accounted() && self.within_budget()
    }

    /// The JSON size of the document at a place can be set, and every sum
    /// stays within the range of its number.
    pub open spec fn has_room_for_json(self, i: int, json_nbytes: usize) -> bool {
        let image = self.entries[i].image;
        &&& json_nbytes <= i64::MAX
        &&& image.json_nbytes <= i64::MAX
        &&& image.pixels.byte_size() + image.json_nbytes <= usize::MAX
        &&& image.pixels.byte_size() + json_nbytes <= usize::MAX
        &&& self.bytes + json_nbytes <= usize::MAX
    }

    /// Both budgets are met.
    pub open spec fn within_budget(self) -> bool {
        self.bytes <= self.max_bytes && self.entries.len() <= self.max_images
    }
}

/// A section that was written into a cached document and is not on disk yet.
pub struct StagedSection {
    pub document_id: String,
    /// The number of the insertion that the document's image came in by.
    pub ticket: u64,
    pub name: String,
    /// What stood there before.
    pub prior: Option<serde_json::Value>,
}

struct Entry {
    id: String,
    image: CachedImage,
    ticket: u64,
}

spec fn entries_view(entries: Seq<Entry>) -> Seq<CacheEntry> {
    Seq::new(
        entries.len(),
        |i: int|
            CacheEntry { id: entries[i].id@, image: entries[i].image, ticket: entries[i].ticket },
    )
}

/// The place of a document among the entries.
fn find_in(entries: &Vec<Entry>, document_id: &str) -> (r: Option<usize>)
    ensures
        match r {
            Some(i) => place_from(entries_view(entries@), document_id@, 0) == Some(i as int) && i
                < entries@.len() && entries@[i as int].id@ == document_id@,
            None => place_from(entries_view(entries@), document_id@, 0) is None,
        },
{
    let ghost held = entries_view(entries@);
    let mut i: usize = 0;
    while i < entries.len()
        invariant
            i <= entries.len(),
            held == entries_view(entries@),
            place_from(held, document_id@, 0) == place_from(held, document_id@, i as int),
        decreases entries.len() - i,
    {
        assert(held[i as int].id == entries@[i as int].id@);
        if same_text(entries[i].id.as_str(), document_id) {
            return Some(i);
        }
        i = i + 1;
    }
    None
}

/// The image cache.
pub struct ImageCache {
    /// The least recently used first.
    entries: Vec<Entry>,
    bytes: usize,
    max_bytes: usize,
    max_images: usize,
    next_ticket: u64,
    /// Where the files are that a document can be read back from.
    data_directory: String,
}

impl View for ImageCache {
    type V = CacheView;

    closed spec fn view(&self) -> CacheView {
        CacheView {
            entries: entries_view(self.entries@),
            bytes: self.bytes as int,
            max_bytes: self.max_bytes as int,
            max_images: self.max_images as int,
            next_ticket: self.next_ticket,
        }
    }
}

impl ImageCache {
    /// No document has two entries.
    #[verifier::type_invariant]
    spec fn well_formed(self) -> bool {
        self@.distinct()
    }

    /// Where the files are that a document can be read back from.
    pub closed spec fn directory(self) -> Seq<char> {
        self.data_directory@
    }

    /// An empty cache with a budget of mebibytes and one of images.
    pub fn new(max_mib: usize, max_images: usize, data_directory: String) -> (r: Self)
        ensures
            r@.entries.len() == 0,
            r@.distinct(),
            r@.bytes == 0,
            r@.max_bytes == capped_bytes(max_mib * 1_048_576),
            r@.max_images == max_images,
            r@.next_ticket == 0,
            r@.sound(),
            r.directory() == data_directory@,
    {
        let max_bytes: usize = match max_mib.checked_mul(1_048_576) {
            Some(n) => n,
            None => usize::MAX,
        };
        ImageCache {
            entries: Vec::new(),
            bytes: 0,
            max_bytes,
            max_images,
            next_ticket: 0,
            data_directory,
        }
    }

    /// Where the files are that a document can be read back from.
    pub fn data_directory(&self) -> (r: &str)
        ensures
            r@ == self.directory(),
    {
        self.data_directory.as_str()
    }

    /// The number of entries.
    pub fn len(&self) -> (r: usize)
        ensures
            r == self@.entries.len(),
    {
        self.entries.len()
    }

    /// Whether there are no entries.
    pub fn is_empty(&self) -> (r: bool)
        ensures
            r == (self@.entries.len() == 0),
    {
        self.entries.len() == 0
    }

    /// The running total of bytes.
    pub fn bytes(&self) -> (r: usize)
        ensures
            r == self@.bytes,
    {
        self.bytes
    }

    fn find(&self, document_id: &str) -> (r: Option<usize>)
        ensures
            match r {
                Some(i) => self@.place(document_id@) == Some(i as int) && i < self.entries@.len()
                    && self.entries@[i as int].id@ == document_id@,
                None => self@.place(document_id@) is None,
            },
    {
        find_in(&self.entries, document_id)
    }

    /// Whether the cache holds a document.
    pub fn contains(&self, document_id: &str) -> (r: bool)
        ensures
            r == (self@.place(document_id@) is Some),
    {
        self.find(document_id).is_some()
    }

    /// Lets the least recently used entries go until both budgets are met.
    fn evict(&mut self)
        ensures
            final(self)@ == old(self)@.evicted(),
            final(self).directory() == old(self).directory(),
    {
        let ghost start = self@;
        proof {
            use_type_invariant(&*self);
        }
        let mut entries: Vec<Entry> = Vec::new();
        std::mem::swap(&mut entries, &mut self.entries);
        let mut bytes: usize = self.bytes;
        let max_bytes: usize = self.max_bytes;
        let max_images: usize = self.max_images;
        let ghost mut k: int = 0;
        assert(entries_view(entries@) =~= start.entries.skip(0));
        while entries.len() > 0 && (bytes > max_bytes || entries.len() > max_images)
            invariant
                0 <= k <= start.entries.len(),
                entries_view(entries@) == start.entries.skip(k),
                bytes == start.bytes_after(k),
                max_bytes == start.max_bytes,
                max_images == start.max_images,
                start.evictions_from(0) == start.evictions_from(k),
            decreases entries.len(),
        {
            let ghost before = entries@;
            let ghost seen = entries_view(before);
            let first = entries.remove(0);
            let size: usize = first.image.nbytes();
            bytes = bytes.saturating_sub(size);
            proof {
                assert(seen.len() == before.len());
                assert(seen[0].image == first.image);
                assert(start.entries.skip(k)[0] == start.entries[k]);
                assert(entries_view(entries@) =~= seen.skip(1));
                assert(seen.skip(1) =~= start.entries.skip(k + 1));
                k = k + 1;
            }
        }
        assert(k == start.evictions_from(0)) by {
            assert(entries_view(entries@).len() == entries@.len());
        }
        self.bytes = bytes;
        self.entries = entries;
    }

    /// Puts an image into the cache under its document's id, in place of any
    /// earlier one, as the most recently used.
    pub fn insert(&mut self, document_id: &str, image: CachedImage)
        ensures
            final(self)@ == old(self)@.inserted(document_id@, image),
            final(self)@.distinct(),
            final(self).directory() == old(self).directory(),
            final(self)@.within_budget() || final(self)@.entries.len() == 0,
            old(self)@.sound() && old(self)@.bytes + image.byte_size() <= usize::MAX
                ==> final(self)@.sound(),
    {
        let size: usize = image.nbytes();
        let ghost start = self@;
        proof {
            use_type_invariant(&*self);
            lemma_inserted(start, document_id@, image);
        }
        let mut entries: Vec<Entry> = Vec::new();
        std::mem::swap(&mut entries, &mut self.entries);
        let mut bytes: usize = self.bytes;
        if let Some(i) = find_in(&entries, document_id) {
            let ghost before = entries@;
            let gone = entries.remove(i);
            let gone_size: usize = gone.image.nbytes();
            bytes = bytes.saturating_sub(gone_size);
            proof {
                assert(entries_view(before)[i as int].image == gone.image);
                assert(entries_view(entries@) =~= start.entries.remove(i as int));
            }
        }
        assert(entries_view(entries@) == start.without(document_id@).entries);
        let ticket: u64 = self.next_ticket;
        entries.push(Entry { id: document_id.to_owned(), image, ticket });
        bytes = bytes.saturating_add(size);
        assert(entries_view(entries@) =~= start.with_image(document_id@, image).entries);
        self.next_ticket = if ticket == u64::MAX {
            0
        } else {
            ticket + 1
        };
        self.bytes = bytes;
        self.entries = entries;
        assert(self@ =~= start.with_image(document_id@, image));
        self.evict();
        proof {
            if start.sound() && start.bytes + image.byte_size() <= usize::MAX {
                insert_keeps_the_account(start, document_id@, image);
            }
        }
    }

    /// Looks a document up in memory and makes it the most recently used.
    pub fn get(&mut self, document_id: &str) -> (r: Option<&CachedImage>)
        ensures
            final(self)@ == old(self)@.promoted(document_id@),
            final(self)@.distinct(),
            old(self)@.sound() ==> final(self)@.sound(),
            final(self).directory() == old(self).directory(),
            match old(self)@.place(document_id@) {
                Some(i) => r == Some(&old(self)@.entries[i].image),
                None => r is None,
            },
    {
        let ghost start = self@;
        proof {
            use_type_invariant(&*self);
            lemma_promoted(start, document_id@);
            lemma_promoted_sum(start, document_id@);
        }
        match self.find(document_id) {
            Some(i) => {
                let mut entries: Vec<Entry> = Vec::new();
                std::mem::swap(&mut entries, &mut self.entries);
                let ghost before = entries@;
                let entry = entries.remove(i);
                entries.push(entry);
                assert(entries_view(before)[i as int] == start.entries[i as int]);
                assert(entries_view(entries@) =~= start.promoted(document_id@).entries);
                self.entries = entries;
                let last: usize = self.entries.len() - 1;
                Some(&self.entries[last].image)
            },
            None => None,
        }
    }
}

impl CacheView {
    /// The cache with a section written into a document, which becomes the
    /// most recently used; nothing else changes.
    pub open spec fn staged(
        self,
        id: Seq<char>,
        name: Seq<char>,
        value: serde_json::Value,
        after: CacheView,
    ) -> bool {
        let promoted = self.promoted(id);
        let last = promoted.entries.len() - 1;
        let before = promoted.entries[last].image;
        &&& after == (CacheView {
            entries: promoted.entries.update(last, after.entries[last]),
            ..promoted
        })
        &&& after.entries[last].id == id
        &&& after.entries[last].ticket == promoted.entries[last].ticket
        &&& after.entries[last].image == (CachedImage {
            document: after.entries[last].image.document,
            ..before
        })
        &&& same_but_sections(after.entries[last].image.document, before.document)
        &&& after.entries[last].image.document.held() == before.document.held().insert(name, value)
    }

    /// The cache with the section of the document at a place put back to
    /// what it was; nothing else changes.
    pub open spec fn unstaged(
        self,
        i: int,
        name: Seq<char>,
        prior: Option<serde_json::Value>,
        after: CacheView,
    ) -> bool {
        let before = self.entries[i].image;
        let now = after.entries[i].image;
        &&& after == (CacheView { entries: self.entries.update(i, after.entries[i]), ..self })
        &&& after.entries[i].id == self.entries[i].id
        &&& after.entries[i].ticket == self.entries[i].ticket
        &&& now == (CachedImage { document: now.document, ..before })
        &&& same_but_sections(now.document, before.document)
        &&& now.document.held() == rolled_back(before.document.held(), name, prior)
    }

    /// The cache with the JSON size of the document at a place set, before
    /// the running total is moved along.
    pub open spec fn resized(self, i: int, json_nbytes: usize) -> CacheView {
        let entry = self.entries[i];
        let image = CachedImage { json_nbytes, ..entry.image };
        CacheView { entries: self.entries.update(i, CacheEntry { image, ..entry }), ..self }
    }
}

impl CacheView {
    /// The cache with the JSON size of the document at a place set and the
    /// running total moved along, and then trimmed.
    pub open spec fn rewritten(self, i: int, json_nbytes: usize) -> CacheView {
        self.resized(i, json_nbytes).adjusted(
            signed(json_nbytes) - signed(self.entries[i].image.json_nbytes),
        )
    }
}

/// The JSON size that a written document counts for.
pub open spec fn written_size(size: Option<usize>) -> usize {
    match size {
        Some(n) => n,
        None => 0,
    }
}

/// A size as a signed number.
pub open spec fn signed(n: usize) -> int {
    if n > i64::MAX {
        i64::MAX as int
    } else {
        n as int
    }
}

fn signed_size(n: usize) -> (r: i64)
    ensures
        r == signed(n),
        0 <= r,
{
    if n as u128 > i64::MAX as u128 {
        i64::MAX
    } else {
        n as i64
    }
}

impl ImageCache {
    /// Moves the running total and lets entries go that no longer fit.
    fn adjust_bytes(&mut self, delta: i64)
        requires
            delta > i64::MIN,
        ensures
            final(self)@ == old(self)@.adjusted(delta as int),
            final(self).directory() == old(self).directory(),
    {
        proof {
            use_type_invariant(&*self);
        }
        if delta >= 0 {
            let magnitude: u64 = delta as u64;
            let step: usize = if magnitude as u128 > usize::MAX as u128 {
                usize::MAX
            } else {
                magnitude as usize
            };
            self.bytes = self.bytes.saturating_add(step);
        } else {
            let magnitude: u64 = (-delta) as u64;
            let step: usize = if magnitude as u128 > usize::MAX as u128 {
                usize::MAX
            } else {
                magnitude as usize
            };
            self.bytes = self.bytes.saturating_sub(step);
        }
        self.evict();
    }

    /// Begins to write a section of a cached document: the section stands in
    /// the document, which becomes the most recently used, and is to be
    /// written to disk next. The value comes back where the document is not
    /// in the cache.
    pub fn begin_put_section(
        &mut self,
        document_id: &str,
        name: &str,
        value: serde_json::Value,
    ) -> (r: Result<StagedSection, serde_json::Value>)
        ensures
            final(self)@.distinct(),
            old(self)@.sound() ==> final(self)@.sound(),
            final(self).directory() == old(self).directory(),
            match old(self)@.place(document_id@) {
                Some(i) => {
                    &&& r matches Ok(staged) && staged.document_id@ == document_id@
                        && staged.ticket == old(self)@.entries[i].ticket && staged.name@ == name@
                        && staged.prior == staged_over(
                        old(self)@.entries[i].image.document.held(),
                        name@,
                    )
                    &&& old(self)@.staged(document_id@, name@, value, final(self)@)
                },
                None => r == Err::<StagedSection, serde_json::Value>(value) && final(self)@ == old(
                    self,
                )@,
            },
    {
        let ghost start = self@;
        proof {
            use_type_invariant(&*self);
            lemma_promoted(start, document_id@);
        }
        match self.find(document_id) {
            Some(i) => {
                let mut entries: Vec<Entry> = Vec::new();
                std::mem::swap(&mut entries, &mut self.entries);
                let ghost before = entries@;
                let mut entry = entries.remove(i);
                let prior = entry.image.document.stage_section(name, value);
                let ticket: u64 = entry.ticket;
                let ghost kept = entries@;
                entries.push(entry);
                let ghost after = entries_view(entries@);
                proof {
                    assert(entries_view(before)[i as int] == start.entries[i as int]);
                    assert(entries_view(kept) =~= start.entries.remove(i as int));
                    let promoted = start.promoted(document_id@);
                    let last = promoted.entries.len() - 1;
                    assert(after =~= promoted.entries.update(last, after[last]));
                    assert(forall|k: int|
                        0 <= k < last ==> #[trigger] after[k] == promoted.entries[k]);
                    assert(after[last].id == promoted.entries[last].id);
                    assert forall|a: int, b: int| 0 <= a < b < after.len() implies (
                    #[trigger] after[a]).id != (#[trigger] after[b]).id by {
                        assert(promoted.entries[a].id != promoted.entries[b].id);
                    }
                    lemma_promoted_sum(start, document_id@);
                    lemma_same_sizes(promoted.entries, after, last + 1);
                }
                self.entries = entries;
                Ok(
                    StagedSection {
                        document_id: document_id.to_owned(),
                        ticket,
                        name: name.to_owned(),
                        prior,
                    },
                )
            },
            None => Err(value),
        }
    }

    /// Ends the writing of a section, given what writing the sidecar came
    /// to: the new JSON size of the document (absent where it cannot be
    /// told), or an error. On success the budget is brought up to date; on
    /// an error the section is taken back and the error returned. Where the
    /// image has left in the meantime the cache stays as it is, even if
    /// another came in under the same id.
    pub fn finish_put_section(
        &mut self,
        staged: StagedSection,
        written: Result<Option<usize>, RpError>,
    ) -> (r: Result<(), RpError>)
        ensures
            final(self)@.distinct(),
            final(self).directory() == old(self).directory(),
            match written {
                Ok(_) => r is Ok,
                Err(e) => r == Err::<(), RpError>(e),
            },
            match old(self)@.place_of(staged.document_id@, staged.ticket) {
                None => final(self)@ == old(self)@,
                Some(i) => match written {
                    Ok(size) => final(self)@ == old(self)@.rewritten(i, written_size(size)),
                    Err(_) => old(self)@.unstaged(i, staged.name@, staged.prior, final(self)@),
                },
            },
            old(self)@.sound() && (match (
                old(self)@.place_of(staged.document_id@, staged.ticket),
                written,
            ) {
                (Some(i), Ok(size)) => old(self)@.has_room_for_json(i, written_size(size)),
                _ => true,
            }) ==> final(self)@.sound(),
    {
        let ghost start = self@;
        proof {
            use_type_invariant(&*self);
            lemma_place_from(start.entries, staged.document_id@, 0);
        }
        let place: Option<usize> = match self.find(staged.document_id.as_str()) {
            Some(i) => if self.entries[i].ticket == staged.ticket {
                Some(i)
            } else {
                None
            },
            None => None,
        };
        match (place, written) {
            (None, Ok(_)) => Ok(()),
            (None, Err(e)) => Err(e),
            (Some(i), Ok(size)) => {
                let json_nbytes: usize = match size {
                    Some(n) => n,
                    None => 0,
                };
                let mut entries: Vec<Entry> = Vec::new();
                std::mem::swap(&mut entries, &mut self.entries);
                let ghost before = entries@;
                let mut entry = entries.remove(i);
                let delta: i64 = signed_size(json_nbytes) - signed_size(entry.image.json_nbytes);
                entry.image.json_nbytes = json_nbytes;
                entries.insert(i, entry);
                assert(start.entries[i as int].image == before[i as int].image);
                assert(entries_view(entries@) =~= start.resized(i as int, json_nbytes).entries);
                self.entries = entries;
                assert(self@ =~= start.resized(i as int, json_nbytes));
                self.adjust_bytes(delta);
                proof {
                    lemma_adjusted(start.resized(i as int, json_nbytes), delta as int);
                    if start.sound() && start.has_room_for_json(i as int, json_nbytes) {
                        written_section_keeps_the_account(start, i as int, json_nbytes);
                    }
                }
                Ok(())
            },
            (Some(i), Err(e)) => {
                let mut entries: Vec<Entry> = Vec::new();
                std::mem::swap(&mut entries, &mut self.entries);
                let ghost before = entries@;
                let mut entry = entries.remove(i);
                entry.image.document.roll_back_section(staged.name.as_str(), staged.prior);
                entries.insert(i, entry);
                assert(start.entries[i as int].image == before[i as int].image);
                let ghost after = entries_view(entries@);
                assert(after =~= start.entries.update(i as int, after[i as int]));
                self.entries = entries;
                assert(self@.entries =~= start.entries.update(i as int, self@.entries[i as int]));
                proof {
                    lemma_same_sizes(start.entries, self@.entries, start.entries.len() as int);
                }
                Err(e)
            },
        }
    }

    /// The section of a document that is not in the cache, given what the
    /// search on disk came to: the document that was found, with the section
    /// in it, and the sidecar path that it is to be written to.
    pub fn put_section_disk_fallback(
        document_id: &str,
        name: &str,
        value: serde_json::Value,
        found: Result<Option<ExposureDocument>, String>,
    ) -> (r: Result<(ExposureDocument, String), RpError>)
        ensures
            match found {
                Err(e) => r matches Err(RpError::Imaging(text)) && text@
                    == "disk-fallback put_section: join error: "@ + e@,
                Ok(None) => r matches Err(RpError::Imaging(text)) && text@ == "document not found: "@
                    + document_id@,
                Ok(Some(doc)) => if is_fits_path(doc.file_path@) {
                    &&& r matches Ok((out, path)) && same_but_sections(out, doc) && out.held()
                        == doc.held().insert(name@, value) && fits_sidecar(
                        doc.file_path@,
                        path@,
                    )
                } else {
                    r matches Err(RpError::Imaging(text)) && text@
                        == "disk-fallback put_section: file_path is not a .fits path: "@
                        + doc.file_path@
                },
            },
    {
        match found {
            Err(e) => Err(
                RpError::Imaging(concat2("disk-fallback put_section: join error: ", e.as_str())),
            ),
            Ok(None) => Err(RpError::Imaging(concat2("document not found: ", document_id))),
            Ok(Some(doc)) => {
                let mut doc = doc;
                doc.stage_section(name, value);
                match ExposureDocument::sidecar_path_for(doc.file_path.as_str()) {
                    Some(path) => Ok((doc, path)),
                    None => Err(
                        RpError::Imaging(
                            concat2(
                                "disk-fallback put_section: file_path is not a .fits path: ",
                                doc.file_path.as_str(),
                            ),
                        ),
                    ),
                }
            },
        }
    }

    /// Looks a document up in memory, or else takes in the image that was
    /// read back from disk.
    pub fn resolve(&mut self, document_id: &str, from_disk: Option<CachedImage>) -> (r: Option<
        &CachedImage,
    >)
        ensures
            final(self)@.distinct(),
            old(self)@.sound() && (from_disk matches Some(image) ==> old(self)@.bytes
                + image.byte_size() <= usize::MAX) ==> final(self)@.sound(),
            final(self).directory() == old(self).directory(),
            final(self)@ == resolved(old(self)@, document_id@, from_disk),
            match resolved(old(self)@, document_id@, from_disk).place(document_id@) {
                Some(i) => r == Some(
                    &resolved(old(self)@, document_id@, from_disk).entries[i].image,
                ),
                None => r is None,
            },
    {
        let ghost start = self@;
        proof {
            use_type_invariant(&*self);
        }
        if !self.contains(document_id) {
            match from_disk {
                Some(image) => {
                    self.insert(document_id, image);
                },
                None => {
                    return None;
                },
            }
        }
        let ghost held = self@;
        proof {
            use_type_invariant(&*self);
            lemma_promoted_place(held, document_id@);
            if start.place(document_id@) is None {
                lemma_inserted_is_last(start, document_id@, from_disk->0);
                lemma_promoting_the_last(held, document_id@);
            }
        }
        self.get(document_id)
    }
}

/// A document that was looked up.
pub enum FoundDocument<'a> {
    /// It is in the cache.
    Cached(&'a ExposureDocument),
    /// It was read back from disk; the cache does not hold it.
    OnDisk(ExposureDocument),
}

impl ImageCache {
    /// Looks a document up in memory, or else takes the one that was read
    /// back from disk. The cache takes nothing in: it may not be able to
    /// hold the image.
    pub fn resolve_document(
        &mut self,
        document_id: &str,
        from_disk: Option<ExposureDocument>,
    ) -> (r: Option<FoundDocument<'_>>)
        ensures
            final(self)@ == old(self)@.promoted(document_id@),
            final(self)@.distinct(),
            old(self)@.sound() ==> final(self)@.sound(),
            final(self).directory() == old(self).directory(),
            match (old(self)@.place(document_id@), from_disk) {
                (Some(i), _) => r == Some(
                    FoundDocument::Cached(&old(self)@.entries[i].image.document),
                ),
                (None, Some(doc)) => r == Some(FoundDocument::OnDisk(doc)),
                (None, None) => r is None,
            },
    {
        match self.get(document_id) {
            Some(image) => Some(FoundDocument::Cached(&image.document)),
            None => match from_disk {
                Some(doc) => Some(FoundDocument::OnDisk(doc)),
                None => None,
            },
        }
    }

    /// The document of a FITS file, given what its sidecar holds. A sidecar
    /// that names another file is declined: it was copied here from
    /// elsewhere. Only the file names are compared, so that a session may be
    /// moved to an archive.
    pub fn resolve_document_by_path(
        fits_path: &str,
        sidecar: Option<ExposureDocument>,
    ) -> (r: Option<ExposureDocument>)
        ensures
            r is Some ==> r == sidecar && is_fits_path(fits_path@),
            sidecar matches Some(doc) ==> plain_path(fits_path@) && plain_path(doc.file_path@)
                ==> (r is Some <==> is_fits_path(fits_path@) && file_name_of(doc.file_path@)
                == Some(last_part(fits_path@))),
    {
        if ExposureDocument::sidecar_path_for(fits_path).is_none() {
            return None;
        }
        proof {
            lemma_fits_name(fits_path@);
        }
        match (file_name(fits_path), sidecar) {
            (Some(requested), Some(doc)) => match file_name(doc.file_path.as_str()) {
                Some(named) => if requested == named {
                    Some(doc)
                } else {
                    None
                },
                None => None,
            },
            _ => None,
        }
    }
}

/// The cache after a lookup that may take in an image from disk.
pub open spec fn resolved(
    cache: CacheView,
    id: Seq<char>,
    from_disk: Option<CachedImage>,
) -> CacheView {
    match (cache.place(id), from_disk) {
        (Some(_), _) => cache.promoted(id),
        (None, Some(image)) => cache.inserted(id, image),
        (None, None) => cache,
    }
}

proof fn lemma_adjusted(cache: CacheView, delta: int)
    requires
        cache.distinct(),
    ensures
        cache.adjusted(delta).distinct(),
        cache.adjusted(delta).within_budget() || cache.adjusted(delta).entries.len() == 0,
{
    let moved = cache.bytes + delta;
    let shifted = CacheView {
        bytes: if moved < 0 {
            0
        } else {
            capped_bytes(moved)
        },
        ..cache
    };
    lemma_evictions(shifted, 0);
}

/// A promoted document is at the end.
proof fn lemma_promoted_place(cache: CacheView, id: Seq<char>)
    requires
        cache.distinct(),
    ensures
        match cache.place(id) {
            Some(i) => cache.promoted(id).place(id) == Some(cache.entries.len() - 1)
                && cache.promoted(id).entries[cache.entries.len() - 1] == cache.entries[i],
            None => cache.promoted(id).place(id) is None,
        },
{
    lemma_promoted(cache, id);
    lemma_place_from(cache.entries, id, 0);
    let after = cache.promoted(id);
    lemma_place_from(after.entries, id, 0);
    if let Some(i) = cache.place(id) {
        let last = cache.entries.len() - 1;
        assert(after.entries[last] == cache.entries[i]);
        assert(after.place(id) is Some);
        let k = after.place(id)->0;
        assert(k == last) by {
            if k < last {
                assert(after.entries[k].id != after.entries[last].id);
            }
        }
    }
}

/// An inserted document is at the end, or was too large to stay.
proof fn lemma_inserted_is_last(cache: CacheView, id: Seq<char>, image: CachedImage)
    requires
        cache.distinct(),
    ensures
        ({
            let after = cache.inserted(id, image);
            match after.place(id) {
                Some(i) => i == after.entries.len() - 1 && after.entries[i].id == id
                    && after.entries[i].image == image && after.entries[i].ticket
                    == cache.next_ticket,
                None => after.entries.len() == 0,
            }
        }),
{
    lemma_inserted(cache, id, image);
    let after = cache.inserted(id, image);
    lemma_place_from(after.entries, id, 0);
    let base = cache.without(id);
    let pushed = cache.with_image(id, image);
    lemma_evictions(pushed, 0);
    if after.entries.len() > 0 {
        assert(after.entries[after.entries.len() - 1] == pushed.entries[pushed.entries.len() - 1]);
    }
}

proof fn lemma_promoting_the_last(cache: CacheView, id: Seq<char>)
    requires
        match cache.place(id) {
            Some(i) => i == cache.entries.len() - 1,
            None => true,
        },
    ensures
        cache.promoted(id) == cache,
{
    lemma_place_from(cache.entries, id, 0);
    assert(cache.promoted(id) =~= cache);
}

/// Where an id is found, and where it is not.
proof fn lemma_place_from(entries: Seq<CacheEntry>, id: Seq<char>, from: int)
    requires
        0 <= from,
    ensures
        match place_from(entries, id, from) {
            Some(i) => from <= i < entries.len() && entries[i].id == id,
            None => forall|i: int| from <= i < entries.len() ==> (#[trigger] entries[i]).id != id,
        },
    decreases entries.len() - from,
{
    if from < entries.len() && entries[from].id != id {
        lemma_place_from(entries, id, from + 1);
    }
}

proof fn lemma_promoted(cache: CacheView, id: Seq<char>)
    requires
        cache.distinct(),
    ensures
        cache.promoted(id).distinct(),
        match cache.place(id) {
            Some(i) => 0 <= i < cache.entries.len() && cache.entries[i].id == id,
            None => true,
        },
{
    lemma_place_from(cache.entries, id, 0);
}

/// What stopping at the least number of evictions gives.
proof fn lemma_evictions(cache: CacheView, k: int)
    requires
        0 <= k <= cache.entries.len(),
    ensures
        k <= cache.evictions_from(k) <= cache.entries.len(),
        cache.fits_after(cache.evictions_from(k)) || cache.evictions_from(k)
            == cache.entries.len(),
        forall|j: int| k <= j < cache.evictions_from(k) ==> !#[trigger] cache.fits_after(j),
    decreases cache.entries.len() - k,
{
    if k < cache.entries.len() && !cache.fits_after(k) {
        lemma_evictions(cache, k + 1);
    }
}

proof fn lemma_inserted(cache: CacheView, id: Seq<char>, image: CachedImage)
    requires
        cache.distinct(),
    ensures
        cache.with_image(id, image).distinct(),
        cache.inserted(id, image).distinct(),
        cache.inserted(id, image).within_budget() || cache.inserted(id, image).entries.len() == 0,
{
    lemma_place_from(cache.entries, id, 0);
    let base = cache.without(id);
    let pushed = cache.with_image(id, image);
    lemma_evictions(pushed, 0);
    assert(forall|i: int| 0 <= i < base.entries.len() ==> (#[trigger] base.entries[i]).id != id);
    assert(pushed.distinct());
}

proof fn lemma_entry_bytes_nonnegative(entries: Seq<CacheEntry>, n: int)
    ensures
        entry_bytes(entries, n) >= 0,
    decreases n,
{
    if n > 0 {
        lemma_entry_bytes_nonnegative(entries, n - 1);
        let pixels = entries[n - 1].image.pixels;
        assert(pixels.values().len() * pixels.sample_bytes() >= 0) by (nonlinear_arith)
            requires
                pixels.sample_bytes() >= 0,
        ;
    }
}

/// Sums over the first entries go by those entries alone.
proof fn lemma_entry_bytes_prefix(
    a: Seq<CacheEntry>,
    b: Seq<CacheEntry>,
    n: int,
)
    requires
        n <= a.len(),
        n <= b.len(),
        forall|i: int| 0 <= i < n ==> (#[trigger] a[i]).image == b[i].image,
    ensures
        entry_bytes(a, n) == entry_bytes(b, n),
    decreases n,
{
    if n > 0 {
        lemma_entry_bytes_prefix(a, b, n - 1);
        assert(a[n - 1].image == b[n - 1].image);
    }
}

/// The bytes of the entries from `k` on are what is left of the whole.
proof fn lemma_entry_bytes_skip(entries: Seq<CacheEntry>, k: int, n: int)
    requires
        0 <= k,
        0 <= n,
        k + n <= entries.len(),
    ensures
        entry_bytes(entries.skip(k), n) == entry_bytes(entries, k + n) - entry_bytes(entries, k),
    decreases n,
{
    if n > 0 {
        lemma_entry_bytes_skip(entries, k, n - 1);
        assert(entries.skip(k)[n - 1] == entries[k + n - 1]);
    }
}

/// Entries that take the same have the same sum.
proof fn lemma_same_sizes(a: Seq<CacheEntry>, b: Seq<CacheEntry>, n: int)
    requires
        n <= a.len(),
        n <= b.len(),
        forall|i: int|
            0 <= i < n ==> (#[trigger] a[i]).image.byte_size() == b[i].image.byte_size(),
    ensures
        entry_bytes(a, n) == entry_bytes(b, n),
    decreases n,
{
    if n > 0 {
        lemma_same_sizes(a, b, n - 1);
        assert(a[n - 1].image.byte_size() == b[n - 1].image.byte_size());
    }
}

/// A lookup keeps the account.
proof fn lemma_promoted_sum(cache: CacheView, id: Seq<char>)
    ensures
        cache.accounted() ==> cache.promoted(id).accounted(),
{
    lemma_place_from(cache.entries, id, 0);
    if let Some(i) = cache.place(id) {
        let n = cache.entries.len() as int;
        let rest = cache.entries.remove(i);
        let after = cache.promoted(id);
        lemma_entry_bytes_remove(cache.entries, i, n);
        lemma_entry_bytes_prefix(after.entries, rest, n - 1);
        assert(after.entries[n - 1] == cache.entries[i]);
    }
}

/// Taking an entry out takes its bytes out of the sum.
proof fn lemma_entry_bytes_remove(entries: Seq<CacheEntry>, i: int, n: int)
    requires
        0 <= i < n <= entries.len(),
    ensures
        entry_bytes(entries.remove(i), n - 1) == entry_bytes(entries, n)
            - entries[i].image.byte_size(),
    decreases n,
{
    if n - 1 == i {
        lemma_entry_bytes_prefix(entries.remove(i), entries, i);
    } else {
        lemma_entry_bytes_remove(entries, i, n - 1);
        assert(entries.remove(i)[n - 2] == entries[n - 1]);
    }
}

/// Putting another image in an entry's place changes the sum by the
/// difference.
proof fn lemma_entry_bytes_update(
    entries: Seq<CacheEntry>,
    i: int,
    entry: CacheEntry,
    n: int,
)
    requires
        0 <= i < n <= entries.len(),
    ensures
        entry_bytes(entries.update(i, entry), n) == entry_bytes(entries, n)
            - entries[i].image.byte_size() + entry.image.byte_size(),
    decreases n,
{
    if n - 1 == i {
        lemma_entry_bytes_prefix(entries.update(i, entry), entries, i);
    } else {
        lemma_entry_bytes_update(entries, i, entry, n - 1);
        assert(entries.update(i, entry)[n - 1] == entries[n - 1]);
    }
}

/// Eviction lets the least recently used entries go and no others, as few of
/// them as will do; a running total that was the sum of the entries still
/// is; and afterwards both budgets are met or nothing is left.
pub proof fn eviction_is_least(cache: CacheView)
    ensures
        ({
            let k = cache.entries.len() - cache.evicted().entries.len();
            &&& 0 <= k <= cache.entries.len()
            &&& cache.evicted().entries == cache.entries.skip(k)
            &&& forall|j: int| 0 <= j < k ==> !#[trigger] cache.fits_after(j)
        }),
        cache.evicted().within_budget() || cache.evicted().entries.len() == 0,
        cache.accounted() ==> cache.evicted().accounted(),
{
    lemma_evictions(cache, 0);
    let k = cache.evictions_from(0);
    let n = cache.entries.len() as int;
    assert(cache.entries.len() - cache.evicted().entries.len() == k);
    if cache.accounted() {
        lemma_entry_bytes_skip(cache.entries, k, n - k);
        lemma_entry_bytes_nonnegative(cache.entries.skip(k), n - k);
    }
}

/// A cache that is within its budgets lets nothing go.
pub proof fn nothing_leaves_within_budget(cache: CacheView)
    requires
        cache.within_budget(),
        0 <= cache.bytes,
    ensures
        cache.evicted() == cache,
{
    assert(cache.fits_after(0));
    assert(cache.evictions_from(0) == 0);
    assert(cache.evicted() =~= cache);
}

/// Inserting keeps the account: a running total that was the sum of the
/// entries still is, as long as the sum is within the range of a machine
/// word.
pub proof fn insert_keeps_the_account(cache: CacheView, id: Seq<char>, image: CachedImage)
    requires
        cache.distinct(),
        cache.accounted(),
        cache.bytes + image.byte_size() <= usize::MAX,
    ensures
        cache.inserted(id, image).accounted(),
{
    let n = cache.entries.len() as int;
    lemma_place_from(cache.entries, id, 0);
    let base = cache.without(id);
    if let Some(i) = cache.place(id) {
        lemma_entry_bytes_remove(cache.entries, i, n);
        lemma_entry_bytes_nonnegative(base.entries, n - 1);
        lemma_entry_bytes_nonnegative(seq![cache.entries[i]], 1);
        assert(entry_bytes(seq![cache.entries[i]], 1) == entry_bytes(seq![cache.entries[i]], 0)
            + cache.entries[i].image.byte_size());
    }
    let pushed = cache.with_image(id, image);
    lemma_entry_bytes_prefix(pushed.entries, base.entries, base.entries.len() as int);
    eviction_is_least(pushed);
}

/// An image that fits the budgets by itself is in the cache after it was
/// inserted, as the most recently used.
pub proof fn inserted_image_stays(cache: CacheView, id: Seq<char>, image: CachedImage)
    requires
        cache.distinct(),
        cache.accounted(),
        cache.bytes + image.byte_size() <= usize::MAX,
        image.byte_size() <= cache.max_bytes,
        1 <= cache.max_images,
    ensures
        ({
            let after = cache.inserted(id, image);
            after.entries.len() > 0 && after.place(id) == Some(after.entries.len() - 1)
                && after.entries.last().image == image
        }),
{
    insert_keeps_the_account(cache, id, image);
    let n = cache.entries.len() as int;
    lemma_place_from(cache.entries, id, 0);
    let base = cache.without(id);
    if let Some(i) = cache.place(id) {
        lemma_entry_bytes_remove(cache.entries, i, n);
        lemma_entry_bytes_nonnegative(base.entries, n - 1);
        lemma_entry_bytes_nonnegative(seq![cache.entries[i]], 1);
        assert(entry_bytes(seq![cache.entries[i]], 1) == entry_bytes(seq![cache.entries[i]], 0)
            + cache.entries[i].image.byte_size());
    }
    let pushed = cache.with_image(id, image);
    let last = base.entries.len() as int;
    lemma_entry_bytes_prefix(pushed.entries, base.entries, last);
    assert(pushed.fits_after(last));
    lemma_evictions(pushed, 0);
    lemma_inserted_is_last(cache, id, image);
}

/// Replacing an image by one of the same size counts nothing twice: the
/// running total of a cache within its budgets is what it was.
pub proof fn replacing_counts_once(cache: CacheView, id: Seq<char>, image: CachedImage)
    requires
        cache.distinct(),
        cache.accounted(),
        cache.within_budget(),
        cache.bytes <= usize::MAX,
        cache.place(id) matches Some(i) && cache.entries[i].image.byte_size() == image.byte_size(),
    ensures
        cache.inserted(id, image).bytes == cache.bytes,
        cache.inserted(id, image).entries.len() == cache.entries.len(),
{
    let n = cache.entries.len() as int;
    lemma_place_from(cache.entries, id, 0);
    let i = cache.place(id)->0;
    lemma_entry_bytes_remove(cache.entries, i, n);
    lemma_entry_bytes_nonnegative(cache.entries.remove(i), n - 1);
    let base = cache.without(id);
    let pushed = cache.with_image(id, image);
    lemma_entry_bytes_nonnegative(cache.entries, n);
    nothing_leaves_within_budget(pushed);
}

/// A staged document is at the end, with the ticket that it had.
proof fn lemma_staged_place(
    cache: CacheView,
    id: Seq<char>,
    name: Seq<char>,
    value: serde_json::Value,
    during: CacheView,
)
    requires
        cache.distinct(),
        cache.place(id) is Some,
        cache.staged(id, name, value, during),
    ensures
        during.distinct(),
        during.place(id) == Some(cache.entries.len() - 1),
        during.place_of(id, cache.entries[cache.place(id)->0].ticket) == Some(
            cache.entries.len() - 1,
        ),
{
    lemma_place_from(cache.entries, id, 0);
    lemma_promoted(cache, id);
    let promoted = cache.promoted(id);
    let last = cache.entries.len() - 1;
    assert(promoted.entries[last] == cache.entries[cache.place(id)->0]);
    assert(forall|k: int| 0 <= k < last ==> #[trigger] during.entries[k] == promoted.entries[k]);
    assert(during.distinct()) by {
        assert forall|a: int, b: int| 0 <= a < b < during.entries.len() implies (
        #[trigger] during.entries[a]).id != (#[trigger] during.entries[b]).id by {
            assert(promoted.entries[a].id != promoted.entries[b].id);
        }
    }
    lemma_place_from(during.entries, id, 0);
    assert(during.entries[last].id == id);
    let k = during.place(id)->0;
    if k < last {
        assert(during.entries[k].id != during.entries[last].id);
    }
}

/// A failed write leaves no trace: where a section was staged and taken back
/// again, the document has the sections it had, and nothing but the recency
/// of its entry has changed.
pub proof fn failed_write_leaves_no_trace(
    cache: CacheView,
    id: Seq<char>,
    name: Seq<char>,
    value: serde_json::Value,
    during: CacheView,
    after: CacheView,
)
    requires
        cache.distinct(),
        cache.place(id) is Some,
        cache.staged(id, name, value, during),
        ({
            let was = cache.entries[cache.place(id)->0];
            match during.place_of(id, was.ticket) {
                Some(i) => during.unstaged(
                    i,
                    name,
                    staged_over(was.image.document.held(), name),
                    after,
                ),
                None => after == during,
            }
        }),
    ensures
        ({
            let last = cache.entries.len() - 1;
            let was = cache.entries[cache.place(id)->0].image;
            let is = after.entries[last].image;
            &&& after.bytes == cache.bytes
            &&& after.entries == cache.promoted(id).entries.update(last, after.entries[last])
            &&& after.entries[last].id == id
            &&& is == (CachedImage { document: is.document, ..was })
            &&& same_but_sections(is.document, was.document)
            &&& is.document.held() == was.document.held()
        }),
{
    lemma_place_from(cache.entries, id, 0);
    lemma_staged_place(cache, id, name, value, during);
    let last = cache.entries.len() - 1;
    let was = cache.entries[cache.place(id)->0].image;
    assert(cache.promoted(id).entries[last].image == was);
    roll_back_undoes_staging(was.document.held(), name, value);
    assert(after.entries =~= cache.promoted(id).entries.update(last, after.entries[last]));
}

/// A written section is read back: as long as its document is in the cache,
/// a lookup finds the section beside all the others that the document had.
pub proof fn written_section_is_read_back(
    cache: CacheView,
    id: Seq<char>,
    name: Seq<char>,
    value: serde_json::Value,
    during: CacheView,
    json_nbytes: usize,
    delta: int,
)
    requires
        cache.distinct(),
        cache.place(id) is Some,
        cache.staged(id, name, value, during),
    ensures
        ({
            let was = cache.entries[cache.place(id)->0];
            let place = during.place_of(id, was.ticket);
            let after = during.resized(place->0, json_nbytes).adjusted(delta);
            &&& place is Some
            &&& after.place(id) matches Some(i) ==> after.entries[i].image.document.held()
                == was.image.document.held().insert(name, value)
            &&& after.place(id) is None ==> after.entries.len() == 0
        }),
{
    lemma_staged_place(cache, id, name, value, during);
    lemma_place_from(cache.entries, id, 0);
    let last = cache.entries.len() - 1;
    let resized = during.resized(last, json_nbytes);
    let after = resized.adjusted(delta);
    let moved = resized.bytes + delta;
    let shifted = CacheView {
        bytes: if moved < 0 {
            0
        } else {
            capped_bytes(moved)
        },
        ..resized
    };
    lemma_evictions(shifted, 0);
    let k = shifted.evictions_from(0);
    assert(after.entries == resized.entries.skip(k));
    lemma_place_from(after.entries, id, 0);
    if after.entries.len() > 0 {
        assert(after.entries[after.entries.len() - 1] == resized.entries[last]);
    }
    if let Some(i) = after.place(id) {
        assert(after.entries[i] == resized.entries[i + k]);
        if i + k < last {
            assert(during.entries[i + k].id != during.entries[last].id);
        }
    }
}

/// An image that takes another's place is told apart from it, so that the
/// end of a section begun in the earlier one leaves the later one alone.
/// This holds as long as the count of insertions has not started over.
pub proof fn replacement_is_told_apart(cache: CacheView, id: Seq<char>, image: CachedImage)
    requires
        cache.distinct(),
        cache.place(id) is Some,
        cache.tickets_are_issued(),
        cache.next_ticket < u64::MAX,
    ensures
        cache.inserted(id, image).place_of(id, cache.entries[cache.place(id)->0].ticket) is None,
        cache.inserted(id, image).tickets_are_issued(),
{
    lemma_place_from(cache.entries, id, 0);
    lemma_inserted_is_last(cache, id, image);
    let pushed = cache.with_image(id, image);
    lemma_evictions(pushed, 0);
    let after = cache.inserted(id, image);
    let k = pushed.evictions_from(0);
    let i = cache.place(id)->0;
    assert forall|j: int| 0 <= j < after.entries.len() implies (#[trigger] after.entries[j]).ticket
        < after.next_ticket by {
        assert(after.entries[j] == pushed.entries[j + k]);
        if j + k < pushed.entries.len() - 1 {
            let m = if j + k < i {
                j + k
            } else {
                j + k + 1
            };
            assert(pushed.entries[j + k] == cache.entries[m]);
        }
    }
}

/// A written section keeps the account: the running total moves by as much
/// as the document grew or shrank.
pub proof fn written_section_keeps_the_account(cache: CacheView, i: int, json_nbytes: usize)
    requires
        cache.accounted(),
        0 <= i < cache.entries.len(),
        cache.has_room_for_json(i, json_nbytes),
    ensures
        cache.rewritten(i, json_nbytes).accounted(),
{
    let n = cache.entries.len() as int;
    let image = cache.entries[i].image;
    let entry = CacheEntry {
        image: CachedImage { json_nbytes, ..image },
        ..cache.entries[i]
    };
    lemma_entry_bytes_update(cache.entries, i, entry, n);
    let resized = cache.resized(i, json_nbytes);
    lemma_entry_bytes_nonnegative(resized.entries, n);
    let delta = signed(json_nbytes) - signed(image.json_nbytes);
    let moved = CacheView { bytes: cache.bytes + delta, ..resized };
    assert(resized.adjusted(delta) == moved.evicted());
    eviction_is_least(moved);
}

/// Looking a document up changes neither what the cache holds nor what it
/// counts.
pub proof fn lookup_only_reorders(cache: CacheView, id: Seq<char>)
    requires
        cache.distinct(),
    ensures
        cache.promoted(id).bytes == cache.bytes,
        cache.promoted(id).entries.len() == cache.entries.len(),
        cache.promoted(id).entries.to_multiset() == cache.entries.to_multiset(),
{
    lemma_place_from(cache.entries, id, 0);
    if let Some(i) = cache.place(id) {
        let entry = cache.entries[i];
        to_multiset_remove(cache.entries, i);
        to_multiset_build(cache.entries.remove(i), entry);
        to_multiset_contains(cache.entries, entry);
        assert(cache.entries.contains(entry));
        assert(cache.entries.to_multiset().remove(entry).insert(entry)
            =~= cache.entries.to_multiset());
    }
}

/// A choice that takes everything leaves a sequence as it is, and one that
/// takes nothing leaves none of it.
proof fn lemma_filter_constant(entries: Seq<CacheEntry>, taken: spec_fn(CacheEntry) -> bool)
    ensures
        (forall|k: int| 0 <= k < entries.len() ==> taken(#[trigger] entries[k]))
            ==> entries.filter(taken) == entries,
        (forall|k: int| 0 <= k < entries.len() ==> !taken(#[trigger] entries[k]))
            ==> entries.filter(taken) == Seq::<CacheEntry>::empty(),
    decreases entries.len(),
{
    reveal(Seq::filter);
    if entries.len() > 0 {
        let rest = entries.drop_last();
        lemma_filter_constant(rest, taken);
        assert(entries =~= rest.push(entries.last()));
        assert(taken(entries.last()) == taken(entries[entries.len() - 1]));
        if forall|k: int| 0 <= k < entries.len() ==> taken(#[trigger] entries[k]) {
            assert forall|k: int| 0 <= k < rest.len() implies taken(#[trigger] rest[k]) by {
                assert(rest[k] == entries[k]);
            }
        }
        if forall|k: int| 0 <= k < entries.len() ==> !taken(#[trigger] entries[k]) {
            assert forall|k: int| 0 <= k < rest.len() implies !taken(#[trigger] rest[k]) by {
                assert(rest[k] == entries[k]);
            }
        }
    } else {
        assert(entries.filter(taken) =~= entries);
    }
}

/// The entries other than that of a document, and the entry of the document.
proof fn lemma_others(cache: CacheView, id: Seq<char>)
    requires
        cache.distinct(),
    ensures
        cache.entries.filter(|e: CacheEntry| e.id != id) == match cache.place(id) {
            Some(i) => cache.entries.remove(i),
            None => cache.entries,
        },
        cache.entries.filter(|e: CacheEntry| e.id == id) == match cache.place(id) {
            Some(i) => seq![cache.entries[i]],
            None => Seq::empty(),
        },
{
    let other = |e: CacheEntry| e.id != id;
    let same = |e: CacheEntry| e.id == id;
    let all = cache.entries;
    lemma_place_from(all, id, 0);
    match cache.place(id) {
        Some(i) => {
            let front = all.take(i);
            let here = seq![all[i]];
            let back = all.skip(i + 1);
            assert(all =~= front + (here + back));
            assert forall|k: int| 0 <= k < front.len() implies other(#[trigger] front[k]) by {
                assert(all[k].id != all[i].id);
            }
            assert forall|k: int| 0 <= k < back.len() implies other(#[trigger] back[k]) by {
                assert(back[k] == all[i + 1 + k]);
                assert(all[i].id != all[i + 1 + k].id);
            }
            lemma_filter_constant(front, other);
            lemma_filter_constant(back, other);
            lemma_filter_constant(here, other);
            lemma_filter_constant(front, same);
            lemma_filter_constant(back, same);
            lemma_filter_constant(here, same);
            Seq::filter_distributes_over_add(front, here + back, other);
            Seq::filter_distributes_over_add(here, back, other);
            Seq::filter_distributes_over_add(front, here + back, same);
            Seq::filter_distributes_over_add(here, back, same);
            assert(front + (Seq::empty() + back) =~= all.remove(i));
            assert(Seq::<CacheEntry>::empty() + (here + Seq::empty()) =~= here);
        },
        None => {
            lemma_filter_constant(all, other);
            lemma_filter_constant(all, same);
        },
    }
}

/// A document is found by its id: at a place that holds that id, and nowhere
/// exactly when no place does; an insertion's image only under the number of
/// that insertion.
pub proof fn documents_are_found_by_their_id(cache: CacheView, id: Seq<char>, ticket: u64)
    ensures
        cache.place(id) matches Some(i) ==> 0 <= i < cache.entries.len() && cache.entries[i].id
            == id,
        cache.place(id) is None <==> forall|k: int|
            0 <= k < cache.entries.len() ==> (#[trigger] cache.entries[k]).id != id,
        cache.place_of(id, ticket) matches Some(i) ==> cache.place(id) == Some(i)
            && cache.entries[i].ticket == ticket,
        cache.place_of(id, ticket) is None <==> cache.place(id) is None || cache.entries[cache.place(
            id,
        )->0].ticket != ticket,
{
    lemma_place_from(cache.entries, id, 0);
}

/// A lookup makes the document the most recently used and keeps all the
/// others in their order: they come first, just as they stood, and the
/// document that was looked up comes last. Nothing else changes.
pub proof fn lookup_keeps_the_order_of_the_others(cache: CacheView, id: Seq<char>)
    requires
        cache.distinct(),
    ensures
        cache.promoted(id).entries == cache.entries.filter(|e: CacheEntry| e.id != id)
            + cache.entries.filter(|e: CacheEntry| e.id == id),
        cache.promoted(id).bytes == cache.bytes,
        cache.promoted(id).max_bytes == cache.max_bytes,
        cache.promoted(id).max_images == cache.max_images,
        cache.promoted(id).next_ticket == cache.next_ticket,
{
    lemma_others(cache, id);
    lemma_place_from(cache.entries, id, 0);
    match cache.place(id) {
        Some(i) => {
            assert(cache.promoted(id).entries =~= cache.entries.remove(i) + seq![cache.entries[i]]);
        },
        None => {
            assert(cache.entries + Seq::<CacheEntry>::empty() =~= cache.entries);
        },
    }
}

/// Of two entries other than the one that is looked up, the one that was
/// used less recently before the lookup still is after it, and both are
/// used less recently than the one that was looked up.
pub proof fn lookup_keeps_which_is_older(cache: CacheView, id: Seq<char>, a: int, b: int)
    requires
        cache.distinct(),
        0 <= a < b < cache.entries.len(),
        cache.entries[a].id != id,
        cache.entries[b].id != id,
    ensures
        exists|x: int, y: int|
            0 <= x < y < cache.entries.len() && #[trigger] cache.promoted(id).entries[x]
                == cache.entries[a] && #[trigger] cache.promoted(id).entries[y]
                == cache.entries[b],
        cache.place(id) is Some ==> cache.promoted(id).entries.last().id == id,
{
    lemma_place_from(cache.entries, id, 0);
    let after = cache.promoted(id).entries;
    match cache.place(id) {
        Some(i) => {
            let x = if a < i {
                a
            } else {
                a - 1
            };
            let y = if b < i {
                b
            } else {
                b - 1
            };
            assert(after[x] == cache.entries[a] && after[y] == cache.entries[b]);
        },
        None => {
            assert(after[a] == cache.entries[a] && after[b] == cache.entries[b]);
        },
    }
}

/// The bytes of some entries are the sum of what their images take, and an
/// image takes two or four bytes for each sample and the size of its
/// document, all held to the range of a machine word.
pub proof fn entries_take_what_their_images_take(entries: Seq<CacheEntry>, n: int)
    requires
        0 <= n <= entries.len(),
    ensures
        entry_bytes(entries, n) == entries.take(n).fold_left(
            0int,
            |sum: int, e: CacheEntry| sum + e.image.byte_size(),
        ),
        forall|image: CachedImage|
            image.pixels is U16 && 2 * image.pixels.values().len() + image.json_nbytes <= usize::MAX
                ==> #[trigger] image.byte_size() == 2 * image.pixels.values().len()
                + image.json_nbytes,
        forall|image: CachedImage|
            image.pixels is I32 && 4 * image.pixels.values().len() + image.json_nbytes <= usize::MAX
                ==> #[trigger] image.byte_size() == 4 * image.pixels.values().len()
                + image.json_nbytes,
        forall|image: CachedImage| #[trigger] image.byte_size() <= usize::MAX,
    decreases n,
{
    if n > 0 {
        entries_take_what_their_images_take(entries, n - 1);
        assert(entries.take(n).drop_last() =~= entries.take(n - 1));
        assert(entries.take(n).last() == entries[n - 1]);
    }
}

/// A cache is sound exactly when no document has two entries, its running
/// total is the sum of what its entries take, and neither that nor the
/// number of its entries is over its budget.
pub proof fn sound_caches_keep_their_budgets(cache: CacheView)
    ensures
        cache.sound() <==> {
            &&& forall|i: int, j: int|
                0 <= i < j < cache.entries.len() ==> (#[trigger] cache.entries[i]).id != (
                #[trigger] cache.entries[j]).id
            &&& cache.bytes == cache.entries.fold_left(
                0int,
                |sum: int, e: CacheEntry| sum + e.image.byte_size(),
            )
            &&& cache.bytes <= cache.max_bytes
            &&& cache.entries.len() <= cache.max_images
        },
{
    entries_take_what_their_images_take(cache.entries, cache.entries.len() as int);
    assert(cache.entries.take(cache.entries.len() as int) =~= cache.entries);
}

/// What is evicted are the entries that were used longest ago, and no more
/// of them than needed: those that stay are the last ones, they meet both
/// budgets or there are none, and with one more of them a budget would not
/// be met. The running total is still the sum of what stays.
pub proof fn the_oldest_are_evicted(cache: CacheView)
    requires
        cache.accounted(),
    ensures
        ({
            let after = cache.evicted();
            let k = cache.entries.len() - after.entries.len();
            let sum = |sum: int, e: CacheEntry| sum + e.image.byte_size();
            &&& 0 <= k <= cache.entries.len()
            &&& after.entries == cache.entries.skip(k)
            &&& after.bytes == after.entries.fold_left(0int, sum)
            &&& after.entries.len() > 0 ==> after.bytes <= cache.max_bytes
                && after.entries.len() <= cache.max_images
            &&& k > 0 ==> cache.entries.skip(k - 1).fold_left(0int, sum) > cache.max_bytes
                || cache.entries.len() - (k - 1) > cache.max_images
            &&& after.max_bytes == cache.max_bytes
            &&& after.max_images == cache.max_images
            &&& after.next_ticket == cache.next_ticket
        }),
{
    let n = cache.entries.len() as int;
    eviction_is_least(cache);
    lemma_evictions(cache, 0);
    let k = cache.evictions_from(0);
    let after = cache.evicted();
    entries_take_what_their_images_take(after.entries, n - k);
    assert(after.entries.take(n - k) =~= after.entries);
    if k > 0 {
        let wider = cache.entries.skip(k - 1);
        assert(!cache.fits_after(k - 1));
        lemma_entry_bytes_skip(cache.entries, k - 1, n - k + 1);
        lemma_entry_bytes_nonnegative(wider, n - k + 1);
        entries_take_what_their_images_take(wider, n - k + 1);
        assert(wider.take(n - k + 1) =~= wider);
    }
}

/// An inserted image stands behind all other documents' images, in place of
/// any earlier one of its own document, and is told apart by the number of
/// its insertion; the others keep their order.
pub proof fn inserted_images_go_behind_the_others(
    cache: CacheView,
    id: Seq<char>,
    image: CachedImage,
)
    requires
        cache.distinct(),
    ensures
        ({
            let all = cache.with_image(id, image);
            &&& all.entries == cache.entries.filter(|e: CacheEntry| e.id != id).push(
                CacheEntry { id, image, ticket: cache.next_ticket },
            )
            &&& all.max_bytes == cache.max_bytes
            &&& all.max_images == cache.max_images
            &&& cache.next_ticket < u64::MAX ==> all.next_ticket == cache.next_ticket + 1
            &&& cache.inserted(id, image) == all.evicted()
        }),
{
    lemma_others(cache, id);
}

/// Inserting an image evicts the images that were used longest ago, and no
/// more of them than needed: those of the others and the new one that stay
/// are the last ones, they meet both budgets or there are none, and with one
/// more of them a budget would not be met.
pub proof fn inserting_evicts_the_oldest(cache: CacheView, id: Seq<char>, image: CachedImage)
    requires
        cache.distinct(),
        cache.accounted(),
        cache.bytes + image.byte_size() <= usize::MAX,
    ensures
        ({
            let all = cache.entries.filter(|e: CacheEntry| e.id != id).push(
                CacheEntry { id, image, ticket: cache.next_ticket },
            );
            let after = cache.inserted(id, image);
            let k = all.len() - after.entries.len();
            let sum = |sum: int, e: CacheEntry| sum + e.image.byte_size();
            &&& 0 <= k <= all.len()
            &&& after.entries == all.skip(k)
            &&& after.bytes == after.entries.fold_left(0int, sum)
            &&& after.entries.len() > 0 ==> after.bytes <= cache.max_bytes
                && after.entries.len() <= cache.max_images
            &&& k > 0 ==> all.skip(k - 1).fold_left(0int, sum) > cache.max_bytes || all.len() - (k
                - 1) > cache.max_images
            &&& after.max_bytes == cache.max_bytes
            &&& after.max_images == cache.max_images
        }),
{
    let n = cache.entries.len() as int;
    inserted_images_go_behind_the_others(cache, id, image);
    lemma_place_from(cache.entries, id, 0);
    let base = cache.without(id);
    if let Some(i) = cache.place(id) {
        lemma_entry_bytes_remove(cache.entries, i, n);
        lemma_entry_bytes_nonnegative(base.entries, n - 1);
        lemma_entry_bytes_nonnegative(seq![cache.entries[i]], 1);
        assert(entry_bytes(seq![cache.entries[i]], 1) == entry_bytes(seq![cache.entries[i]], 0)
            + cache.entries[i].image.byte_size());
    }
    let pushed = cache.with_image(id, image);
    lemma_entry_bytes_prefix(pushed.entries, base.entries, base.entries.len() as int);
    assert(pushed.accounted());
    the_oldest_are_evicted(pushed);
}

/// A section that is being written stands in its own document alone, which
/// becomes the most recently used: the others keep their order, and of the
/// document nothing changes but that section.
pub proof fn staging_touches_one_document(
    cache: CacheView,
    id: Seq<char>,
    name: Seq<char>,
    value: serde_json::Value,
    during: CacheView,
)
    requires
        cache.distinct(),
        cache.place(id) is Some,
        cache.staged(id, name, value, during),
    ensures
        ({
            let was = cache.entries[cache.place(id)->0];
            let is = during.entries.last();
            &&& during.entries.len() == cache.entries.len()
            &&& during.entries.drop_last() == cache.entries.filter(|e: CacheEntry| e.id != id)
            &&& is.id == id
            &&& is.ticket == was.ticket
            &&& is.image.pixels == was.image.pixels
            &&& is.image.width == was.image.width
            &&& is.image.height == was.image.height
            &&& is.image.fits_path == was.image.fits_path
            &&& is.image.max_adu == was.image.max_adu
            &&& is.image.json_nbytes == was.image.json_nbytes
            &&& is.image.document.held() == was.image.document.held().insert(name, value)
            &&& same_but_sections(is.image.document, was.image.document)
            &&& during.bytes == cache.bytes
            &&& during.max_bytes == cache.max_bytes
            &&& during.max_images == cache.max_images
            &&& during.next_ticket == cache.next_ticket
        }),
{
    lemma_others(cache, id);
    lemma_place_from(cache.entries, id, 0);
    let i = cache.place(id)->0;
    let promoted = cache.promoted(id);
    let last = cache.entries.len() - 1;
    assert(promoted.entries[last] == cache.entries[i]);
    assert(during.entries.drop_last() =~= promoted.entries.drop_last());
    assert(promoted.entries.drop_last() =~= cache.entries.remove(i));
}

/// A section that was taken back changes no other document, no other part of
/// its own, and not the order of the entries.
pub proof fn taking_back_touches_one_document(
    cache: CacheView,
    i: int,
    name: Seq<char>,
    prior: Option<serde_json::Value>,
    after: CacheView,
)
    requires
        0 <= i < cache.entries.len(),
        cache.unstaged(i, name, prior, after),
    ensures
        ({
            let was = cache.entries[i];
            let is = after.entries[i];
            &&& after.entries.len() == cache.entries.len()
            &&& forall|k: int|
                0 <= k < cache.entries.len() && k != i ==> #[trigger] after.entries[k]
                    == cache.entries[k]
            &&& is.id == was.id
            &&& is.ticket == was.ticket
            &&& is.image.pixels == was.image.pixels
            &&& is.image.width == was.image.width
            &&& is.image.height == was.image.height
            &&& is.image.fits_path == was.image.fits_path
            &&& is.image.max_adu == was.image.max_adu
            &&& is.image.json_nbytes == was.image.json_nbytes
            &&& same_but_sections(is.image.document, was.image.document)
            &&& prior matches Some(value) ==> is.image.document.held()
                == was.image.document.held().insert(name, value)
            &&& prior is None ==> is.image.document.held() == was.image.document.held().remove(
                name,
            )
            &&& after.bytes == cache.bytes
            &&& after.max_bytes == cache.max_bytes
            &&& after.max_images == cache.max_images
            &&& after.next_ticket == cache.next_ticket
        }),
{
}

/// A document that was written counts for its new size, and for nothing
/// where that could not be told; no other entry changes, and entries leave,
/// those used longest ago first, only as far as a budget asks for it.
pub proof fn written_documents_count_their_new_size(
    cache: CacheView,
    i: int,
    size: Option<usize>,
)
    requires
        cache.accounted(),
        0 <= i < cache.entries.len(),
        size is Some ==> size->0 <= i64::MAX,
        cache.entries[i].image.json_nbytes <= i64::MAX,
        cache.entries[i].image.pixels.byte_size() + cache.entries[i].image.json_nbytes
            <= usize::MAX,
        size is Some ==> cache.entries[i].image.pixels.byte_size() + size->0 <= usize::MAX,
        cache.bytes <= usize::MAX,
        size is Some ==> cache.bytes + size->0 <= usize::MAX,
    ensures
        ({
            let n: usize = if size is Some {
                size->0
            } else {
                0
            };
            let was = cache.entries[i];
            let all = cache.entries.update(
                i,
                CacheEntry { image: CachedImage { json_nbytes: n, ..was.image }, ..was },
            );
            let after = cache.rewritten(i, written_size(size));
            let k = all.len() - after.entries.len();
            let sum = |sum: int, e: CacheEntry| sum + e.image.byte_size();
            &&& 0 <= k <= all.len()
            &&& after.entries == all.skip(k)
            &&& after.bytes == after.entries.fold_left(0int, sum)
            &&& after.entries.len() > 0 ==> after.bytes <= cache.max_bytes
                && after.entries.len() <= cache.max_images
            &&& k > 0 ==> all.skip(k - 1).fold_left(0int, sum) > cache.max_bytes || all.len() - (k
                - 1) > cache.max_images
            &&& after.next_ticket == cache.next_ticket
        }),
{
    let n = cache.entries.len() as int;
    let json_nbytes = written_size(size);
    let image = cache.entries[i].image;
    let entry = CacheEntry { image: CachedImage { json_nbytes, ..image }, ..cache.entries[i] };
    lemma_entry_bytes_update(cache.entries, i, entry, n);
    let resized = cache.resized(i, json_nbytes);
    lemma_entry_bytes_nonnegative(resized.entries, n);
    let delta = signed(json_nbytes) - signed(image.json_nbytes);
    let moved = CacheView { bytes: cache.bytes + delta, ..resized };
    assert(resized.adjusted(delta) == moved.evicted());
    assert(moved.accounted());
    the_oldest_are_evicted(moved);
}

/// A document that memory holds is found there, whatever the disk has; one
/// that neither has changes nothing; and an image read back from disk is
/// taken in like any other, so that the next lookup finds it in memory, as
/// long as it fits the budgets by itself.
pub proof fn memory_goes_before_the_disk(
    cache: CacheView,
    id: Seq<char>,
    from_disk: Option<CachedImage>,
)
    requires
        cache.distinct(),
    ensures
        cache.place(id) is Some ==> resolved(cache, id, from_disk) == cache.promoted(id),
        cache.place(id) is None && from_disk is None ==> resolved(cache, id, from_disk) == cache,
        cache.place(id) is None && from_disk is Some ==> resolved(cache, id, from_disk)
            == cache.inserted(id, from_disk->0),
        cache.place(id) is None && from_disk is Some && cache.accounted() && cache.bytes
            + from_disk->0.byte_size() <= usize::MAX && from_disk->0.byte_size()
            <= cache.max_bytes && 1 <= cache.max_images ==> {
            let after = resolved(cache, id, from_disk);
            after.place(id) is Some && after.entries[after.place(id)->0].image == from_disk->0
        },
{
    if cache.place(id) is None && from_disk is Some && cache.accounted() && cache.bytes
        + from_disk->0.byte_size() <= usize::MAX && from_disk->0.byte_size() <= cache.max_bytes
        && 1 <= cache.max_images {
        inserted_image_stays(cache, id, from_disk->0);
    }
}

} // verus!
