//! The address-space mapper: puts the segments of the kernel image into the
//! address space, page by page.

use vstd::prelude::*;
use crate::address::{linear, page_of, span, PAGE_COUNT};
use crate::error::LoadError;
use crate::image::{
    entry_count, entry_point, executable_at, lemma_u64_at_bounds, loadable, parse_refusal,
    segment_at, segments_among, segments_sound, KernelImage, Permissions, Segment,
};
use crate::registers::WriteWindow;
use crate::space::{overloaded, AddressSpace, PageView, SpaceView};

verus! {

/// Whether a page that holds `held` would become writable and executable at
/// once if it took the permissions as well.
pub open spec fn clash(held: PageView, permissions: Permissions) -> bool {
    overloaded(held, permissions.writable, permissions.executable)
}

impl Segment {
    /// A page once the segment has been mapped over it: it gains the
    /// permissions of the segment and holds its bytes where the segment covers it.
    pub open spec fn page_after(self, image: Seq<u8>, page: int, before: PageView) -> PageView {
        PageView {
            writable: before.writable || self.permissions.writable,
            executable: before.executable || self.permissions.executable,
            bytes: self.bytes_after(image, page, before.bytes),
        }
    }
}

impl SpaceView {
    /// Number of absent nodes of the given level among the regions `lo` to `hi`.
    pub open spec fn missing(self, level: int, lo: int, hi: int) -> int
        decreases hi - lo + 1,
    {
        if hi < lo {
            0
        } else {
            self.missing(level, lo, hi - 1) + self.lacks(level, hi)
        }
    }

    /// Number of frames that mapping the pages `lo` to `hi` takes: one for
    /// each absent page, and one for each absent table above them.
    pub open spec fn range_cost(self, lo: int, hi: int) -> int {
        if hi < lo {
            0
        } else {
            self.missing(0, lo, hi) + self.missing(1, lo / span(1), hi / span(1)) + self.missing(
                2,
                lo / span(2),
                hi / span(2),
            ) + self.missing(3, lo / span(3), hi / span(3))
        }
    }

    /// Whether some page of the segment would become writable and executable at once.
    pub open spec fn conflict(self, segment: Segment) -> bool {
        exists|page: int|
            segment.first_page() <= page <= segment.last_page() && #[trigger] clash(
                self.page_or_blank(page),
                segment.permissions,
            )
    }

    /// The space after the pages `lo` to `hi` of the segment have been mapped.
    pub open spec fn with_range(
        self,
        segment: Segment,
        image: Seq<u8>,
        lo: int,
        hi: int,
    ) -> SpaceView {
        SpaceView {
            pages: Map::new(
                |page: int| self.pages.dom().contains(page) || lo <= page <= hi,
                |page: int|
                    if lo <= page <= hi {
                        segment.page_after(image, page, self.page_or_blank(page))
                    } else {
                        self.pages[page]
                    },
            ),
            tables: Set::new(
                |node: (int, int)|
                    self.tables.contains(node) || (1 <= node.0 <= 3 && lo <= hi && lo / span(node.0)
                        <= node.1 <= hi / span(node.0)),
            ),
            free: self.free - self.range_cost(lo, hi),
        }
    }

    /// The space after the segment has been mapped: every page of its range
    /// is mapped; where the segment covers a page, the page holds the bytes
    /// of the image or, beyond them, zero; the rest of a page that was
    /// mapped before stays, the rest of a new page is zero; each page of the
    /// range has the permissions of the segment besides those it had; the
    /// tables above them exist; and the allocator has lost one frame for
    /// each page and table that was absent.
    pub open spec fn with_segment(self, segment: Segment, image: Seq<u8>) -> SpaceView {
        self.with_range(segment, image, segment.first_page(), segment.last_page())
    }

    /// Why the segment cannot be mapped into this space, if it cannot.
    pub open spec fn refusal(self, segment: Segment, image_len: int) -> Option<LoadError> {
        if !segment.well_formed() || !segment.fits(image_len) {
            Some(LoadError::MalformedImage)
        } else if self.conflict(segment) {
            Some(LoadError::InvalidSegmentPermissions)
        } else if self.free < self.range_cost(segment.first_page(), segment.last_page()) {
            Some(LoadError::ResourceExhaustion)
        } else {
            None
        }
    }

    /// The space after the segments have been mapped one after the other.
    pub open spec fn with_segments(self, segments: Seq<Segment>, image: Seq<u8>) -> SpaceView
        decreases segments.len(),
    {
        if segments.len() == 0 {
            self
        } else {
            self.with_segments(segments.drop_last(), image).with_segment(segments.last(), image)
        }
    }

    /// Why the segments cannot be mapped one after the other, if they cannot:
    /// the refusal of the first segment that does not go into the space that
    /// the segments before it have left.
    pub open spec fn first_refusal(self, segments: Seq<Segment>, image: Seq<u8>) -> Option<
        LoadError,
    >
        decreases segments.len(),
    {
        if segments.len() == 0 {
            None
        } else {
            match self.first_refusal(segments.drop_last(), image) {
                Some(error) => Some(error),
                None => self.with_segments(segments.drop_last(), image).refusal(
                    segments.last(),
                    image.len() as int,
                ),
            }
        }
    }

    proof fn lemma_missing_monotone(self, level: int, lo: int, mid: int, hi: int)
        requires
            mid <= hi,
        ensures
            0 <= self.missing(level, lo, mid) <= self.missing(level, lo, hi),
        decreases hi - lo + 1, hi - mid,
    {
        if hi < lo {
        } else if mid < hi {
            self.lemma_missing_monotone(level, lo, mid, hi - 1);
        } else {
            self.lemma_missing_monotone(level, lo, mid - 1, hi - 1);
        }
    }

    proof fn lemma_range_cost_monotone(self, lo: int, mid: int, hi: int)
        requires
            0 <= lo,
            lo - 1 <= mid <= hi,
        ensures
            0 <= self.range_cost(lo, mid) <= self.range_cost(lo, hi),
    {
        if lo <= hi {
            self.lemma_missing_monotone(0, lo, lo - 1, hi);
            self.lemma_missing_monotone(1, lo / span(1), lo / span(1) - 1, hi / span(1));
            self.lemma_missing_monotone(2, lo / span(2), lo / span(2) - 1, hi / span(2));
            self.lemma_missing_monotone(3, lo / span(3), lo / span(3) - 1, hi / span(3));
        }
        if lo <= mid {
            self.lemma_missing_monotone(0, lo, mid, hi);
            self.lemma_missing_monotone(1, lo / span(1), mid / span(1), hi / span(1));
            self.lemma_missing_monotone(2, lo / span(2), mid / span(2), hi / span(2));
            self.lemma_missing_monotone(3, lo / span(3), mid / span(3), hi / span(3));
        }
    }

    /// What one more page adds at one level: the absent node of the page, if
    /// the pages before it have not brought it.
    proof fn lemma_level_step(
        self,
        segment: Segment,
        image: Seq<u8>,
        level: int,
        lo: int,
        page: int,
    )
        requires
            0 <= lo <= page,
            0 <= level <= 3,
        ensures
            self.with_range(segment, image, lo, page - 1).lacks(level, page / span(level))
                == self.missing(level, lo / span(level), page / span(level)) - (if lo < page {
                self.missing(level, lo / span(level), (page - 1) / span(level))
            } else {
                0
            }),
    {
        let size = span(level);
        let region = page / size;
        let current = self.with_range(segment, image, lo, page - 1);
        assert(self.missing(level, lo / size, lo / size - 1) == 0);
        if lo < page {
            assert((page - 1) / size <= region <= (page - 1) / size + 1);
            assert(lo / size <= (page - 1) / size);
            if level == 0 {
                assert(current.has_node(level, region) == self.has_node(level, region));
            } else {
                assert(current.tables.contains((level, region)) == (self.tables.contains(
                    (level, region),
                ) || region <= (page - 1) / size));
            }
        } else {
            assert(current.pages =~= self.pages);
            assert(current.tables =~= self.tables);
        }
    }

    /// Mapping the pages `lo` to `page` is mapping the pages before `page`
    /// and then `page` itself.
    proof fn lemma_step(self, segment: Segment, image: Seq<u8>, lo: int, page: int)
        requires
            0 <= lo <= page,
        ensures
            ({
                let current = self.with_range(segment, image, lo, page - 1);
                &&& current.page_cost(page) == self.range_cost(lo, page) - self.range_cost(
                    lo,
                    page - 1,
                )
                &&& current.page_or_blank(page) == self.page_or_blank(page)
                &&& current.with_page(
                    page,
                    segment.permissions.writable,
                    segment.permissions.executable,
                ).with_bytes(
                    page,
                    segment.bytes_after(image, page, current.page_or_blank(page).bytes),
                ) == self.with_range(segment, image, lo, page)
            }),
    {
        let current = self.with_range(segment, image, lo, page - 1);
        self.lemma_level_step(segment, image, 0, lo, page);
        self.lemma_level_step(segment, image, 1, lo, page);
        self.lemma_level_step(segment, image, 2, lo, page);
        self.lemma_level_step(segment, image, 3, lo, page);
        let stepped = current.with_page(
            page,
            segment.permissions.writable,
            segment.permissions.executable,
        ).with_bytes(page, segment.bytes_after(image, page, current.page_or_blank(page).bytes));
        let goal = self.with_range(segment, image, lo, page);
        assert((page - 1) / span(1) <= page / span(1) <= (page - 1) / span(1) + 1);
        assert((page - 1) / span(2) <= page / span(2) <= (page - 1) / span(2) + 1);
        assert((page - 1) / span(3) <= page / span(3) <= (page - 1) / span(3) + 1);
        assert(lo / span(1) <= page / span(1));
        assert(lo / span(2) <= page / span(2));
        assert(lo / span(3) <= page / span(3));
        assert(stepped.pages =~= goal.pages);
        assert(stepped.tables =~= goal.tables);
    }
}

impl AddressSpace {
    /// Maps one segment of the image: every page that holds a byte of it is
    /// mapped, in a fresh zeroed frame unless it was mapped before, takes the
    /// bytes of the segment and gains its permissions. Nothing is mapped if
    /// the segment is malformed or would make a page writable and executable
    /// at once; the mapping stops where the frames run out.
    pub fn map_segment(&mut self, segment: &Segment, image: &[u8]) -> (result: Result<
        (),
        LoadError,
    >)
        requires
            old(self).wf(),
        ensures
            final(self).wf(),
            final(self).root() == old(self).root(),
            match result {
                Ok(()) => {
                    &&& old(self)@.refusal(*segment, image@.len() as int) is None
                    &&& final(self)@ == old(self)@.with_segment(*segment, image@)
                },
                Err(error) => {
                    &&& old(self)@.refusal(*segment, image@.len() as int) == Some(error)
                    &&& error != LoadError::ResourceExhaustion ==> final(self)@ == old(self)@
                    &&& error == LoadError::ResourceExhaustion ==> final(self)@.free == 0
                },
            },
    {
        if !segment.check(image.len()) {
            return Err(LoadError::MalformedImage);
        }
        let ghost before = *self;
        let first = segment.first_page_number();
        let last = segment.last_page_number();
        let writable = segment.permissions.writable;
        let executable = segment.permissions.executable;
        proof {
            segment.lemma_range();
        }
        let mut page = first;
        while page <= last
            invariant
                *self == before,
                before == *old(self),
                segment.well_formed(),
                segment.fits(image@.len() as int),
                self.wf(),
                first <= page <= last + 1,
                last < PAGE_COUNT,
                first == segment.first_page(),
                last == segment.last_page(),
                writable == segment.permissions.writable,
                executable == segment.permissions.executable,
                forall|other: int|
                    first <= other < page ==> !#[trigger] clash(
                        before@.page_or_blank(other),
                        segment.permissions,
                    ),
            decreases last + 1 - page,
        {
            let held = match self.held(page) {
                Some(held) => held,
                None => (false, false),
            };
            if (held.0 || writable) && (held.1 || executable) {
                assert(clash(before@.page_or_blank(page as int), segment.permissions));
                return Err(LoadError::InvalidSegmentPermissions);
            }
            page = page + 1;
        }
        page = first;
        proof {
            let start = before@.with_range(*segment, image@, first as int, first - 1);
            assert(self@.pages =~= start.pages);
            assert(self@.tables =~= start.tables);
        }
        while page <= last
            invariant
                before == *old(self),
                before.wf(),
                self.wf(),
                self.root() == before.root(),
                first <= page <= last + 1,
                last < PAGE_COUNT,
                first == segment.first_page(),
                last == segment.last_page(),
                writable == segment.permissions.writable,
                executable == segment.permissions.executable,
                segment.well_formed(),
                segment.fits(image@.len() as int),
                !before@.conflict(*segment),
                self@ == before@.with_range(*segment, image@, first as int, page - 1),
            decreases last + 1 - page,
        {
            proof {
                before@.lemma_step(*segment, image@, first as int, page as int);
                before@.lemma_range_cost_monotone(first as int, page as int, last as int);
                before@.lemma_range_cost_monotone(first as int, page - 1, page as int);
                before.lemma_view();
                self.lemma_view();
                assert(!clash(before@.page_or_blank(page as int), segment.permissions));
            }
            let index = match self.map_page(page, writable, executable) {
                Ok(index) => index,
                Err(error) => {
                    return Err(error);
                },
            };
            self.write_page(index, page, segment, image);
            page = page + 1;
        }
        proof {
            self.lemma_view();
        }
        Ok(())
    }
}

impl Segment {
    /// A number of frames that is enough to map the segment into any space:
    /// room for its pages and for the tables of each level above them.
    pub open spec fn frame_bound(self) -> int {
        let pages = self.memory_size as int / 4096 + 2;
        pages + (pages / 512 + 2) + (pages / 262144 + 2) + (pages / 134217728 + 2)
    }
}

/// The frame bounds of the segments, added up.
pub open spec fn frames_bound(segments: Seq<Segment>) -> int
    decreases segments.len(),
{
    if segments.len() == 0 {
        0
    } else {
        frames_bound(segments.drop_last()) + segments.last().frame_bound()
    }
}

/// A number of frames that is enough for the root table and to map the
/// image, whatever its layout; `u64::MAX` if the number is larger than that.
pub fn frame_budget(image: &KernelImage) -> (frames: u64)
    ensures
        frames == (if 1 + frames_bound(image.segments@) <= u64::MAX {
            1 + frames_bound(image.segments@)
        } else {
            u64::MAX as int
        }),
{
    let mut frames: u64 = 1;
    let mut index: usize = 0;
    assert(image.segments@.take(0) =~= Seq::<Segment>::empty());
    while index < image.segments.len()
        invariant
            index <= image.segments.len(),
            frames == 1 + frames_bound(image.segments@.take(index as int)),
        decreases image.segments.len() - index,
    {
        let pages = image.segments[index].memory_size / 4096 + 2;
        let bound = pages + (pages / 512 + 2) + (pages / 262144 + 2) + (pages / 134217728 + 2);
        proof {
            let taken = image.segments@.take(index as int + 1);
            assert(taken.drop_last() =~= image.segments@.take(index as int));
            lemma_frames_bound_grows(image.segments@, index as int + 1);
        }
        frames = match frames.checked_add(bound) {
            Some(sum) => sum,
            None => {
                return u64::MAX;
            },
        };
        index = index + 1;
    }
    assert(image.segments@.take(index as int) =~= image.segments@);
    frames
}

proof fn lemma_frames_bound_grows(segments: Seq<Segment>, count: int)
    requires
        0 <= count <= segments.len(),
    ensures
        0 <= frames_bound(segments.take(count)) <= frames_bound(segments),
    decreases segments.len() - count,
{
    if count < segments.len() {
        lemma_frames_bound_grows(segments, count + 1);
        assert(segments.take(count + 1).drop_last() =~= segments.take(count));
        lemma_frames_bound_positive(segments.take(count));
    } else {
        assert(segments.take(count) =~= segments);
        lemma_frames_bound_positive(segments);
    }
}

proof fn lemma_frames_bound_positive(segments: Seq<Segment>)
    ensures
        0 <= frames_bound(segments),
    decreases segments.len(),
{
    if segments.len() > 0 {
        lemma_frames_bound_positive(segments.drop_last());
    }
}

impl SpaceView {
    proof fn lemma_missing_bound(self, level: int, lo: int, hi: int)
        requires
            lo <= hi + 1,
        ensures
            0 <= self.missing(level, lo, hi) <= hi - lo + 1,
        decreases hi - lo + 1,
    {
        if lo <= hi {
            self.lemma_missing_bound(level, lo, hi - 1);
        }
    }

    /// Mapping a well-formed segment never takes more frames than its bound.
    proof fn lemma_cost_within_bound(self, segment: Segment)
        requires
            segment.well_formed(),
        ensures
            self.range_cost(segment.first_page(), segment.last_page()) <= segment.frame_bound(),
    {
        let lo = segment.first_page();
        let hi = segment.last_page();
        segment.lemma_range();
        self.lemma_missing_bound(0, lo, hi);
        self.lemma_missing_bound(1, lo / span(1), hi / span(1));
        self.lemma_missing_bound(2, lo / span(2), hi / span(2));
        self.lemma_missing_bound(3, lo / span(3), hi / span(3));
    }
}

/// A space with as many free frames as the bound of the segments never runs
/// out of frames while they are mapped.
pub proof fn lemma_budget_suffices(space: SpaceView, segments: Seq<Segment>, image: Seq<u8>)
    requires
        space.free >= frames_bound(segments),
    ensures
        space.first_refusal(segments, image) != Some(LoadError::ResourceExhaustion),
        space.first_refusal(segments, image) is None ==> space.with_segments(segments, image).free
            >= space.free - frames_bound(segments),
    decreases segments.len(),
{
    if segments.len() > 0 {
        let earlier = segments.drop_last();
        let last = segments.last();
        lemma_frames_bound_positive(earlier);
        lemma_budget_suffices(space, earlier, image);
        if space.first_refusal(earlier, image) is None {
            let previous = space.with_segments(earlier, image);
            if last.well_formed() {
                previous.lemma_cost_within_bound(last);
            }
        }
    }
}

/// Whether the two segments cover no byte in common.
pub open spec fn apart(one: Segment, other: Segment) -> bool {
    one.end() <= other.start() || other.end() <= one.start()
}

/// Whether no two of the segments cover the same byte.
pub open spec fn disjoint(segments: Seq<Segment>) -> bool {
    forall|i: int, j: int|
        0 <= i < j < segments.len() ==> apart(#[trigger] segments[i], #[trigger] segments[j])
}

impl WriteWindow {
    /// Maps every segment of the image, in order. This is what the window for
    /// writing the page tables is opened for: mapping takes an open window, and
    /// the window can be closed only when mapping has returned. It stops at the
    /// first segment that cannot be mapped.
    pub fn map_image(
        &self,
        space: &mut AddressSpace,
        image: &KernelImage,
        bytes: &[u8],
    ) -> (result: Result<(), LoadError>)
        requires
            old(space).wf(),
        ensures
            final(space).wf(),
            final(space).root() == old(space).root(),
            match result {
                Ok(()) => {
                    &&& old(space)@.first_refusal(image.segments@, bytes@) is None
                    &&& final(space)@ == old(space)@.with_segments(image.segments@, bytes@)
                },
                Err(error) => {
                    &&& old(space)@.first_refusal(image.segments@, bytes@) == Some(error)
                    &&& error == LoadError::ResourceExhaustion ==> final(space)@.free == 0
                },
            },
    {
        let ghost before = *space;
        let mut index: usize = 0;
        assert(image.segments@.take(0) =~= Seq::<Segment>::empty());
        while index < image.segments.len()
            invariant
                before == *old(space),
                space.wf(),
                space.root() == before.root(),
                index <= image.segments.len(),
                before@.first_refusal(image.segments@.take(index as int), bytes@) is None,
                space@ == before@.with_segments(image.segments@.take(index as int), bytes@),
            decreases image.segments.len() - index,
        {
            let ghost taken = image.segments@.take(index as int + 1);
            proof {
                assert(taken.drop_last() =~= image.segments@.take(index as int));
                assert(taken.last() == image.segments@[index as int]);
            }
            match space.map_segment(&image.segments[index], bytes) {
                Ok(()) => {},
                Err(error) => {
                    proof {
                        lemma_refusal_stays(before@, image.segments@, bytes@, index as int + 1);
                    }
                    return Err(error);
                },
            }
            index = index + 1;
        }
        assert(image.segments@.take(index as int) =~= image.segments@);
        Ok(())
    }
}

/// A refusal among the first `count` segments is the refusal of them all.
proof fn lemma_refusal_stays(space: SpaceView, segments: Seq<Segment>, image: Seq<u8>, count: int)
    requires
        0 <= count <= segments.len(),
        space.first_refusal(segments.take(count), image) is Some,
    ensures
        space.first_refusal(segments, image) == space.first_refusal(segments.take(count), image),
    decreases segments.len() - count,
{
    if count < segments.len() {
        let longer = segments.take(count + 1);
        assert(longer.drop_last() =~= segments.take(count));
        lemma_refusal_stays(space, segments, image, count + 1);
    } else {
        assert(segments.take(count) =~= segments);
    }
}

/// Once an image whose segments share no byte has been mapped, every byte
/// of every segment is in place: its page is mapped and holds, at the
/// byte's offset, the byte of the image, or zero beyond what the image holds
/// of the segment.
pub proof fn lemma_segments_in_place(
    space: SpaceView,
    segments: Seq<Segment>,
    image: Seq<u8>,
    index: int,
    position: int,
)
    requires
        space.first_refusal(segments, image) is None,
        disjoint(segments),
        0 <= index < segments.len(),
        segments[index].covers(position),
    ensures
        ({
            let mapped = space.with_segments(segments, image);
            &&& mapped.pages.dom().contains(position / 4096)
            &&& mapped.pages[position / 4096].bytes[position % 4096] == segments[index].byte_at(
                image,
                position,
            )
        }),
    decreases segments.len(),
{
    let last = segments.last();
    let earlier = segments.drop_last();
    let previous = space.with_segments(earlier, image);
    let page = position / 4096;
    last.lemma_range();
    assert(position == page * 4096 + position % 4096);
    if index == segments.len() - 1 {
        assert(last.first_page() <= page <= last.last_page());
    } else {
        assert(earlier[index] == segments[index]);
        assert(disjoint(earlier)) by {
            assert forall|i: int, j: int| 0 <= i < j < earlier.len() implies apart(
                #[trigger] earlier[i],
                #[trigger] earlier[j],
            ) by {
                assert(apart(segments[i], segments[j]));
            }
        }
        lemma_segments_in_place(space, earlier, image, index, position);
        assert(!last.covers(position)) by {
            assert(apart(segments[index], segments[segments.len() - 1]));
        }
    }
}

/// Once the segments have been mapped, every page that holds a byte of one
/// of them is mapped with at least the permissions of that segment.
pub proof fn lemma_permissions_granted(
    space: SpaceView,
    segments: Seq<Segment>,
    image: Seq<u8>,
    index: int,
    position: int,
)
    requires
        space.first_refusal(segments, image) is None,
        0 <= index < segments.len(),
        segments[index].covers(position),
    ensures
        ({
            let mapped = space.with_segments(segments, image);
            &&& mapped.pages.dom().contains(position / 4096)
            &&& segments[index].permissions.writable ==> mapped.pages[position / 4096].writable
            &&& segments[index].permissions.executable ==> mapped.pages[position / 4096].executable
        }),
    decreases segments.len(),
{
    let last = segments.last();
    let earlier = segments.drop_last();
    let page = position / 4096;
    last.lemma_range();
    if index == segments.len() - 1 {
        assert(last.first_page() <= page <= last.last_page());
    } else {
        assert(earlier[index] == segments[index]);
        lemma_permissions_granted(space, earlier, image, index, position);
    }
}

/// Every segment to load among the entries of the table is one of the
/// segments of the image.
proof fn lemma_segment_listed(bytes: Seq<u8>, count: int, index: int)
    requires
        0 <= index < count,
        loadable(bytes, index),
    ensures
        exists|place: int|
            0 <= place < segments_among(bytes, count).len() && #[trigger] segments_among(
                bytes,
                count,
            )[place] == segment_at(bytes, index),
    decreases count,
{
    if index == count - 1 {
        let place = segments_among(bytes, count - 1).len() as int;
        assert(segments_among(bytes, count)[place] == segment_at(bytes, index));
    } else {
        lemma_segment_listed(bytes, count - 1, index);
        let place = choose|place: int|
            0 <= place < segments_among(bytes, count - 1).len() && #[trigger] segments_among(
                bytes,
                count - 1,
            )[place] == segment_at(bytes, index);
        assert(segments_among(bytes, count)[place] == segment_at(bytes, index));
    }
}

/// Every segment of an image whose table is sound is well formed and lies
/// within the image.
proof fn lemma_listed_segment_sound(bytes: Seq<u8>, count: int, place: int)
    requires
        segments_sound(bytes, count),
        0 <= place < segments_among(bytes, count).len(),
    ensures
        segments_among(bytes, count)[place].well_formed(),
        segments_among(bytes, count)[place].fits(bytes.len() as int),
    decreases count,
{
    if count > 0 {
        assert(segments_sound(bytes, count - 1));
        if place < segments_among(bytes, count - 1).len() {
            lemma_listed_segment_sound(bytes, count - 1, place);
        } else {
            assert(loadable(bytes, count - 1));
        }
    }
}

/// Segments that are well formed and lie within the image are never refused
/// as malformed.
proof fn lemma_sound_segments_accepted(space: SpaceView, segments: Seq<Segment>, image: Seq<u8>)
    requires
        forall|place: int|
            0 <= place < segments.len() ==> (#[trigger] segments[place]).well_formed()
                && segments[place].fits(image.len() as int),
    ensures
        space.first_refusal(segments, image) != Some(LoadError::MalformedImage),
    decreases segments.len(),
{
    if segments.len() > 0 {
        let earlier = segments.drop_last();
        assert forall|place: int| 0 <= place < earlier.len() implies (#[trigger] earlier[place])
            .well_formed() && earlier[place].fits(image.len() as int) by {
            assert(earlier[place] == segments[place]);
        }
        lemma_sound_segments_accepted(space, earlier, image);
        assert(segments.last() == segments[segments.len() - 1]);
    }
}

/// An image that the parser accepts goes into any space that has as many
/// free frames as the bound of its segments, unless two of its segments
/// would make one page writable and executable: no other refusal can come.
pub proof fn lemma_parsed_image_is_mapped(space: SpaceView, bytes: Seq<u8>)
    requires
        parse_refusal(bytes) is None,
        space.free >= frames_bound(segments_among(bytes, entry_count(bytes))),
    ensures
        ({
            let refusal = space.first_refusal(segments_among(bytes, entry_count(bytes)), bytes);
            refusal is None || refusal == Some(LoadError::InvalidSegmentPermissions)
        }),
{
    let segments = segments_among(bytes, entry_count(bytes));
    assert forall|place: int| 0 <= place < segments.len() implies (#[trigger] segments[place])
        .well_formed() && segments[place].fits(bytes.len() as int) by {
        lemma_listed_segment_sound(bytes, entry_count(bytes), place);
    }
    lemma_sound_segments_accepted(space, segments, bytes);
    lemma_budget_suffices(space, segments, bytes);
    lemma_refusal_kinds(space, segments, bytes);
}

/// A refusal is one of three kinds.
proof fn lemma_refusal_kinds(space: SpaceView, segments: Seq<Segment>, image: Seq<u8>)
    ensures
        ({
            let refusal = space.first_refusal(segments, image);
            ||| refusal is None
            ||| refusal == Some(LoadError::MalformedImage)
            ||| refusal == Some(LoadError::InvalidSegmentPermissions)
            ||| refusal == Some(LoadError::ResourceExhaustion)
        }),
    decreases segments.len(),
{
    if segments.len() > 0 {
        lemma_refusal_kinds(space, segments.drop_last(), image);
    }
}

/// Once an image that the parser accepts has been mapped, the page of its
/// entry point is mapped and executable: the jump into the kernel lands on
/// code.
pub proof fn lemma_entry_is_executable(space: SpaceView, bytes: Seq<u8>)
    requires
        parse_refusal(bytes) is None,
        space.first_refusal(segments_among(bytes, entry_count(bytes)), bytes) is None,
    ensures
        ({
            let mapped = space.with_segments(segments_among(bytes, entry_count(bytes)), bytes);
            let page = page_of(entry_point(bytes) as u64);
            mapped.pages.dom().contains(page) && mapped.pages[page].executable
        }),
{
    let count = entry_count(bytes);
    let segments = segments_among(bytes, count);
    let entry = entry_point(bytes);
    let index = choose|index: int|
        0 <= index < count && #[trigger] loadable(bytes, index) && executable_at(
            segment_at(bytes, index),
            entry,
        );
    lemma_segment_listed(bytes, count, index);
    let place = choose|place: int|
        0 <= place < segments.len() && #[trigger] segments[place] == segment_at(bytes, index);
    let segment = segments[place];
    assert(segment.well_formed());
    lemma_u64_at_bounds(bytes, 24);
    segment.lemma_covers(entry as u64);
    lemma_permissions_granted(space, segments, bytes, place, linear(entry as u64));
}

} // verus!
