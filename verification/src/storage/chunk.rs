//! How content is cut into chunks before it is written.
use vstd::prelude::*;

use std::ops::Range;

use super::zip::{zip_cutting, Zip};

verus! {

/// Whether `ranges` are in order, do not overlap, and cover `len` bytes exactly: the first
/// starts at zero, each starts where the one before it ended, and the last ends at `len`.
pub open spec fn covers(ranges: Seq<Range<usize>>, len: nat) -> bool {
    &&& ranges.len() == 0 ==> len == 0
    &&& ranges.len() > 0 ==> ranges[0].start == 0 && ranges.last().end == len
    &&& forall|i: int| 0 <= i < ranges.len() ==> (#[trigger] ranges[i]).start <= ranges[i].end
    &&& forall|i: int|
        0 <= i < ranges.len() - 1 ==> #[trigger] ranges[i].end == ranges[i + 1].start
}

/// Whether every range in `ranges` holds at least one byte.
pub open spec fn all_nonempty(ranges: Seq<Range<usize>>) -> bool {
    forall|i: int| 0 <= i < ranges.len() ==> (#[trigger] ranges[i]).start < ranges[i].end
}

/// A cutting of content into chunks.
///
/// The ranges are in order, do not overlap, and cover all of `content`, so concatenating the
/// pieces they name gives `content` back exactly. A chunker is deterministic: the same content
/// cuts the same way every time.
pub trait Chunker {
    /// The ranges of `content` that are stored as chunks of their own.
    fn split(&self, content: &[u8]) -> (ranges: Vec<Range<usize>>)
        ensures
            covers(ranges@, content@.len()),
    ;
}

/// A chunker that never cuts: the whole content is one chunk.
#[derive(Debug, Clone, Copy, Default)]
pub struct Whole;

impl Chunker for Whole {
    fn split(&self, content: &[u8]) -> (ranges: Vec<Range<usize>>)
        ensures
            ranges@ == seq![0..content@.len() as usize],
    {
        let mut ranges = Vec::new();
        ranges.push(0..content.len());
        ranges
    }
}

/// A chunker that cuts every `size` bytes.
///
/// A size of nothing would cut forever without getting anywhere, so it is read as one.
#[derive(Debug, Clone, Copy, PartialEq, Eq)]
pub struct Fixed {
    /// How many bytes each chunk holds, bar the last.
    size: u32,
}

/// The step a fixed chunker of `size` takes: the size, or one for a size of nothing.
pub open spec fn fixed_step(size: u32) -> nat {
    if size == 0 { 1 } else { size as nat }
}

/// How many chunks of `step` bytes `len` bytes make, counting a short last one.
pub open spec fn chunk_count(len: nat, step: nat) -> nat
    recommends
        step > 0,
{
    ((len + step - 1) as nat) / step
}

/// The cutting a fixed chunker of `step` makes of `len` bytes: one range every `step` bytes,
/// the last of them holding what is left.
pub open spec fn fixed_ranges(len: nat, step: nat) -> Seq<Range<usize>>
    recommends
        step > 0,
{
    Seq::new(
        (chunk_count(len as nat, step)) as nat,
        |i: int|
            (i * step) as usize..(if (i + 1) * step <= len {
                ((i + 1) * step) as usize
            } else {
                len as usize
            }),
    )
}

/// A fixed cutting covers what it cuts, one non-empty range after another.
pub proof fn lemma_fixed_ranges_cover(len: nat, step: nat)
    requires
        step > 0,
        len <= usize::MAX,
    ensures
        covers(fixed_ranges(len, step), len),
{
    let ranges = fixed_ranges(len, step);
    let count = chunk_count(len, step);
    assert forall|i: int| 0 <= i < count implies (#[trigger] ranges[i]).start <= ranges[i].end by {
        assert(i * step < len) by (nonlinear_arith)
            requires
                0 <= i < count,
                count == ((len + step - 1) as nat) / step,
                step > 0,
        ;
        assert((i + 1) * step == i * step + step) by (nonlinear_arith);
    }
    assert forall|i: int| 0 <= i < count - 1 implies #[trigger] ranges[i].end == ranges[i
        + 1].start by {
        assert((i + 1) * step < len) by (nonlinear_arith)
            requires
                0 <= i < count - 1,
                count == ((len + step - 1) as nat) / step,
                step > 0,
        ;
    }
    if count > 0 {
        assert(ranges[0].start == 0);
        assert(len <= count * step) by (nonlinear_arith)
            requires
                count == ((len + step - 1) as nat) / step,
                step > 0,
        ;
        assert((count - 1) * step < len) by (nonlinear_arith)
            requires
                count == ((len + step - 1) as nat) / step,
                count > 0,
                step > 0,
        ;
        assert(count * step == (count - 1) * step + step) by (nonlinear_arith);
    } else {
        assert(len == 0) by (nonlinear_arith)
            requires
                count == ((len + step - 1) as nat) / step,
                count == 0,
                step > 0,
        ;
    }
}

impl View for Fixed {
    /// How many bytes each chunk holds, bar the last.
    type V = u32;

    closed spec fn view(&self) -> u32 {
        self.size
    }
}

impl Fixed {
    /// A chunker cutting every `size` bytes.
    pub fn new(size: u32) -> (chunker: Fixed)
        ensures
            chunker@ == size,
    {
        Fixed { size }
    }

    /// How many bytes each chunk holds, bar the last.
    pub fn size(&self) -> (size: u32)
        ensures
            size == self@,
    {
        self.size
    }
}

impl Chunker for Fixed {
    fn split(&self, content: &[u8]) -> (ranges: Vec<Range<usize>>)
        ensures
            ranges@ == fixed_ranges(content@.len(), fixed_step(self@)),
            all_nonempty(ranges@),
    {
        let size: usize = if self.size == 0 { 1 } else { self.size as usize };
        let len = content.len();
        let ghost step = fixed_step(self@);
        let mut ranges: Vec<Range<usize>> = Vec::new();
        let mut start: usize = 0;
        let mut i: usize = 0;
        proof {
            assert(len == 0 ==> chunk_count(0, step) == 0) by (nonlinear_arith)
                requires
                    step > 0,
            ;
        }
        while start < len
            invariant
                size == step,
                step > 0,
                len == content@.len(),
                start <= len,
                start < len ==> start == i * step,
                start == len ==> i == chunk_count(len as nat, step),
                ranges@.len() == i,
                forall|k: int|
                    0 <= k < i ==> #[trigger] ranges@[k] == fixed_ranges(len as nat, step)[k],
                forall|k: int|
                    0 <= k < i ==> (#[trigger] ranges@[k]).start < ranges@[k].end,
            decreases len - start,
        {
            proof {
                assert((i as int) < chunk_count(len as nat, step)) by (nonlinear_arith)
                    requires
                        start == i * step,
                        start < len,
                        step > 0,
                ;
                assert(chunk_count(len as nat, step) <= len) by (nonlinear_arith)
                    requires
                        step > 0,
                ;
                assert((i + 1) * step == start + step) by (nonlinear_arith)
                    requires
                        start == i * step,
                ;
            }
            let end = if len - start > size { start + size } else { len };
            ranges.push(start..end);
            proof {
                assert(fixed_ranges(len as nat, step)[i as int] == (start..end));
                if end == len {
                    assert(i + 1 == chunk_count(len as nat, step)) by (nonlinear_arith)
                        requires
                            start == i * step,
                            start < len,
                            len <= start + step,
                            step > 0,
                    ;
                }
            }
            start = end;
            i = i + 1;
        }
        assert(ranges@ =~= fixed_ranges(len as nat, step));
        proof {
            lemma_fixed_ranges_cover(len as nat, step);
        }
        ranges
    }
}

/// The value a byte contributes to the rolling hash: a `splitmix64` round of the byte.
///
/// It is fixed per byte value, so the same bytes always cut in the same places.
pub open spec fn gear_value(byte: u8) -> u64 {
    let a = vstd::wrapping::u64_specs::wrapping_add(byte as u64, 0x9E37_79B9_7F4A_7C15u64);
    let b = vstd::wrapping::u64_specs::wrapping_mul(a ^ (a >> 30u64), 0xBF58_476D_1CE4_E5B9u64);
    let c = vstd::wrapping::u64_specs::wrapping_mul(b ^ (b >> 27u64), 0x94D0_49BB_1331_11EBu64);
    c ^ (c >> 31u64)
}

/// The value `byte` contributes to the rolling hash.
pub fn gear(byte: u8) -> (value: u64)
    ensures
        value == gear_value(byte),
{
    let mut mixed = (byte as u64).wrapping_add(0x9E37_79B9_7F4A_7C15u64);
    mixed = (mixed ^ (mixed >> 30u64)).wrapping_mul(0xBF58_476D_1CE4_E5B9u64);
    mixed = (mixed ^ (mixed >> 27u64)).wrapping_mul(0x94D0_49BB_1331_11EBu64);
    mixed ^ (mixed >> 31u64)
}

/// The smallest power of two that is at least `x`, counting up from `p`.
pub open spec fn power_at_least(x: nat, p: nat) -> nat
    decreases x - p,
{
    if p == 0 || p >= x {
        p
    } else if 2 * p >= x {
        2 * p
    } else {
        power_at_least(x, 2 * p)
    }
}

/// The mask that makes a cut land about every `average` bytes: one less than the power of two
/// nearest `average` at or above it.
pub open spec fn mask_of(average: u32) -> u64 {
    let x: nat = if average == 0 { 1 } else { average as nat };
    (power_at_least(x, 1) - 1) as u64
}

/// The mask that makes a cut land about every `average` bytes.
pub fn mask_for(average: u32) -> (mask: u64)
    ensures
        mask == mask_of(average),
{
    let x: u64 = if average == 0 { 1 } else { average as u64 };
    let mut p: u64 = 1;
    while p < x
        invariant
            1 <= p < 2 * x,
            x <= 0xFFFF_FFFFu64,
            x >= 1,
            power_at_least(x as nat, p as nat) == power_at_least(x as nat, 1),
        decreases 2 * x - p,
    {
        p = p * 2;
    }
    p - 1
}

/// The rolling hash of `content` from `start` up to `end`.
pub open spec fn roll(content: Seq<u8>, start: int, end: int) -> u64
    decreases end - start,
{
    if end <= start {
        0
    } else {
        vstd::wrapping::u64_specs::wrapping_add(
            roll(content, start, end - 1) << 1u64,
            gear_value(content[end - 1]),
        )
    }
}

/// Whether a chunk that began at `start` is cut at `at`: it is long enough, and the hash of what
/// it holds has its low bits clear.
pub open spec fn cuts_at(content: Seq<u8>, start: int, at: int, min: int, mask: u64) -> bool {
    at - start >= min && roll(content, start, at) & mask == 0
}

/// Where a chunk that began at `start` may go no further.
pub open spec fn cut_limit(len: int, start: int, max: int) -> int {
    if start + max < len { start + max } else { len }
}

/// Whether `end` is where a content-defined chunk that began at `start` ends: the first place
/// the content says to cut, or the limit if it says nothing before it.
pub open spec fn is_cdc_end(content: Seq<u8>, start: int, end: int, min: int, max: int, mask: u64) -> bool {
    &&& start < end <= cut_limit(content.len() as int, start, max)
    &&& end == cut_limit(content.len() as int, start, max) || cuts_at(content, start, end, min, mask)
    &&& forall|at: int| start < at < end ==> !#[trigger] cuts_at(content, start, at, min, mask)
}

/// Whether `ranges` is the content-defined cutting of `content` with these bounds.
pub open spec fn is_cdc_cutting(content: Seq<u8>, ranges: Seq<Range<usize>>, min: int, max: int, mask: u64) -> bool {
    &&& covers(ranges, content.len())
    &&& forall|i: int|
        0 <= i < ranges.len() ==> is_cdc_end(
            content,
            (#[trigger] ranges[i]).start as int,
            ranges[i].end as int,
            min,
            max,
            mask,
        )
}

/// The bounds a content-defined chunker cuts within: no more than `max` bytes a chunk, at least
/// one, and a `min` no larger than that.
pub open spec fn cdc_bounds(min: u32, max: u32) -> (int, int) {
    let high: int = if max == 0 { 1 } else { max as int };
    let low: int = if (min as int) < high { min as int } else { high };
    (low, high)
}

/// A content-defined cutting keeps every chunk within `max` bytes, and every chunk but the last
/// at `min` bytes or more.
pub proof fn lemma_cdc_cutting_bounds(content: Seq<u8>, ranges: Seq<Range<usize>>, min: int, max: int, mask: u64)
    requires
        is_cdc_cutting(content, ranges, min, max, mask),
        0 <= min <= max,
        max >= 1,
    ensures
        forall|i: int| 0 <= i < ranges.len() ==> (#[trigger] ranges[i]).end - ranges[i].start <= max,
        forall|i: int| 0 <= i < ranges.len() ==> (#[trigger] ranges[i]).end > ranges[i].start,
        forall|i: int| 0 <= i < ranges.len() - 1 ==> (#[trigger] ranges[i]).end - ranges[i].start >= min,
{
    assert forall|i: int| 0 <= i < ranges.len() - 1 implies (#[trigger] ranges[i]).end - ranges[i].start >= min by {
        assert(is_cdc_end(content, ranges[i].start as int, ranges[i].end as int, min, max, mask));
        assert(ranges[i].end == ranges[i + 1].start);
        assert(is_cdc_end(content, ranges[i + 1].start as int, ranges[i + 1].end as int, min, max, mask));
    }
    assert forall|i: int| 0 <= i < ranges.len() implies (#[trigger] ranges[i]).end - ranges[i].start <= max by {
        assert(is_cdc_end(content, ranges[i].start as int, ranges[i].end as int, min, max, mask));
    }
}

/// A chunker that cuts where the content says so.
///
/// The cut points come from a rolling hash of the bytes rather than from how far along they are,
/// so inserting or removing something in the middle of a file only disturbs the chunk it lands
/// in. `average` is the size a chunk tends towards; `min` and `max` bound how small and how large
/// a chunk may get.
#[derive(Debug, Clone, Copy, PartialEq, Eq)]
pub struct Cdc {
    /// The smallest a chunk may be.
    min: u32,
    /// The size a chunk tends towards.
    average: u32,
    /// The largest a chunk may be.
    max: u32,
}

impl View for Cdc {
    /// The smallest, the usual and the largest size of a chunk.
    type V = (u32, u32, u32);

    closed spec fn view(&self) -> (u32, u32, u32) {
        (self.min, self.average, self.max)
    }
}

impl Cdc {
    /// A chunker cutting on content, tending towards `average` and staying within `min` and
    /// `max`.
    pub fn new(min: u32, average: u32, max: u32) -> (chunker: Cdc)
        ensures
            chunker@ == (min, average, max),
    {
        Cdc { min, average, max }
    }

    /// The smallest a chunk may be.
    pub fn min(&self) -> (min: u32)
        ensures
            min == self@.0,
    {
        self.min
    }

    /// The size a chunk tends towards.
    pub fn average(&self) -> (average: u32)
        ensures
            average == self@.1,
    {
        self.average
    }

    /// The largest a chunk may be.
    pub fn max(&self) -> (max: u32)
        ensures
            max == self@.2,
    {
        self.max
    }

    /// Where the chunk that begins at `start` ends.
    fn cut_from(content: &[u8], start: usize, min: usize, max: usize, mask: u64) -> (end: usize)
        requires
            start < content@.len(),
            max >= 1,
        ensures
            is_cdc_end(content@, start as int, end as int, min as int, max as int, mask),
    {
        let len = content.len();
        let limit = if len - start > max { start + max } else { len };
        let mut hash: u64 = 0;
        let mut end = limit;
        let mut position = start;
        let mut found = false;
        while position < limit && !found
            invariant
                len == content@.len(),
                start < limit <= len,
                limit == cut_limit(len as int, start as int, max as int),
                start <= position <= limit,
                hash == roll(content@, start as int, position as int),
                found ==> position > start,
                found ==> end == position && cuts_at(content@, start as int, end as int, min as int, mask),
                !found ==> end == limit,
                forall|at: int| start < at < position ==> !#[trigger] cuts_at(content@, start as int, at, min as int, mask),
                !found ==> forall|at: int| start < at <= position ==> !#[trigger] cuts_at(content@, start as int, at, min as int, mask),
            decreases limit - position,
        {
            hash = (hash << 1u64).wrapping_add(gear(content[position]));
            position = position + 1;
            if position - start >= min && hash & mask == 0 {
                end = position;
                found = true;
            }
        }
        end
    }
}

impl Chunker for Cdc {
    fn split(&self, content: &[u8]) -> (ranges: Vec<Range<usize>>)
        ensures
            is_cdc_cutting(
                content@,
                ranges@,
                cdc_bounds(self@.0, self@.2).0,
                cdc_bounds(self@.0, self@.2).1,
                mask_of(self@.1),
            ),
    {
        let len = content.len();
        let max: usize = if self.max == 0 { 1 } else { self.max as usize };
        let min: usize = if (self.min as usize) < max { self.min as usize } else { max };
        let mask = mask_for(self.average);
        let mut ranges: Vec<Range<usize>> = Vec::new();
        let mut start: usize = 0;
        while start < len
            invariant
                len == content@.len(),
                max >= 1,
                min == cdc_bounds(self@.0, self@.2).0,
                max == cdc_bounds(self@.0, self@.2).1,
                mask == mask_of(self@.1),
                start <= len,
                covers(ranges@, start as nat),
                forall|i: int|
                    0 <= i < ranges@.len() ==> is_cdc_end(
                        content@,
                        (#[trigger] ranges@[i]).start as int,
                        ranges@[i].end as int,
                        min as int,
                        max as int,
                        mask,
                    ),
            decreases len - start,
        {
            let end = Cdc::cut_from(content, start, min, max, mask);
            ranges.push(start..end);
            start = end;
        }
        ranges
    }
}

/// Whether `end` is where the first line that ends at or after `from` ends: just after the first
/// newline at or after `from`, or the end of the content if there is none.
pub open spec fn is_line_end_after(content: Seq<u8>, from: int, end: int) -> bool {
    ||| (end == content.len() && forall|i: int| from <= i < content.len() ==> content[i] != 10u8)
    ||| (from < end <= content.len() && content[end - 1] == 10u8 && forall|i: int|
        from <= i < end - 1 ==> content[i] != 10u8)
}

/// Where the first line that ends at or after `from` ends.
///
/// A line ends after its newline, and a stretch with no newline in it is one line to the end of
/// the content.
pub fn line_end_after(content: &[u8], from: usize) -> (end: usize)
    ensures
        is_line_end_after(content@, from as int, end as int),
        end <= content@.len(),
{
    let len = content.len();
    if from >= len {
        return len;
    }
    let mut at = from;
    while at < len
        invariant
            len == content@.len(),
            from <= at <= len,
            forall|i: int| from <= i < at ==> content@[i] != 10u8,
        decreases len - at,
    {
        if content[at] == 10u8 {
            return at + 1;
        }
        at = at + 1;
    }
    len
}

/// A chunker that cuts text at the ends of its lines.
///
/// The cuts are found the way `Cdc` finds them, and each is then moved on to the end of the line
/// it landed in, so what a chunk holds is whole lines. A chunk may come out up to one line longer
/// than `max` where that line would otherwise be cut in two.
#[derive(Debug, Clone, Copy, PartialEq, Eq)]
pub struct Text {
    /// The smallest a chunk may be.
    min: u32,
    /// The size a chunk tends towards.
    average: u32,
    /// The largest a chunk may be.
    max: u32,
}

impl View for Text {
    /// The smallest, the usual and the largest size of a chunk.
    type V = (u32, u32, u32);

    closed spec fn view(&self) -> (u32, u32, u32) {
        (self.min, self.average, self.max)
    }
}

/// Whether `ranges` is `cuts` moved on to the ends of lines: every cut but the last is moved to
/// the end of the line it lands in, a cut that moves no further than the one before it is
/// dropped, and what is left after the last moved cut is a chunk of its own.
pub open spec fn moved_to_line_ends(content: Seq<u8>, cuts: Seq<Range<usize>>, ranges: Seq<Range<usize>>) -> bool {
    &&& covers(ranges, content.len())
    &&& all_nonempty(ranges)
    &&& forall|i: int|
        0 <= i < ranges.len() && (#[trigger] ranges[i]).end < content.len() ==> content[ranges[i].end - 1]
            == 10u8 && exists|k: int|
            0 <= k < cuts.len() - 1 && is_line_end_after(
                content,
                #[trigger] cuts[k].end as int,
                ranges[i].end as int,
            )
}

impl Text {
    /// A chunker cutting at line ends, tending towards `average` and staying within `min` and
    /// `max`.
    pub fn new(min: u32, average: u32, max: u32) -> (chunker: Text)
        ensures
            chunker@ == (min, average, max),
    {
        Text { min, average, max }
    }

    /// The smallest a chunk may be.
    pub fn min(&self) -> (min: u32)
        ensures
            min == self@.0,
    {
        self.min
    }

    /// The size a chunk tends towards.
    pub fn average(&self) -> (average: u32)
        ensures
            average == self@.1,
    {
        self.average
    }

    /// The largest a chunk may be.
    pub fn max(&self) -> (max: u32)
        ensures
            max == self@.2,
    {
        self.max
    }
}

impl Chunker for Text {
    fn split(&self, content: &[u8]) -> (ranges: Vec<Range<usize>>)
        ensures
            exists|cuts: Seq<Range<usize>>|
                is_cdc_cutting(
                    content@,
                    cuts,
                    cdc_bounds(self@.0, self@.2).0,
                    cdc_bounds(self@.0, self@.2).1,
                    mask_of(self@.1),
                ) && moved_to_line_ends(content@, cuts, ranges@),
    {
        let cuts = Cdc::new(self.min, self.average, self.max).split(content);
        let len = content.len();
        let mut ranges: Vec<Range<usize>> = Vec::new();
        let mut at: usize = 0;
        let moved = if cuts.len() > 0 { cuts.len() - 1 } else { 0 };
        let mut k: usize = 0;
        while k < moved
            invariant
                len == content@.len(),
                moved <= cuts@.len(),
                moved == 0 || moved == cuts@.len() - 1,
                k <= moved,
                at <= len,
                covers(ranges@, at as nat),
                all_nonempty(ranges@),
                forall|i: int|
                    0 <= i < ranges@.len() && (#[trigger] ranges@[i]).end < len ==> content@[
                        ranges@[i].end - 1] == 10u8 && exists|c: int|
                        0 <= c < cuts@.len() - 1 && is_line_end_after(
                            content@,
                            #[trigger] cuts@[c].end as int,
                            ranges@[i].end as int,
                        ),
            decreases moved - k,
        {
            let end = line_end_after(content, cuts[k].end);
            if end > at {
                ranges.push(at..end);
                at = end;
            }
            k = k + 1;
        }
        if at < len {
            ranges.push(at..len);
        }
        assert(is_cdc_cutting(
            content@,
            cuts@,
            cdc_bounds(self@.0, self@.2).0,
            cdc_bounds(self@.0, self@.2).1,
            mask_of(self@.1),
        ));
        assert(moved_to_line_ends(content@, cuts@, ranges@));
        ranges
    }
}

/// How content is to be cut into chunks before it is written.
///
/// This is the choice, where [`Chunker`] is the doing: it says which cut a write will use. The
/// boundary algorithm is never recorded, since a reader reassembles from the manifest alone, so
/// adding one is adding a variant here and nothing already written changes.
#[non_exhaustive]
#[derive(Debug, Clone, Copy, PartialEq, Eq, Structural)]
pub enum Chunking {
    /// The content is not cut: it is stored as one chunk.
    Whole,
    /// The content is cut every `size` bytes.
    Fixed {
        /// How many bytes each chunk holds, bar the last.
        size: u32,
    },
    /// The content is cut where the content says so.
    Cdc {
        /// The smallest a chunk may be.
        min: u32,
        /// The size a chunk tends towards.
        average: u32,
        /// The largest a chunk may be.
        max: u32,
    },
    /// The content is cut at the ends of its lines, so that what a chunk holds is whole lines.
    Text {
        /// The smallest a chunk may be.
        min: u32,
        /// The size a chunk tends towards.
        average: u32,
        /// The largest a chunk may be.
        max: u32,
    },
    /// The content is cut at the boundaries of the members it is packed of.
    Zip,
}

impl Default for Chunking {
    /// Content is stored whole unless something says otherwise.
    fn default() -> (chunking: Chunking)
        ensures
            chunking == Chunking::Whole,
    {
        Chunking::Whole
    }
}

/// Whether `ranges` is the cutting `chunking` makes of `content`.
pub open spec fn is_cutting(chunking: Chunking, content: Seq<u8>, ranges: Seq<Range<usize>>) -> bool {
    match chunking {
        Chunking::Whole => ranges == seq![0..content.len() as usize],
        Chunking::Fixed { size } => ranges == fixed_ranges(content.len(), fixed_step(size)),
        Chunking::Cdc { min, average, max } => is_cdc_cutting(
            content,
            ranges,
            cdc_bounds(min, max).0,
            cdc_bounds(min, max).1,
            mask_of(average),
        ),
        Chunking::Text { min, average, max } => exists|cuts: Seq<Range<usize>>|
            is_cdc_cutting(
                content,
                cuts,
                cdc_bounds(min, max).0,
                cdc_bounds(min, max).1,
                mask_of(average),
            ) && moved_to_line_ends(content, cuts, ranges),
        Chunking::Zip => zip_cutting(content, ranges),
    }
}

impl Chunker for Chunking {
    fn split(&self, content: &[u8]) -> (ranges: Vec<Range<usize>>)
        ensures
            is_cutting(*self, content@, ranges@),
    {
        match *self {
            Chunking::Whole => Whole.split(content),
            Chunking::Fixed { size } => Fixed::new(size).split(content),
            Chunking::Cdc { min, average, max } => Cdc::new(min, average, max).split(content),
            Chunking::Text { min, average, max } => Text::new(min, average, max).split(content),
            Chunking::Zip => Zip.split(content),
        }
    }
}

} // verus!
