//! Cutting a packed container at the boundaries of what it packs.
//!
//! A `.docx`, a `.pptx`, a `.xlsx`, an `.odt`, a `.jar` and an `.apk` are all a ZIP of members,
//! and so is a plain `.zip`. A member the writer did not touch is the same bytes in the same order
//! it was, so cutting at member boundaries makes it a chunk the store already has. Nothing is
//! unpacked: a member is stored as the bytes it already is. What cannot be read as a container
//! this build understands is cut into one piece, which is always a correct answer.
use vstd::prelude::*;

use std::ops::Range;

use super::chunk::{covers, Chunker, Whole};

verus! {

/// How long a member's local header is, before its name and its extra field.
pub const LOCAL_HEADER: usize = 30;

/// How long a member's record in the central directory is, before its name, extra field and
/// comment.
pub const CENTRAL_HEADER: usize = 46;

/// How long the end of the central directory is, before the comment that may follow it.
pub const END_RECORD: usize = 22;

/// The signature a ZIP starts with, which is also what a member's local header starts with:
/// `PK\x03\x04`.
pub open spec fn zip_magic() -> Seq<u8> {
    seq![80u8, 75u8, 3u8, 4u8]
}

/// Whether `content` holds `magic` at `at`.
pub open spec fn holds_at(content: Seq<u8>, at: int, magic: Seq<u8>) -> bool {
    0 <= at && at + magic.len() <= content.len() && content.subrange(at, at + magic.len()) == magic
}

/// The little-endian two-byte number at `at`.
pub open spec fn le16(content: Seq<u8>, at: int) -> int {
    content[at] + 256 * content[at + 1]
}

/// The little-endian four-byte number at `at`.
pub open spec fn le32(content: Seq<u8>, at: int) -> int {
    content[at] + 256 * content[at + 1] + 65536 * content[at + 2] + 16777216 * content[at + 3]
}

/// Whether the end of the central directory starts at `at`: its signature is there, and the
/// comment it says follows it reaches exactly to the end of the content.
pub open spec fn end_record_at(content: Seq<u8>, at: int) -> bool {
    &&& 0 <= at && at + 22 <= content.len()
    &&& holds_at(content, at, seq![80u8, 75u8, 5u8, 6u8])
    &&& at + 22 + le16(content, at + 20) == content.len()
}

/// Where the central directory is, and how many members it says there are: read from the last
/// end record in the content, if there is one and it is one this build reads.
pub open spec fn directory_of(content: Seq<u8>) -> Option<(int, int)> {
    if exists|at: int| end_record_at(content, at) {
        let at = choose|at: int|
            end_record_at(content, at) && forall|later: int|
                at < later ==> !#[trigger] end_record_at(content, later);
        let count = le16(content, at + 10);
        let size = le32(content, at + 12);
        let offset = le32(content, at + 16);
        if size == u32::MAX || offset == u32::MAX || count == 65535 || offset > content.len() {
            None
        } else {
            Some((offset, count))
        }
    } else {
        None
    }
}

/// The span of member data whose local header is at `start`, `compressed` bytes of it.
pub open spec fn member_span(content: Seq<u8>, start: int, compressed: int) -> Option<(int, int)> {
    if !holds_at(content, start, zip_magic()) || start + 30 > content.len() {
        None
    } else {
        let data = start + 30 + le16(content, start + 26) + le16(content, start + 28);
        let end = data + compressed;
        if end > content.len() {
            None
        } else {
            Some((data, end))
        }
    }
}

/// The spans of the `count` members whose directory records begin at `at`, in the order the
/// directory names them.
pub open spec fn member_spans(content: Seq<u8>, at: int, count: nat) -> Option<Seq<(int, int)>>
    decreases count,
{
    if count == 0 {
        Some(Seq::empty())
    } else if at + 46 > content.len() || !holds_at(content, at, seq![80u8, 75u8, 1u8, 2u8]) {
        None
    } else {
        let compressed = le32(content, at + 20);
        let next = at + 46 + le16(content, at + 28) + le16(content, at + 30) + le16(content, at + 32);
        if compressed == u32::MAX || next > usize::MAX {
            None
        } else {
            match (member_span(content, le32(content, at + 42), compressed), member_spans(content, next, (count - 1) as nat)) {
                (Some(span), Some(rest)) => Some(seq![span] + rest),
                _ => None,
            }
        }
    }
}

/// Whether `a` comes no later than `b`: by where they start, then where they end.
pub open spec fn span_le(a: (int, int), b: (int, int)) -> bool {
    a.0 < b.0 || (a.0 == b.0 && a.1 <= b.1)
}

/// Whether `spans` are in order.
pub open spec fn spans_sorted(spans: Seq<(int, int)>) -> bool {
    forall|i: int, j: int| 0 <= i < j < spans.len() ==> span_le(spans[i], spans[j])
}

/// The ranges spans are turned into, given what has been covered up to `at`: what lies before a
/// span is a range of its own, and so is the span, and what is left after the last is one more.
pub open spec fn ranges_from(len: int, spans: Seq<(int, int)>, at: int) -> Seq<Range<usize>>
    decreases spans.len(),
{
    if spans.len() == 0 {
        if at < len { seq![(at as usize)..(len as usize)] } else { Seq::empty() }
    } else {
        let start = if spans[0].0 > at { spans[0].0 } else { at };
        let high = if spans[0].1 > start { spans[0].1 } else { start };
        let end = if high < len { high } else { len };
        let gap: Seq<Range<usize>> = if start > at { seq![(at as usize)..(start as usize)] } else { Seq::empty() };
        let member: Seq<Range<usize>> = if end > start { seq![(start as usize)..(end as usize)] } else { Seq::empty() };
        gap + member + ranges_from(len, spans.drop_first(), end)
    }
}

/// The cutting of a container: at its members if it reads as one, and whole if it does not.
pub open spec fn zip_cutting(content: Seq<u8>, ranges: Seq<Range<usize>>) -> bool {
    match directory_of(content) {
        Some((offset, count)) => match member_spans(content, offset, count as nat) {
            Some(spans) => exists|sorted: Seq<(int, int)>|
                sorted.to_multiset() == spans.to_multiset() && spans_sorted(sorted) && ranges
                    == ranges_from(content.len() as int, sorted, 0),
            None => ranges == seq![0..content.len() as usize],
        },
        None => ranges == seq![0..content.len() as usize],
    }
}

/// Spans as the numbers they stand for.
pub open spec fn as_ints(spans: Seq<(usize, usize)>) -> Seq<(int, int)> {
    spans.map_values(|span: (usize, usize)| (span.0 as int, span.1 as int))
}

/// Whether `ranges` run from `from` to `to` one after another, each holding at least one byte.
pub open spec fn chains(ranges: Seq<Range<usize>>, from: int, to: int) -> bool {
    &&& ranges.len() == 0 ==> from == to
    &&& ranges.len() > 0 ==> ranges[0].start == from && ranges.last().end == to
    &&& forall|i: int| 0 <= i < ranges.len() ==> (#[trigger] ranges[i]).start < ranges[i].end
    &&& forall|i: int|
        0 <= i < ranges.len() - 1 ==> #[trigger] ranges[i].end == ranges[i + 1].start
}

/// Ranges that run from `from` to `mid`, followed by ranges that run from `mid` to `to`, run from
/// `from` to `to`.
proof fn lemma_chains_join(front: Seq<Range<usize>>, back: Seq<Range<usize>>, from: int, mid: int, to: int)
    requires
        chains(front, from, mid),
        chains(back, mid, to),
    ensures
        chains(front + back, from, to),
{
    let all = front + back;
    assert forall|i: int| 0 <= i < all.len() - 1 implies #[trigger] all[i].end == all[i + 1].start by {
        if i < front.len() - 1 {
            assert(all[i] == front[i] && all[i + 1] == front[i + 1]);
        } else if i == front.len() - 1 {
            assert(all[i] == front[i] && all[i + 1] == back[0]);
        } else {
            assert(all[i] == back[i - front.len()] && all[i + 1] == back[i + 1 - front.len()]);
        }
    }
    assert forall|i: int| 0 <= i < all.len() implies (#[trigger] all[i]).start < all[i].end by {
        if i < front.len() {
            assert(all[i] == front[i]);
        } else {
            assert(all[i] == back[i - front.len()]);
        }
    }
    if front.len() == 0 {
        assert(all =~= back);
    } else if back.len() > 0 {
        assert(all.last() == back.last());
    } else {
        assert(all =~= front);
    }
}

/// Spans that lie within the content turn into ranges that run from `at` to the end of it.
proof fn lemma_ranges_from_chain(len: int, spans: Seq<(int, int)>, at: int)
    requires
        0 <= at <= len <= usize::MAX,
        forall|i: int| 0 <= i < spans.len() ==> 0 <= (#[trigger] spans[i]).0 <= spans[i].1 <= len,
    ensures
        chains(ranges_from(len, spans, at), at, len),
    decreases spans.len(),
{
    if spans.len() > 0 {
        let start = if spans[0].0 > at { spans[0].0 } else { at };
        let high = if spans[0].1 > start { spans[0].1 } else { start };
        let end = if high < len { high } else { len };
        let rest = spans.drop_first();
        assert forall|i: int| 0 <= i < rest.len() implies 0 <= (#[trigger] rest[i]).0 <= rest[i].1
            <= len by {
            assert(rest[i] == spans[i + 1]);
        }
        lemma_ranges_from_chain(len, rest, end);
        let gap: Seq<Range<usize>> = if start > at { seq![(at as usize)..(start as usize)] } else { Seq::empty() };
        let member: Seq<Range<usize>> = if end > start { seq![(start as usize)..(end as usize)] } else { Seq::empty() };
        let tail = ranges_from(len, rest, end);
        assert(chains(gap, at, start));
        assert(chains(member, start, end));
        lemma_chains_join(gap, member, at, start, end);
        lemma_chains_join(gap + member, tail, at, end, len);
    }
}

/// The little-endian two-byte number at `at`.
fn read_le16(content: &[u8], at: usize) -> (value: usize)
    requires
        at + 2 <= content@.len(),
    ensures
        value == le16(content@, at as int),
        value <= 65535,
{
    content[at] as usize + 256 * (content[at + 1] as usize)
}

/// The little-endian four-byte number at `at`.
fn read_le32(content: &[u8], at: usize) -> (value: u64)
    requires
        at + 4 <= content@.len(),
    ensures
        value == le32(content@, at as int),
        value <= u32::MAX,
{
    content[at] as u64 + 256 * (content[at + 1] as u64) + 65536 * (content[at + 2] as u64)
        + 16777216 * (content[at + 3] as u64)
}

/// Whether the four bytes at `at` are `a`, `b`, `c` and `d`.
fn four_at(content: &[u8], at: usize, a: u8, b: u8, c: u8, d: u8) -> (found: bool)
    requires
        at + 4 <= content@.len(),
    ensures
        found == holds_at(content@, at as int, seq![a, b, c, d]),
{
    let found = content[at] == a && content[at + 1] == b && content[at + 2] == c && content[at + 3] == d;
    proof {
        let window = content@.subrange(at as int, at + 4);
        if found {
            assert(window =~= seq![a, b, c, d]);
        } else if window == seq![a, b, c, d] {
            assert(window[0] == content@[at as int]);
            assert(window[1] == content@[at + 1]);
            assert(window[2] == content@[at + 2]);
            assert(window[3] == content@[at + 3]);
        }
    }
    found
}

/// Where the central directory is, and how many members it says there are.
///
/// The end of the central directory is the last thing a container holds but for its comment, so
/// the search starts at the end and walks back: a member's data may hold these very bytes. A
/// number left as all ones is a `zip64` record's to say, which this build does not read, and nor
/// does it read a directory that claims to sit outside the content.
fn directory(content: &[u8]) -> (found: Option<(usize, usize)>)
    ensures
        found matches Some((offset, count)) ==> directory_of(content@) == Some((offset as int, count as int)),
        found is None ==> directory_of(content@) is None,
{
    let len = content.len();
    if len < END_RECORD {
        proof {
            assert(!exists|at: int| end_record_at(content@, at));
        }
        return None;
    }
    let latest = len - END_RECORD;
    let earliest = if latest > 65535 { latest - 65535 } else { 0 };
    let mut next = latest + 1;
    while next > earliest
        invariant
            len == content@.len(),
            len >= 22,
            latest == len - 22,
            earliest <= next <= latest + 1,
            earliest == (if latest > 65535 { latest - 65535 } else { 0 }),
            forall|later: int| next <= later ==> !#[trigger] end_record_at(content@, later),
        decreases next,
    {
        let at = next - 1;
        if four_at(content, at, 80u8, 75u8, 5u8, 6u8) {
            let comment = read_le16(content, at + 20);
            if comment == len - at - END_RECORD {
                assert(end_record_at(content@, at as int));
                let count = read_le16(content, at + 10);
                let size = read_le32(content, at + 12);
                let offset = read_le32(content, at + 16);
                proof {
                    let chosen = choose|c: int|
                        end_record_at(content@, c) && forall|later: int|
                            c < later ==> !#[trigger] end_record_at(content@, later);
                    assert(end_record_at(content@, at as int) && forall|later: int|
                        at < later ==> !#[trigger] end_record_at(content@, later));
                    assert(chosen == at);
                }
                if size == 0xFFFF_FFFFu64 || offset == 0xFFFF_FFFFu64 || count == 65535 || offset
                    > len as u64 {
                    return None;
                }
                return Some((offset as usize, count));
            }
        }
        next = at;
    }
    proof {
        assert forall|a: int| !end_record_at(content@, a) by {
            if end_record_at(content@, a) {
                assert(a >= earliest);
            }
        }
    }
    None
}

/// The span the member whose local header is at `start` takes up: its data, not its header.
///
/// A header carries the time it was written and where it sits, which a writer may change
/// without the content changing, so what is cut out is the member's data, and the headers fall
/// between the members as ranges of their own.
fn span(content: &[u8], start: u64, compressed: u64) -> (found: Option<(usize, usize)>)
    requires
        start <= u32::MAX,
        compressed <= u32::MAX,
    ensures
        found matches Some((data, end)) ==> member_span(content@, start as int, compressed as int)
            == Some((data as int, end as int)),
        found is None ==> member_span(content@, start as int, compressed as int) is None,
{
    let len = content.len() as u64;
    if start + 30 > len || !four_at(content, start as usize, 80u8, 75u8, 3u8, 4u8) {
        return None;
    }
    let at = start as usize;
    let name = read_le16(content, at + 26) as u64;
    let extra = read_le16(content, at + 28) as u64;
    let data = start + 30 + name + extra;
    let end = data + compressed;
    if end > len {
        return None;
    }
    Some((data as usize, end as usize))
}

/// Joins what has been read so far to what is left to read.
pub open spec fn joined(front: Seq<(int, int)>, rest: Option<Seq<(int, int)>>) -> Option<Seq<(int, int)>> {
    match rest {
        Some(tail) => Some(front + tail),
        None => None,
    }
}

/// The span each member takes up, in the order the directory names them.
fn members(content: &[u8], directory: usize, count: usize) -> (found: Option<Vec<(usize, usize)>>)
    requires
        directory <= content@.len(),
    ensures
        found matches Some(spans) ==> member_spans(content@, directory as int, count as nat) == Some(as_ints(spans@)),
        found is None ==> member_spans(content@, directory as int, count as nat) is None,
{
    let len = content.len();
    let mut spans: Vec<(usize, usize)> = Vec::new();
    let mut at: usize = directory;
    let mut i: usize = 0;
    while i < count
        invariant
            len == content@.len(),
            i <= count,
            member_spans(content@, directory as int, count as nat) == joined(
                as_ints(spans@),
                member_spans(content@, at as int, (count - i) as nat),
            ),
        decreases count - i,
    {
        if len < CENTRAL_HEADER || at > len - CENTRAL_HEADER {
            return None;
        }
        if !four_at(content, at, 80u8, 75u8, 1u8, 2u8) {
            return None;
        }
        let compressed = read_le32(content, at + 20);
        let name = read_le16(content, at + 28);
        let extra = read_le16(content, at + 30);
        let comment = read_le16(content, at + 32);
        let local = read_le32(content, at + 42);
        if compressed == 0xFFFF_FFFFu64 {
            return None;
        }
        let found = span(content, local, compressed);
        let step = CENTRAL_HEADER + name + extra + comment;
        let ghost rest = member_spans(content@, (at + step) as int, (count - i - 1) as nat);
        match found {
            None => {
                return None;
            },
            Some(member) => {
                if at > usize::MAX - step {
                    return None;
                }
                let ghost before = as_ints(spans@);
                spans.push(member);
                at = at + step;
                i = i + 1;
                proof {
                    assert(as_ints(spans@) =~= before + seq![(member.0 as int, member.1 as int)]);
                    match rest {
                        Some(tail) => {
                            assert(before + (seq![(member.0 as int, member.1 as int)] + tail) =~= as_ints(spans@) + tail);
                        },
                        None => {},
                    }
                }
            },
        }
    }
    proof {
        assert(member_spans(content@, at as int, 0) == Some(Seq::<(int, int)>::empty()));
        assert(as_ints(spans@) + Seq::<(int, int)>::empty() =~= as_ints(spans@));
    }
    Some(spans)
}

/// Whether the span `a` comes no later than `b`.
fn span_before(a: (usize, usize), b: (usize, usize)) -> (before: bool)
    ensures
        before == span_le((a.0 as int, a.1 as int), (b.0 as int, b.1 as int)),
{
    a.0 < b.0 || (a.0 == b.0 && a.1 <= b.1)
}

/// The spans put in order, by where they start and then where they end.
///
/// The directory may name members in an order other than the one they sit in.
fn sort_spans(spans: &Vec<(usize, usize)>) -> (sorted: Vec<(usize, usize)>)
    ensures
        as_ints(sorted@).to_multiset() == as_ints(spans@).to_multiset(),
        spans_sorted(as_ints(sorted@)),
{
    let mut sorted: Vec<(usize, usize)> = Vec::new();
    let mut k: usize = 0;
    proof {
        assert(as_ints(sorted@) =~= as_ints(spans@.take(0)));
    }
    while k < spans.len()
        invariant
            k <= spans.len(),
            as_ints(sorted@).to_multiset() == as_ints(spans@.take(k as int)).to_multiset(),
            spans_sorted(as_ints(sorted@)),
        decreases spans.len() - k,
    {
        let x = spans[k];
        let ghost xi = (x.0 as int, x.1 as int);
        let n = sorted.len();
        let mut i: usize = 0;
        loop
            invariant
                i <= n,
                n == sorted.len(),
                xi == (x.0 as int, x.1 as int),
                forall|j: int| 0 <= j < i ==> span_le(#[trigger] as_ints(sorted@)[j], xi),
            ensures
                i <= n,
                forall|j: int| 0 <= j < i ==> span_le(#[trigger] as_ints(sorted@)[j], xi),
                i < n ==> !span_le(as_ints(sorted@)[i as int], xi),
            decreases n - i,
        {
            if i == n {
                break;
            }
            let here = sorted[i];
            assert(as_ints(sorted@)[i as int] == (here.0 as int, here.1 as int));
            if !span_before(here, x) {
                break;
            }
            i = i + 1;
        }
        let ghost before = as_ints(sorted@);
        sorted.insert(i, x);
        proof {
            let after = as_ints(sorted@);
            assert(after =~= before.insert(i as int, xi));
            vstd::seq_lib::to_multiset_insert(before, i as int, xi);
            assert(spans@.take(k + 1) =~= spans@.take(k as int).push(x));
            assert(as_ints(spans@.take(k + 1)) =~= as_ints(spans@.take(k as int)).push(xi));
            vstd::seq_lib::to_multiset_build(as_ints(spans@.take(k as int)), xi);
            assert forall|a: int, b: int| 0 <= a < b < after.len() implies span_le(
                after[a],
                after[b],
            ) by {
                if b < i {
                } else if b == i {
                } else if a < i {
                    assert(span_le(before[a], xi));
                    if i < n {
                        assert(span_le(before[i as int], before[b - 1]));
                    }
                } else if a == i {
                    assert(span_le(before[i as int], before[b - 1]));
                } else {
                    assert(span_le(before[a - 1], before[b - 1]));
                }
            }
        }
        k = k + 1;
    }
    proof {
        assert(spans@.take(spans@.len() as int) =~= spans@);
    }
    sorted
}

/// The spans turned into ranges that cover `len` exactly and in order.
///
/// A container may hold bytes belonging to no member: a descriptor between one member and the
/// next, or whatever a writer left behind. What belongs to no member is a range of its own, so
/// that what comes back out is always all of what went in.
fn ranges(len: usize, spans: &Vec<(usize, usize)>) -> (cut: Vec<Range<usize>>)
    ensures
        cut@ == ranges_from(len as int, as_ints(spans@), 0),
{
    let mut cut: Vec<Range<usize>> = Vec::new();
    let mut at: usize = 0;
    let mut k: usize = 0;
    proof {
        assert(as_ints(spans@).skip(0) =~= as_ints(spans@));
        assert(cut@ + ranges_from(len as int, as_ints(spans@), 0) =~= ranges_from(
            len as int,
            as_ints(spans@),
            0,
        ));
    }
    while k < spans.len()
        invariant
            k <= spans.len(),
            at <= len,
            cut@ + ranges_from(len as int, as_ints(spans@).skip(k as int), at as int)
                == ranges_from(len as int, as_ints(spans@), 0),
        decreases spans.len() - k,
    {
        let (first, last) = spans[k];
        let start = if first > at { first } else { at };
        let high = if last > start { last } else { start };
        let end = if high < len { high } else { len };
        let ghost rest = as_ints(spans@).skip(k as int);
        let ghost before = cut@;
        proof {
            assert(rest[0] == (first as int, last as int));
            assert(rest.drop_first() =~= as_ints(spans@).skip(k + 1));
        }
        if start > at {
            cut.push(at..start);
        }
        if end > start {
            cut.push(start..end);
        }
        proof {
            let gap: Seq<Range<usize>> = if start > at { seq![at..start] } else { Seq::empty() };
            let member: Seq<Range<usize>> = if end > start { seq![start..end] } else { Seq::empty() };
            assert(cut@ =~= before + gap + member);
            assert(ranges_from(len as int, rest, at as int) == gap + member + ranges_from(
                len as int,
                rest.drop_first(),
                end as int,
            ));
            assert(before + (gap + member + ranges_from(len as int, rest.drop_first(), end as int))
                =~= cut@ + ranges_from(len as int, rest.drop_first(), end as int));
        }
        at = end;
        k = k + 1;
    }
    let ghost before = cut@;
    if at < len {
        cut.push(at..len);
    }
    proof {
        assert(as_ints(spans@).skip(k as int).len() == 0);
        if at < len {
            assert(cut@ =~= before + seq![at..len]);
        } else {
            assert(cut@ =~= before + Seq::<Range<usize>>::empty());
        }
    }
    cut
}

/// What the spans of members that lie within `len` bytes are: each starts no later than it ends,
/// and ends within the content.
pub open spec fn spans_within(spans: Seq<(int, int)>, len: int) -> bool {
    forall|i: int| 0 <= i < spans.len() ==> 0 <= (#[trigger] spans[i]).0 <= spans[i].1 <= len
}

/// The members a directory names lie within the content.
proof fn lemma_member_spans_within(content: Seq<u8>, at: int, count: nat)
    requires
        member_spans(content, at, count) is Some,
    ensures
        spans_within(member_spans(content, at, count)->0, content.len() as int),
    decreases count,
{
    if count > 0 {
        let next = at + 46 + le16(content, at + 28) + le16(content, at + 30) + le16(content, at + 32);
        lemma_member_spans_within(content, next, (count - 1) as nat);
        let all = member_spans(content, at, count)->0;
        let rest = member_spans(content, next, (count - 1) as nat)->0;
        assert forall|i: int| 0 <= i < all.len() implies 0 <= (#[trigger] all[i]).0 <= all[i].1
            <= content.len() by {
            if i > 0 {
                assert(all[i] == rest[i - 1]);
            }
        }
    }
}

/// The ranges a packed container is cut into, or `None` when it does not read as one.
fn packed(content: &[u8]) -> (found: Option<Vec<Range<usize>>>)
    ensures
        found matches Some(cut) ==> zip_cutting(content@, cut@) && chains(cut@, 0, content@.len() as int),
        found is None ==> zip_cutting(content@, seq![0..content@.len() as usize]),
{
    let (offset, count) = match directory(content) {
        Some(found) => found,
        None => {
            return None;
        },
    };
    let spans = match members(content, offset, count) {
        Some(spans) => spans,
        None => {
            return None;
        },
    };
    let sorted = sort_spans(&spans);
    let cut = ranges(content.len(), &sorted);
    proof {
        let len = content@.len() as int;
        let all = as_ints(spans@);
        let order = as_ints(sorted@);
        lemma_member_spans_within(content@, offset as int, count as nat);
        assert forall|i: int| 0 <= i < order.len() implies 0 <= (#[trigger] order[i]).0 <= order[i].1
            <= len by {
            vstd::seq_lib::to_multiset_contains(order, order[i]);
            vstd::seq_lib::to_multiset_contains(all, order[i]);
            assert(order.contains(order[i]));
            let j = choose|j: int| 0 <= j < all.len() && all[j] == order[i];
            assert(all[j] == order[i]);
        }
        lemma_ranges_from_chain(len, order, 0);
    }
    Some(cut)
}

/// A chunker that cuts a packed container at the boundaries of what it packs.
///
/// It reads the central directory, which is written for the sake of being read, and takes each
/// member's data as a range of its own. What lies between members (their headers) and what
/// follows the last (the central directory and its end record) are ranges too. Content that does
/// not read as a container this build can take apart is cut into one piece rather than refused.
#[derive(Debug, Clone, Copy, Default)]
pub struct Zip;

impl Chunker for Zip {
    fn split(&self, content: &[u8]) -> (cut: Vec<Range<usize>>)
        ensures
            zip_cutting(content@, cut@),
    {
        match packed(content) {
            Some(cut) => cut,
            None => Whole.split(content),
        }
    }
}

} // verus!
