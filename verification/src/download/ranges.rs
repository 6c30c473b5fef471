//! The byte ranges of a file and how far each has been received.
use crate::error::{message_error, AppResult};
use vstd::prelude::*;

verus! {

/// A byte range `start..=end` of a file, received up to but not including `next`.
#[derive(Clone, Copy, Debug, PartialEq, Eq, Structural)]
pub struct RangeProgress {
    pub start: u64,
    pub next: u64,
    pub end: u64,
}

impl RangeProgress {
    /// The range holds a byte, and `next` lies in it or directly after it.
    pub open spec fn well_formed(self) -> bool {
        &&& self.start <= self.end
        &&& self.start <= self.next <= self.end + 1
    }

    /// Bytes of the range that are still missing.
    pub open spec fn missing(self) -> nat {
        if self.next <= self.end {
            (self.end + 1 - self.next) as nat
        } else {
            0
        }
    }

    /// Whether byte `offset` of the file is still missing in this range.
    pub open spec fn lacks(self, offset: int) -> bool {
        self.next <= offset <= self.end
    }
}

/// The ranges are well formed and follow one another without gap or overlap from
/// `from` up to but not including `to`.
pub open spec fn tile(from: int, to: int, ranges: Seq<RangeProgress>) -> bool
    decreases ranges.len(),
{
    if ranges.len() == 0 {
        from == to
    } else {
        &&& ranges.last().well_formed()
        &&& ranges.last().end + 1 == to
        &&& tile(from, ranges.last().start as int, ranges.drop_last())
    }
}

/// The ranges divide a file of `size` bytes.
pub open spec fn valid_ranges(size: u64, ranges: Seq<RangeProgress>) -> bool {
    tile(0, size as int, ranges)
}

/// How many bytes the ranges have received.
pub open spec fn received(ranges: Seq<RangeProgress>) -> int
    decreases ranges.len(),
{
    if ranges.len() == 0 {
        0
    } else {
        received(ranges.drop_last()) + (ranges.last().next - ranges.last().start)
    }
}

/// How many bytes the ranges still miss.
pub open spec fn missing(ranges: Seq<RangeProgress>) -> nat
    decreases ranges.len(),
{
    if ranges.len() == 0 {
        0
    } else {
        missing(ranges.drop_last()) + ranges.last().missing()
    }
}

/// How many of the ranges still miss bytes.
pub open spec fn unfinished(ranges: Seq<RangeProgress>) -> nat
    decreases ranges.len(),
{
    if ranges.len() == 0 {
        0
    } else {
        unfinished(ranges.drop_last()) + if ranges.last().missing() > 0 {
            1nat
        } else {
            0nat
        }
    }
}

/// Whether byte `offset` of the file is still missing.
pub open spec fn lacks(ranges: Seq<RangeProgress>, offset: int) -> bool {
    exists|i: int| 0 <= i < ranges.len() && (#[trigger] ranges[i]).lacks(offset)
}

/// The first `i` ranges of a tiling tile what lies before range `i`.
proof fn lemma_tile_prefix(from: int, to: int, ranges: Seq<RangeProgress>, i: int)
    requires
        tile(from, to, ranges),
        0 <= i < ranges.len(),
    ensures
        tile(from, ranges[i].start as int, ranges.take(i)),
        ranges[i].well_formed(),
        from <= ranges[i].start,
        ranges[i].end < to,
    decreases ranges.len(),
{
    let front = ranges.drop_last();
    if i == ranges.len() - 1 {
        assert(ranges.take(i) =~= front);
        lemma_tile_forward(from, ranges[i].start as int, front);
    } else {
        lemma_tile_prefix(from, ranges.last().start as int, front, i);
        assert(front.take(i) =~= ranges.take(i));
    }
}

/// A tiling never goes back.
proof fn lemma_tile_forward(from: int, to: int, ranges: Seq<RangeProgress>)
    requires
        tile(from, to, ranges),
    ensures
        from <= to,
        ranges.len() > 0 ==> from < to,
    decreases ranges.len(),
{
    if ranges.len() > 0 {
        lemma_tile_forward(from, ranges.last().start as int, ranges.drop_last());
    }
}

/// One start leaves room for one end only.
proof fn lemma_tile_end(from: int, to: int, other: int, ranges: Seq<RangeProgress>)
    requires
        tile(from, to, ranges),
        tile(from, other, ranges),
    ensures
        to == other,
{
}

/// A tiling continued by a range that starts where it ends.
proof fn lemma_tile_push(from: int, to: int, ranges: Seq<RangeProgress>, range: RangeProgress)
    requires
        tile(from, to, ranges),
        range.well_formed(),
        range.start == to,
    ensures
        tile(from, range.end + 1, ranges.push(range)),
{
    assert(ranges.push(range).drop_last() =~= ranges);
}

/// Whether the ranges divide a file of `size` bytes.
pub fn ranges_are_valid(size: u64, ranges: &Vec<RangeProgress>) -> (res: bool)
    ensures
        res == valid_ranges(size, ranges@),
{
    let mut expected_start: u64 = 0;
    let mut i: usize = 0;
    while i < ranges.len()
        invariant
            i <= ranges@.len(),
            tile(0, expected_start as int, ranges@.take(i as int)),
            expected_start <= size,
        decreases ranges@.len() - i,
    {
        let range = ranges[i];
        if range.start != expected_start || range.start > range.end || range.end >= size
            || range.next < range.start || range.next > range.end + 1 {
            proof {
                if valid_ranges(size, ranges@) {
                    lemma_tile_prefix(0, size as int, ranges@, i as int);
                    lemma_tile_end(
                        0,
                        expected_start as int,
                        range.start as int,
                        ranges@.take(i as int),
                    );
                }
            }
            return false;
        }
        proof {
            lemma_tile_push(0, expected_start as int, ranges@.take(i as int), range);
            assert(ranges@.take(i as int).push(range) =~= ranges@.take(i + 1));
        }
        expected_start = range.end + 1;
        i = i + 1;
    }
    proof {
        assert(ranges@.take(i as int) =~= ranges@);
        if valid_ranges(size, ranges@) {
            lemma_tile_end(0, expected_start as int, size as int, ranges@);
        }
    }
    expected_start == size
}


/// Whether every range has been received.
pub open spec fn complete(ranges: Seq<RangeProgress>) -> bool {
    forall|i: int| 0 <= i < ranges.len() ==> (#[trigger] ranges[i]).next == ranges[i].end + 1
}

pub fn ranges_are_complete(ranges: &Vec<RangeProgress>) -> (res: bool)
    ensures
        res == complete(ranges@),
{
    let mut i: usize = 0;
    while i < ranges.len()
        invariant
            i <= ranges@.len(),
            forall|k: int| 0 <= k < i ==> (#[trigger] ranges@[k]).next == ranges@[k].end + 1,
        decreases ranges@.len() - i,
    {
        let range = ranges[i];
        let done = match range.end.checked_add(1) {
            Some(after_end) => range.next == after_end,
            None => false,
        };
        if !done {
            proof {
                assert(ranges@[i as int].next != ranges@[i as int].end + 1);
            }
            return false;
        }
        i = i + 1;
    }
    true
}

/// The bytes that the ranges have received, counted from the left: a range that
/// starts after its next offset or a sum beyond 64 bits ends the count.
pub open spec fn count_received(ranges: Seq<RangeProgress>) -> Result<nat, Seq<char>>
    decreases ranges.len(),
{
    if ranges.len() == 0 {
        Ok(0)
    } else {
        match count_received(ranges.drop_last()) {
            Err(message) => Err(message),
            Ok(total) => if ranges.last().next < ranges.last().start {
                Err("resume range starts after its next offset"@)
            } else if total + (ranges.last().next - ranges.last().start) > u64::MAX {
                Err("resume byte count exceeds u64"@)
            } else {
                Ok((total + (ranges.last().next - ranges.last().start)) as nat)
            },
        }
    }
}

/// A failed count of the first ranges decides the count of all.
proof fn lemma_count_received_error(ranges: Seq<RangeProgress>, n: int)
    requires
        0 <= n <= ranges.len(),
        count_received(ranges.take(n)) is Err,
    ensures
        count_received(ranges) == count_received(ranges.take(n)),
    decreases ranges.len(),
{
    if n == ranges.len() {
        assert(ranges.take(n) =~= ranges);
    } else {
        assert(ranges.drop_last().take(n) =~= ranges.take(n));
        lemma_count_received_error(ranges.drop_last(), n);
    }
}

/// The bytes that the ranges have received.
pub fn received_bytes(ranges: &Vec<RangeProgress>) -> (res: AppResult<u64>)
    ensures
        match res {
            Ok(total) => count_received(ranges@) == Ok::<nat, Seq<char>>(total as nat),
            Err(error) => error@ is Message && count_received(ranges@) == Err::<nat, Seq<char>>(
                error@->Message_0,
            ),
        },
{
    let mut total: u64 = 0;
    let mut i: usize = 0;
    while i < ranges.len()
        invariant
            i <= ranges@.len(),
            count_received(ranges@.take(i as int)) == Ok::<nat, Seq<char>>(total as nat),
        decreases ranges@.len() - i,
    {
        let range = ranges[i];
        proof {
            assert(ranges@.take(i + 1).drop_last() =~= ranges@.take(i as int));
            assert(ranges@.take(i + 1).last() == range);
        }
        if range.next < range.start {
            proof {
                lemma_count_received_error(ranges@, i + 1);
            }
            return Err(message_error("resume range starts after its next offset"));
        }
        match total.checked_add(range.next - range.start) {
            Some(sum) => {
                total = sum;
            },
            None => {
                proof {
                    lemma_count_received_error(ranges@, i + 1);
                }
                return Err(message_error("resume byte count exceeds u64"));
            },
        }
        i = i + 1;
    }
    proof {
        assert(ranges@.take(i as int) =~= ranges@);
    }
    Ok(total)
}

/// In a tiling every byte has either been received or is missing.
pub proof fn lemma_received_and_missing(from: int, to: int, ranges: Seq<RangeProgress>)
    requires
        tile(from, to, ranges),
    ensures
        0 <= received(ranges),
        received(ranges) + missing(ranges) == to - from,
        complete(ranges) <==> received(ranges) == to - from,
    decreases ranges.len(),
{
    if ranges.len() > 0 {
        let front = ranges.drop_last();
        let last = ranges.last();
        lemma_received_and_missing(from, last.start as int, front);
        if complete(ranges) {
            assert forall|i: int| 0 <= i < front.len() implies (#[trigger] front[i]).next
                == front[i].end + 1 by {
                assert(front[i] == ranges[i]);
            }
            assert(ranges[ranges.len() - 1].next == ranges[ranges.len() - 1].end + 1);
        }
        if received(ranges) == to - from {
            assert(received(front) == last.start - from);
            assert forall|i: int| 0 <= i < ranges.len() implies (#[trigger] ranges[i]).next
                == ranges[i].end + 1 by {
                if i < front.len() {
                    assert(front[i] == ranges[i]);
                }
            }
        }
    }
}

/// The count of a valid division never fails: it is the number of received bytes.
pub proof fn lemma_valid_ranges_are_counted(size: u64, ranges: Seq<RangeProgress>)
    requires
        valid_ranges(size, ranges),
    ensures
        count_received(ranges) == Ok::<nat, Seq<char>>(received(ranges) as nat),
        0 <= received(ranges) <= size,
        received(ranges) + missing(ranges) == size,
        complete(ranges) <==> received(ranges) == size,
{
    lemma_received_and_missing(0, size as int, ranges);
    lemma_tiling_is_counted(0, size as int, ranges);
}

proof fn lemma_tiling_is_counted(from: int, to: int, ranges: Seq<RangeProgress>)
    requires
        tile(from, to, ranges),
        0 <= from,
        to <= u64::MAX,
    ensures
        count_received(ranges) == Ok::<nat, Seq<char>>(received(ranges) as nat),
    decreases ranges.len(),
{
    lemma_received_and_missing(from, to, ranges);
    if ranges.len() > 0 {
        lemma_received_and_missing(from, ranges.last().start as int, ranges.drop_last());
        lemma_tiling_is_counted(from, ranges.last().start as int, ranges.drop_last());
    }
}

// ---------------------------------------------------------------------------
// Dividing an interval
// ---------------------------------------------------------------------------

/// Where part `i` starts when `length` bytes from `start` are divided into
/// `parts` parts, the first ones a byte longer when they cannot all be equal.
pub open spec fn part_start(start: int, length: int, parts: int, i: int) -> int {
    start + i * (length / parts) + if i < length % parts {
        i
    } else {
        length % parts
    }
}

/// Part `i` of such a division, of which nothing has been received.
pub open spec fn even_part(start: int, length: int, parts: int, i: int) -> RangeProgress {
    RangeProgress {
        start: part_start(start, length, parts, i) as u64,
        next: part_start(start, length, parts, i) as u64,
        end: (part_start(start, length, parts, i + 1) - 1) as u64,
    }
}

/// `length` bytes from `start` in `parts` parts whose lengths differ by at most one.
pub open spec fn even_parts(start: int, length: int, parts: int) -> Seq<RangeProgress> {
    Seq::new(parts as nat, |i: int| even_part(start, length, parts, i))
}

/// Part `i` is `length / parts` bytes long, or one byte more.
proof fn lemma_part_length(start: int, length: int, parts: int, i: int)
    requires
        0 < parts <= length,
        0 <= i < parts,
    ensures
        part_start(start, length, parts, i + 1) - part_start(start, length, parts, i) == length
            / parts + if i < length % parts {
            1int
        } else {
            0int
        },
        length / parts >= 1,
        part_start(start, length, parts, 0) == start,
        part_start(start, length, parts, parts) == start + length,
        start <= part_start(start, length, parts, i),
        part_start(start, length, parts, i + 1) <= start + length,
{
    let base = length / parts;
    let longer = length % parts;
    assert((i + 1) * base == i * base + base) by (nonlinear_arith);
    assert(0 * base == 0) by (nonlinear_arith);
    assert(length == parts * base + longer && 0 <= longer < parts && base >= 1) by (nonlinear_arith)
        requires
            0 < parts <= length,
            base == length / parts,
            longer == length % parts,
    ;
    assert(0 <= i * base) by (nonlinear_arith)
        requires
            0 <= i,
            base >= 1,
    ;
    assert((i + 1) * base <= parts * base) by (nonlinear_arith)
        requires
            i + 1 <= parts,
            base >= 1,
    ;
}

/// The parts tile the interval that they divide, and nothing of them has been
/// received.
pub proof fn lemma_even_parts(start: int, length: int, parts: int)
    requires
        0 <= start,
        0 < parts <= length,
        start + length <= u64::MAX,
    ensures
        tile(start, start + length, even_parts(start, length, parts)),
        untouched(even_parts(start, length, parts)),
{
    lemma_even_parts_prefix(start, length, parts, parts);
    assert(even_parts(start, length, parts).take(parts) =~= even_parts(start, length, parts));
    lemma_part_length(start, length, parts, 0);
    assert forall|i: int| 0 <= i < parts implies (#[trigger] even_parts(
        start,
        length,
        parts,
    )[i]).next == even_parts(start, length, parts)[i].start by {}
}

proof fn lemma_even_parts_prefix(start: int, length: int, parts: int, n: int)
    requires
        0 <= start,
        0 < parts <= length,
        0 <= n <= parts,
        start + length <= u64::MAX,
    ensures
        tile(
            start,
            part_start(start, length, parts, n),
            even_parts(start, length, parts).take(n),
        ),
    decreases n,
{
    let all = even_parts(start, length, parts);
    if n == 0 {
        lemma_part_length(start, length, parts, 0);
        assert(all.take(0).len() == 0);
    } else {
        lemma_even_parts_prefix(start, length, parts, n - 1);
        lemma_part_length(start, length, parts, n - 1);
        lemma_tile_push(
            start,
            part_start(start, length, parts, n - 1),
            all.take(n - 1),
            all[n - 1],
        );
        assert(all.take(n - 1).push(all[n - 1]) =~= all.take(n));
    }
}

/// The lengths of any two parts differ by at most one byte.
pub proof fn lemma_even_parts_are_balanced(start: int, length: int, parts: int, i: int, j: int)
    requires
        0 <= start,
        0 < parts <= length,
        start + length <= u64::MAX,
        0 <= i < parts,
        0 <= j < parts,
    ensures
        ({
            let left = even_parts(start, length, parts)[i];
            let right = even_parts(start, length, parts)[j];
            (left.end - left.start) - (right.end - right.start) <= 1
        }),
{
    lemma_part_length(start, length, parts, i);
    lemma_part_length(start, length, parts, j);
}

/// Nothing of the ranges has been received.
pub open spec fn untouched(ranges: Seq<RangeProgress>) -> bool {
    forall|i: int| 0 <= i < ranges.len() ==> (#[trigger] ranges[i]).next == ranges[i].start
}

/// A tiling of which nothing has been received lacks everything that it tiles.
pub proof fn lemma_untouched(from: int, to: int, ranges: Seq<RangeProgress>)
    requires
        tile(from, to, ranges),
        untouched(ranges),
    ensures
        received(ranges) == 0,
        missing(ranges) == to - from,
        unfinished(ranges) == ranges.len(),
        forall|offset: int| #[trigger] lacks(ranges, offset) <==> from <= offset < to,
    decreases ranges.len(),
{
    if ranges.len() > 0 {
        let front = ranges.drop_last();
        let last = ranges.last();
        assert forall|i: int| 0 <= i < front.len() implies (#[trigger] front[i]).next
            == front[i].start by {
            assert(front[i] == ranges[i]);
        }
        lemma_untouched(from, last.start as int, front);
        assert(ranges[ranges.len() - 1].next == ranges[ranges.len() - 1].start);
        assert forall|offset: int| #[trigger] lacks(ranges, offset) <==> from <= offset < to by {
            lemma_lacks_last(ranges, offset);
        }
        lemma_tile_forward(from, last.start as int, front);
    }
}

/// A byte is missing when it is missing in the last range or before it.
proof fn lemma_lacks_last(ranges: Seq<RangeProgress>, offset: int)
    requires
        ranges.len() > 0,
    ensures
        lacks(ranges, offset) <==> lacks(ranges.drop_last(), offset) || ranges.last().lacks(
            offset,
        ),
{
    let front = ranges.drop_last();
    if lacks(front, offset) {
        let i = choose|i: int| 0 <= i < front.len() && (#[trigger] front[i]).lacks(offset);
        assert(ranges[i].lacks(offset));
    }
    if ranges.last().lacks(offset) {
        assert(ranges[ranges.len() - 1].lacks(offset));
    }
    if lacks(ranges, offset) {
        let i = choose|i: int| 0 <= i < ranges.len() && (#[trigger] ranges[i]).lacks(offset);
        if i < front.len() {
            assert(front[i].lacks(offset));
        }
    }
}

/// Why the bytes `start..=end` cannot be divided into `parts` parts, if they cannot.
pub open spec fn interval_error(start: u64, end: u64, parts: u64) -> Option<Seq<char>> {
    if start > end || end - start + 1 > u64::MAX {
        Some("download interval is invalid"@)
    } else if parts == 0 || parts > end - start + 1 {
        Some("download interval partition count is invalid"@)
    } else if parts > usize::MAX {
        Some("range count exceeds platform capacity"@)
    } else if end == u64::MAX {
        Some("download range exceeds u64"@)
    } else {
        None
    }
}

/// Divides the bytes `start..=end` evenly into `parts` ranges.
pub fn partition_interval(start: u64, end: u64, parts: u64) -> (res: AppResult<
    Vec<RangeProgress>,
>)
    ensures
        match res {
            Ok(ranges) => {
                &&& interval_error(start, end, parts) is None
                &&& ranges@ == even_parts(start as int, end - start + 1, parts as int)
            },
            Err(error) => {
                &&& error@ is Message
                &&& interval_error(start, end, parts) == Some(error@->Message_0)
            },
        },
{
    if start > end {
        return Err(message_error("download interval is invalid"));
    }
    let length = match (end - start).checked_add(1) {
        Some(length) => length,
        None => {
            return Err(message_error("download interval is invalid"));
        },
    };
    if parts == 0 || parts > length {
        return Err(message_error("download interval partition count is invalid"));
    }
    if parts > usize::MAX as u64 {
        return Err(message_error("range count exceeds platform capacity"));
    }
    if end == u64::MAX {
        return Err(message_error("download range exceeds u64"));
    }
    let base_length = length / parts;
    let longer_ranges = length % parts;
    let mut ranges: Vec<RangeProgress> = Vec::with_capacity(parts as usize);
    let mut next_start = start;
    let mut index: u64 = 0;
    proof {
        lemma_part_length(start as int, length as int, parts as int, 0);
    }
    while index < parts
        invariant
            0 < parts <= length,
            index <= parts,
            length == end - start + 1,
            end < u64::MAX,
            base_length == length / parts,
            longer_ranges == length % parts,
            next_start == part_start(start as int, length as int, parts as int, index as int),
            ranges@ == even_parts(start as int, length as int, parts as int).take(index as int),
        decreases parts - index,
    {
        proof {
            lemma_part_length(start as int, length as int, parts as int, index as int);
        }
        let range_length = if index < longer_ranges {
            base_length + 1
        } else {
            base_length
        };
        let range_end = next_start + (range_length - 1);
        ranges.push(RangeProgress { start: next_start, next: next_start, end: range_end });
        next_start = range_end + 1;
        index = index + 1;
        proof {
            assert(ranges@ =~= even_parts(start as int, length as int, parts as int).take(
                index as int,
            ));
        }
    }
    proof {
        assert(ranges@ =~= even_parts(start as int, length as int, parts as int));
    }
    Ok(ranges)
}

/// The smaller of two numbers.
pub open spec fn lesser(a: int, b: int) -> int {
    if a < b {
        a
    } else {
        b
    }
}

/// How a file of `size` bytes is divided among `jobs` transfers.
pub open spec fn initial_ranges(size: u64, jobs: usize) -> Seq<RangeProgress> {
    if size == 0 {
        Seq::empty()
    } else {
        even_parts(0, size as int, lesser(size as int, jobs as int))
    }
}

/// Divides a file of `size` bytes evenly among `jobs` transfers.
pub fn partition_ranges(size: u64, jobs: usize) -> (res: AppResult<Vec<RangeProgress>>)
    requires
        size > 0 ==> jobs > 0,
    ensures
        res matches Ok(ranges) && ranges@ == initial_ranges(size, jobs),
{
    if size == 0 {
        return Ok(Vec::new());
    }
    let jobs = jobs as u64;
    let part_count = if size < jobs {
        size
    } else {
        jobs
    };
    partition_interval(0, size - 1, part_count)
}

/// The initial division covers the file, has received nothing, and has as many
/// ranges as there are jobs, or bytes where they are fewer.
pub proof fn lemma_initial_ranges(size: u64, jobs: usize)
    requires
        size > 0 ==> jobs > 0,
    ensures
        valid_ranges(size, initial_ranges(size, jobs)),
        untouched(initial_ranges(size, jobs)),
        received(initial_ranges(size, jobs)) == 0,
        unfinished(initial_ranges(size, jobs)) == initial_ranges(size, jobs).len(),
        initial_ranges(size, jobs).len() == lesser(size as int, jobs as int) || size == 0
            && initial_ranges(size, jobs).len() == 0,
{
    if size > 0 {
        lemma_even_parts(0, size as int, lesser(size as int, jobs as int));
    }
    lemma_untouched(0, size as int, initial_ranges(size, jobs));
}


// ---------------------------------------------------------------------------
// Dividing what is missing among more transfers
// ---------------------------------------------------------------------------

/// The bytes that the ranges miss, counted from the left: a range that ends at the
/// last 64-bit offset or a sum beyond 64 bits ends the count.
pub open spec fn count_missing(ranges: Seq<RangeProgress>) -> Result<nat, Seq<char>>
    decreases ranges.len(),
{
    if ranges.len() == 0 {
        Ok(0)
    } else {
        match count_missing(ranges.drop_last()) {
            Err(message) => Err(message),
            Ok(total) => if ranges.last().end == u64::MAX {
                Err("download range exceeds u64"@)
            } else if total + ranges.last().missing() > u64::MAX {
                Err("pending byte count exceeds u64"@)
            } else {
                Ok(total + ranges.last().missing())
            },
        }
    }
}

proof fn lemma_count_missing_error(ranges: Seq<RangeProgress>, n: int)
    requires
        0 <= n <= ranges.len(),
        count_missing(ranges.take(n)) is Err,
    ensures
        count_missing(ranges) == count_missing(ranges.take(n)),
    decreases ranges.len(),
{
    if n == ranges.len() {
        assert(ranges.take(n) =~= ranges);
    } else {
        assert(ranges.drop_last().take(n) =~= ranges.take(n));
        lemma_count_missing_error(ranges.drop_last(), n);
    }
}

/// How many of `extra` additional ranges are left over after each of the ranges has
/// taken, from the left, as many as it has missing bytes beyond its first.
pub open spec fn left_over(ranges: Seq<RangeProgress>, extra: nat) -> nat
    decreases ranges.len(),
{
    if ranges.len() == 0 {
        extra
    } else {
        let before = left_over(ranges.drop_last(), extra);
        (before - lesser(before as int, spare(ranges.last()) as int)) as nat
    }
}

/// The missing bytes of a range beyond its first one.
pub open spec fn spare(range: RangeProgress) -> nat {
    if range.missing() > 0 {
        (range.missing() - 1) as nat
    } else {
        0
    }
}

/// A range with its missing bytes divided into `parts` ranges: what has been
/// received stays one finished range.
pub open spec fn refined(range: RangeProgress, parts: int) -> Seq<RangeProgress> {
    if range.missing() == 0 {
        seq![range]
    } else {
        finished_part(range) + even_parts(range.next as int, range.missing() as int, parts)
    }
}

/// The part of a range that has been received, when there is any.
pub open spec fn finished_part(range: RangeProgress) -> Seq<RangeProgress> {
    if range.next > range.start {
        seq![
            RangeProgress {
                start: range.start,
                next: range.next,
                end: (range.next - 1) as u64,
            },
        ]
    } else {
        Seq::empty()
    }
}

/// The ranges with `extra` additional ranges made of what they miss.
pub open spec fn expanded(ranges: Seq<RangeProgress>, extra: nat) -> Seq<RangeProgress>
    decreases ranges.len(),
{
    if ranges.len() == 0 {
        Seq::empty()
    } else {
        expanded(ranges.drop_last(), extra) + refined(
            ranges.last(),
            1 + lesser(
                left_over(ranges.drop_last(), extra) as int,
                spare(ranges.last()) as int,
            ),
        )
    }
}

/// How many ranges with missing bytes there are to be: one for each job, or one
/// for each missing byte where those are fewer.
pub open spec fn wanted(ranges: Seq<RangeProgress>, jobs: usize) -> int {
    lesser(jobs as int, missing(ranges) as int)
}

/// What a new division for `jobs` transfers gives: the new ranges, nothing where
/// enough ranges miss bytes already, or a message.
pub open spec fn repartitioned(size: u64, ranges: Seq<RangeProgress>, jobs: usize) -> Result<
    Option<Seq<RangeProgress>>,
    Seq<char>,
> {
    match count_missing(ranges) {
        Err(message) => Err(message),
        Ok(_) => if wanted(ranges, jobs) <= unfinished(ranges) {
            Ok(None)
        } else {
            let rebuilt = expanded(ranges, (wanted(ranges, jobs) - unfinished(ranges)) as nat);
            if valid_ranges(size, rebuilt) {
                Ok(Some(rebuilt))
            } else {
                Err("repartitioned resume ranges failed validation"@)
            }
        },
    }
}

/// The facts about the first `n` ranges that the count of missing bytes gives.
proof fn lemma_count_missing_step(ranges: Seq<RangeProgress>, n: int)
    requires
        0 <= n < ranges.len(),
        count_missing(ranges.take(n)) is Ok,
    ensures
        count_missing(ranges.take(n + 1)) == if ranges[n].end == u64::MAX {
            Err::<nat, Seq<char>>("download range exceeds u64"@)
        } else if count_missing(ranges.take(n))->Ok_0 + ranges[n].missing() > u64::MAX {
            Err::<nat, Seq<char>>("pending byte count exceeds u64"@)
        } else {
            Ok::<nat, Seq<char>>(count_missing(ranges.take(n))->Ok_0 + ranges[n].missing())
        },
        missing(ranges.take(n + 1)) == missing(ranges.take(n)) + ranges[n].missing(),
        unfinished(ranges.take(n + 1)) == unfinished(ranges.take(n)) + if ranges[n].missing()
            > 0 {
            1nat
        } else {
            0nat
        },
{
    assert(ranges.take(n + 1).drop_last() =~= ranges.take(n));
    assert(ranges.take(n + 1).last() == ranges[n]);
}

/// A count that succeeds is the number of missing bytes, and no range ends at the
/// last offset.
proof fn lemma_count_missing_ok(ranges: Seq<RangeProgress>)
    requires
        count_missing(ranges) is Ok,
    ensures
        count_missing(ranges)->Ok_0 == missing(ranges),
        forall|i: int| 0 <= i < ranges.len() ==> (#[trigger] ranges[i]).end < u64::MAX,
        unfinished(ranges) <= missing(ranges),
        unfinished(ranges) <= ranges.len(),
        missing(ranges) > 0 ==> unfinished(ranges) > 0,
    decreases ranges.len(),
{
    if ranges.len() > 0 {
        let front = ranges.drop_last();
        lemma_count_missing_ok(front);
        assert forall|i: int| 0 <= i < ranges.len() implies (#[trigger] ranges[i]).end
            < u64::MAX by {
            if i < front.len() {
                assert(front[i] == ranges[i]);
            }
        }
    }
}

/// Divides what the ranges miss among `jobs` transfers, when more could work.
pub fn repartition(size: u64, ranges: &Vec<RangeProgress>, jobs: usize) -> (res: AppResult<
    Option<Vec<RangeProgress>>,
>)
    ensures
        match res {
            Ok(None) => repartitioned(size, ranges@, jobs) == Ok::<
                Option<Seq<RangeProgress>>,
                Seq<char>,
            >(None),
            Ok(Some(rebuilt)) => repartitioned(size, ranges@, jobs) == Ok::<
                Option<Seq<RangeProgress>>,
                Seq<char>,
            >(Some(rebuilt@)),
            Err(error) => error@ is Message && repartitioned(size, ranges@, jobs) == Err::<
                Option<Seq<RangeProgress>>,
                Seq<char>,
            >(error@->Message_0),
        },
{
    let mut pending_bytes: u64 = 0;
    let mut pending_count: u64 = 0;
    let mut i: usize = 0;
    while i < ranges.len()
        invariant
            i <= ranges@.len(),
            count_missing(ranges@.take(i as int)) == Ok::<nat, Seq<char>>(pending_bytes as nat),
            missing(ranges@.take(i as int)) == pending_bytes,
            unfinished(ranges@.take(i as int)) == pending_count,
            pending_count <= i,
        decreases ranges@.len() - i,
    {
        let range = ranges[i];
        proof {
            lemma_count_missing_step(ranges@, i as int);
        }
        if range.end == u64::MAX {
            proof {
                lemma_count_missing_error(ranges@, i + 1);
            }
            return Err(message_error("download range exceeds u64"));
        }
        if range.next <= range.end {
            match pending_bytes.checked_add(range.end + 1 - range.next) {
                Some(sum) => {
                    pending_bytes = sum;
                },
                None => {
                    proof {
                        lemma_count_missing_error(ranges@, i + 1);
                    }
                    return Err(message_error("pending byte count exceeds u64"));
                },
            }
            pending_count = pending_count + 1;
        }
        i = i + 1;
    }
    proof {
        assert(ranges@.take(i as int) =~= ranges@);
        lemma_count_missing_ok(ranges@);
    }
    let target = if (jobs as u64) < pending_bytes {
        jobs as u64
    } else {
        pending_bytes
    };
    if target <= pending_count {
        return Ok(None);
    }
    let ghost extra = (target - pending_count) as nat;
    let mut remaining: u64 = target - pending_count;
    let mut rebuilt: Vec<RangeProgress> = Vec::new();
    let mut j: usize = 0;
    while j < ranges.len()
        invariant
            j <= ranges@.len(),
            forall|k: int| 0 <= k < ranges@.len() ==> (#[trigger] ranges@[k]).end < u64::MAX,
            remaining == left_over(ranges@.take(j as int), extra),
            remaining < jobs,
            rebuilt@ == expanded(ranges@.take(j as int), extra),
        decreases ranges@.len() - j,
    {
        let range = ranges[j];
        let ghost before = rebuilt@;
        proof {
            assert(ranges@.take(j + 1).drop_last() =~= ranges@.take(j as int));
            assert(ranges@.take(j + 1).last() == range);
        }
        if range.next > range.end {
            rebuilt.push(range);
            proof {
                assert(rebuilt@ =~= before + refined(range, 1));
            }
        } else {
            if range.next > range.start {
                rebuilt.push(
                    RangeProgress { start: range.start, next: range.next, end: range.next - 1 },
                );
            }
            proof {
                assert(rebuilt@ =~= before + finished_part(range));
            }
            let length = range.end + 1 - range.next;
            let taken = if remaining < length - 1 {
                remaining
            } else {
                length - 1
            };
            let mut parts = partition_interval(range.next, range.end, 1 + taken)?;
            rebuilt.append(&mut parts);
            remaining = remaining - taken;
            proof {
                assert(rebuilt@ =~= before + refined(range, 1 + taken));
            }
        }
        j = j + 1;
    }
    proof {
        assert(ranges@.take(j as int) =~= ranges@);
    }
    if !ranges_are_valid(size, &rebuilt) {
        return Err(message_error("repartitioned resume ranges failed validation"));
    }
    Ok(Some(rebuilt))
}

/// What is left over is what the ranges have no room for.
proof fn lemma_left_over(ranges: Seq<RangeProgress>, extra: nat)
    ensures
        left_over(ranges, extra) <= extra,
        left_over(ranges, extra) == if extra + unfinished(ranges) <= missing(ranges) {
            0
        } else {
            extra + unfinished(ranges) - missing(ranges)
        },
        unfinished(ranges) <= missing(ranges),
    decreases ranges.len(),
{
    if ranges.len() > 0 {
        lemma_left_over(ranges.drop_last(), extra);
    }
}

/// Two tilings, one after the other.
proof fn lemma_tile_concat(
    from: int,
    middle: int,
    to: int,
    left: Seq<RangeProgress>,
    right: Seq<RangeProgress>,
)
    requires
        tile(from, middle, left),
        tile(middle, to, right),
    ensures
        tile(from, to, left + right),
        received(left + right) == received(left) + received(right),
        missing(left + right) == missing(left) + missing(right),
        unfinished(left + right) == unfinished(left) + unfinished(right),
        forall|offset: int| #[trigger]
            lacks(left + right, offset) <==> lacks(left, offset) || lacks(right, offset),
    decreases right.len(),
{
    if right.len() == 0 {
        assert(left + right =~= left);
    } else {
        let front = right.drop_last();
        assert((left + right).drop_last() =~= left + front);
        assert((left + right).last() == right.last());
        lemma_tile_concat(from, middle, right.last().start as int, left, front);
        assert forall|offset: int| #[trigger] lacks(left + right, offset) <==> lacks(left, offset)
            || lacks(right, offset) by {
            lemma_lacks_last(left + right, offset);
            lemma_lacks_last(right, offset);
            assert(lacks(left + front, offset) <==> lacks(left, offset) || lacks(front, offset));
        }
    }
}

/// Dividing the missing bytes of one range changes neither what it covers nor
/// what it misses.
proof fn lemma_refined(range: RangeProgress, parts: int)
    requires
        range.well_formed(),
        range.end < u64::MAX,
        1 <= parts <= 1 + spare(range),
    ensures
        tile(range.start as int, range.end + 1, refined(range, parts)),
        received(refined(range, parts)) == range.next - range.start,
        missing(refined(range, parts)) == range.missing(),
        unfinished(refined(range, parts)) == if range.missing() > 0 {
            parts as nat
        } else {
            0nat
        },
        forall|offset: int| #[trigger]
            lacks(refined(range, parts), offset) <==> range.lacks(offset),
{
    let result = refined(range, parts);
    if range.missing() == 0 {
        lemma_single(range);
    } else {
        let tail = even_parts(range.next as int, range.missing() as int, parts);
        lemma_even_parts(range.next as int, range.missing() as int, parts);
        lemma_untouched(range.next as int, range.end + 1, tail);
        if range.next > range.start {
            let head = RangeProgress {
                start: range.start,
                next: range.next,
                end: (range.next - 1) as u64,
            };
            lemma_single(head);
            assert(finished_part(range) =~= seq![head]);
            lemma_tile_concat(
                range.start as int,
                range.next as int,
                range.end + 1,
                seq![head],
                tail,
            );
        } else {
            assert(result =~= tail);
        }
        assert forall|offset: int| #[trigger] lacks(result, offset) <==> range.lacks(offset) by {
            assert(lacks(tail, offset) <==> range.next <= offset < range.end + 1);
        }
    }
}

proof fn lemma_single(range: RangeProgress)
    requires
        range.well_formed(),
    ensures
        tile(range.start as int, range.end + 1, seq![range]),
        received(seq![range]) == range.next - range.start,
        missing(seq![range]) == range.missing(),
        unfinished(seq![range]) == if range.missing() > 0 {
            1nat
        } else {
            0nat
        },
        forall|offset: int| #[trigger] lacks(seq![range], offset) <==> range.lacks(offset),
{
    let one = seq![range];
    assert(one.drop_last() =~= Seq::<RangeProgress>::empty());
    assert(one.last() == range);
    assert(received(one.drop_last()) == 0);
    assert(missing(one.drop_last()) == 0);
    assert(unfinished(one.drop_last()) == 0);
    assert(tile(range.start as int, range.start as int, one.drop_last()));
    assert forall|offset: int| #[trigger] lacks(one, offset) <==> range.lacks(offset) by {
        lemma_lacks_last(one, offset);
    }
}

/// Expanding a tiling changes neither what it covers nor what it misses, and adds
/// every additional range that there is room for.
proof fn lemma_expanded(from: int, to: int, ranges: Seq<RangeProgress>, extra: nat)
    requires
        tile(from, to, ranges),
        to <= u64::MAX,
    ensures
        tile(from, to, expanded(ranges, extra)),
        received(expanded(ranges, extra)) == received(ranges),
        missing(expanded(ranges, extra)) == missing(ranges),
        unfinished(expanded(ranges, extra)) == unfinished(ranges) + extra - left_over(
            ranges,
            extra,
        ),
        forall|offset: int| #[trigger]
            lacks(expanded(ranges, extra), offset) <==> lacks(ranges, offset),
    decreases ranges.len(),
{
    if ranges.len() > 0 {
        let front = ranges.drop_last();
        let last = ranges.last();
        let middle = last.start as int;
        lemma_expanded(from, middle, front, extra);
        lemma_left_over(front, extra);
        let parts = 1 + lesser(left_over(front, extra) as int, spare(last) as int);
        lemma_refined(last, parts);
        lemma_tile_concat(from, middle, to, expanded(front, extra), refined(last, parts));
        assert forall|offset: int| #[trigger] lacks(expanded(ranges, extra), offset) <==> lacks(
            ranges,
            offset,
        ) by {
            lemma_lacks_last(ranges, offset);
            assert(lacks(expanded(front, extra), offset) <==> lacks(front, offset));
            assert(lacks(refined(last, parts), offset) <==> last.lacks(offset));
        }
    }
}

/// A valid division is repartitioned without an error. The new division is valid
/// for the same file, has received the same number of bytes, misses exactly the
/// same bytes, and has one range with missing bytes for each job, or for each
/// missing byte where those are fewer. Nothing changes when that many ranges miss
/// bytes already.
pub proof fn lemma_repartition_keeps_progress(
    size: u64,
    ranges: Seq<RangeProgress>,
    jobs: usize,
)
    requires
        valid_ranges(size, ranges),
    ensures
        match repartitioned(size, ranges, jobs) {
            Err(_) => false,
            Ok(None) => wanted(ranges, jobs) <= unfinished(ranges),
            Ok(Some(rebuilt)) => {
                &&& wanted(ranges, jobs) > unfinished(ranges)
                &&& valid_ranges(size, rebuilt)
                &&& received(rebuilt) == received(ranges)
                &&& missing(rebuilt) == missing(ranges)
                &&& unfinished(rebuilt) == wanted(ranges, jobs)
                &&& forall|offset: int| #[trigger]
                    lacks(rebuilt, offset) <==> lacks(ranges, offset)
            },
        },
{
    lemma_received_and_missing(0, size as int, ranges);
    lemma_tiling_missing_is_counted(0, size as int, ranges);
    if wanted(ranges, jobs) > unfinished(ranges) {
        let extra = (wanted(ranges, jobs) - unfinished(ranges)) as nat;
        lemma_expanded(0, size as int, ranges, extra);
        lemma_left_over(ranges, extra);
    }
}

proof fn lemma_tiling_missing_is_counted(from: int, to: int, ranges: Seq<RangeProgress>)
    requires
        tile(from, to, ranges),
        0 <= from,
        to <= u64::MAX,
    ensures
        count_missing(ranges) == Ok::<nat, Seq<char>>(missing(ranges)),
    decreases ranges.len(),
{
    lemma_received_and_missing(from, to, ranges);
    if ranges.len() > 0 {
        lemma_tiling_missing_is_counted(from, ranges.last().start as int, ranges.drop_last());
    }
}

// ---------------------------------------------------------------------------
// Laws
// ---------------------------------------------------------------------------

/// Ranges divide a file exactly if the first begins at byte zero, each begins right behind
/// the one before it, the last ends with the file, none is empty, and none was received
/// further than its end. An empty file has no ranges.
pub proof fn lemma_valid_ranges_follow_one_another(size: u64, ranges: Seq<RangeProgress>)
    ensures
        valid_ranges(size, ranges) <==> {
            &&& forall|i: int|
                0 <= i < ranges.len() ==> (#[trigger] ranges[i]).start <= ranges[i].end
                    && ranges[i].start <= ranges[i].next <= ranges[i].end + 1
            &&& forall|i: int|
                0 < i < ranges.len() ==> (#[trigger] ranges[i]).start == ranges[i - 1].end + 1
            &&& ranges.len() == 0 ==> size == 0
            &&& ranges.len() > 0 ==> ranges[0].start == 0 && ranges[ranges.len() - 1].end + 1
                == size
        },
{
    lemma_tiles_follow_one_another(0, size as int, ranges);
}

proof fn lemma_tiles_follow_one_another(from: int, to: int, ranges: Seq<RangeProgress>)
    ensures
        tile(from, to, ranges) <==> {
            &&& forall|i: int|
                0 <= i < ranges.len() ==> (#[trigger] ranges[i]).start <= ranges[i].end
                    && ranges[i].start <= ranges[i].next <= ranges[i].end + 1
            &&& forall|i: int|
                0 < i < ranges.len() ==> (#[trigger] ranges[i]).start == ranges[i - 1].end + 1
            &&& ranges.len() == 0 ==> from == to
            &&& ranges.len() > 0 ==> ranges[0].start == from && ranges[ranges.len() - 1].end + 1
                == to
        },
    decreases ranges.len(),
{
    if ranges.len() > 0 {
        let front = ranges.drop_last();
        let n = ranges.len() - 1;
        lemma_tiles_follow_one_another(from, ranges.last().start as int, front);
        assert(forall|i: int| 0 <= i < front.len() ==> #[trigger] front[i] == ranges[i]);
        assert(ranges[n] == ranges.last());
        if tile(from, to, ranges) {
            assert forall|i: int| 0 <= i < ranges.len() implies (#[trigger] ranges[i]).start
                <= ranges[i].end && ranges[i].start <= ranges[i].next <= ranges[i].end + 1 by {
                if i < front.len() {
                    assert(front[i] == ranges[i]);
                }
            }
            assert forall|i: int| 0 < i < ranges.len() implies (#[trigger] ranges[i]).start
                == ranges[i - 1].end + 1 by {
                if i < front.len() {
                    assert(front[i] == ranges[i]);
                    assert(front[i - 1] == ranges[i - 1]);
                } else {
                    assert(front[i - 1] == ranges[i - 1]);
                }
            }
        }
        if n > 0 {
            assert(front[0] == ranges[0]);
            assert(front[n - 1] == ranges[n - 1]);
        }
    }
}

/// In a divided file, a byte is missing exactly if it does not stand before the mark of the
/// range that it belongs to.
pub proof fn lemma_bytes_behind_the_mark_are_missing(
    size: u64,
    ranges: Seq<RangeProgress>,
    i: int,
    offset: int,
)
    requires
        valid_ranges(size, ranges),
        0 <= i < ranges.len(),
        ranges[i].start <= offset <= ranges[i].end,
    ensures
        lacks(ranges, offset) <==> ranges[i].next <= offset,
{
    if ranges[i].next <= offset {
        assert(ranges[i].lacks(offset));
    }
    if lacks(ranges, offset) {
        let j = choose|j: int| 0 <= j < ranges.len() && (#[trigger] ranges[j]).lacks(offset);
        lemma_tile_prefix(0, size as int, ranges, j);
        if i < j {
            lemma_tile_prefix(0, ranges[j].start as int, ranges.take(j), i);
        } else if j < i {
            lemma_tile_prefix(0, size as int, ranges, i);
            lemma_tile_prefix(0, ranges[i].start as int, ranges.take(i), j);
        }
    }
}

/// A divided file is complete exactly if none of its bytes is missing.
pub proof fn lemma_complete_files_miss_nothing(size: u64, ranges: Seq<RangeProgress>)
    requires
        valid_ranges(size, ranges),
    ensures
        complete(ranges) <==> forall|offset: int| !#[trigger] lacks(ranges, offset),
        complete(ranges) <==> received(ranges) == size,
{
    lemma_valid_ranges_follow_one_another(size, ranges);
    lemma_received_and_missing(0, size as int, ranges);
    if complete(ranges) {
        assert forall|offset: int| !#[trigger] lacks(ranges, offset) by {
            if lacks(ranges, offset) {
                let j = choose|j: int|
                    0 <= j < ranges.len() && (#[trigger] ranges[j]).lacks(offset);
                assert(ranges[j].next == ranges[j].end + 1);
            }
        }
    } else {
        let j = choose|j: int|
            0 <= j < ranges.len() && (#[trigger] ranges[j]).next != ranges[j].end + 1;
        assert(ranges[j].lacks(ranges[j].next as int));
        assert(lacks(ranges, ranges[j].next as int));
    }
}

/// The unfinished ranges are those whose mark is not behind their end.
pub proof fn lemma_unfinished_ranges_are_counted(ranges: Seq<RangeProgress>)
    ensures
        unfinished(ranges) == ranges.filter(|range: RangeProgress| range.next <= range.end).len(),
    decreases ranges.len(),
{
    reveal(Seq::filter);
    if ranges.len() > 0 {
        lemma_unfinished_ranges_are_counted(ranges.drop_last());
    }
}

/// A file is divided at first into as many ranges as there are jobs, or bytes where those are
/// fewer: nothing of them is received, none is longer than another by more than a byte, and
/// the longer ones come first.
pub proof fn lemma_files_are_divided_evenly(size: u64, jobs: usize, i: int, j: int)
    requires
        size > 0,
        jobs > 0,
        0 <= i < j < initial_ranges(size, jobs).len(),
    ensures
        ({
            let ranges = initial_ranges(size, jobs);
            let left = ranges[i].end - ranges[i].start;
            let right = ranges[j].end - ranges[j].start;
            &&& ranges.len() == vstd::math::min(size as int, jobs as int)
            &&& right <= left <= right + 1
            &&& ranges[i].next == ranges[i].start
            &&& ranges[j].next == ranges[j].start
        }),
{
    let parts = lesser(size as int, jobs as int);
    lemma_part_length(0, size as int, parts, i);
    lemma_part_length(0, size as int, parts, j);
    lemma_initial_ranges(size, jobs);
}

/// An interval is divided exactly if it holds a byte for each part, there is a part, and its
/// numbers can be held. No part is longer than another by more than a byte, and the longer
/// ones come first.
pub proof fn lemma_intervals_are_divided_where_they_can_be(
    start: u64,
    end: u64,
    parts: u64,
    i: int,
    j: int,
)
    ensures
        interval_error(start, end, parts) is None <==> start <= end && 0 < parts <= end - start + 1
            && parts <= usize::MAX && end < u64::MAX,
        start > end ==> interval_error(start, end, parts) == Some("download interval is invalid"@),
        start <= end && end - start < u64::MAX && (parts == 0 || parts > end - start + 1)
            ==> interval_error(start, end, parts) == Some(
            "download interval partition count is invalid"@,
        ),
        interval_error(start, end, parts) is None && 0 <= i < j < parts ==> {
            let all = even_parts(start as int, end - start + 1, parts as int);
            let left = all[i].end - all[i].start;
            let right = all[j].end - all[j].start;
            right <= left <= right + 1
        },
{
    if interval_error(start, end, parts) is None && 0 <= i < j < parts {
        lemma_part_length(start as int, end - start + 1, parts as int, i);
        lemma_part_length(start as int, end - start + 1, parts as int, j);
    }
}

/// Additional ranges are made of the first unfinished ranges, as many as each has missing
/// bytes beyond its first; what one cannot take goes to those behind it. A finished range
/// stays as it is; of an unfinished one, what was received becomes a range of its own, and
/// what is missing is divided.
pub proof fn lemma_first_ranges_are_divided_first(
    left: Seq<RangeProgress>,
    right: Seq<RangeProgress>,
    range: RangeProgress,
    extra: nat,
)
    ensures
        left_over(left, extra) == vstd::math::max(
            0,
            extra + unfinished(left) - missing(left),
        ),
        expanded(left + right, extra) == expanded(left, extra) + expanded(
            right,
            left_over(left, extra),
        ),
        range.next > range.end ==> expanded(seq![range], extra) == seq![range],
        range.next <= range.end ==> ({
            let length = range.end + 1 - range.next;
            let received = if range.next > range.start {
                seq![
                    RangeProgress {
                        start: range.start,
                        next: range.next,
                        end: (range.next - 1) as u64,
                    },
                ]
            } else {
                Seq::empty()
            };
            expanded(seq![range], extra) == received + even_parts(
                range.next as int,
                length,
                1 + vstd::math::min(extra as int, length - 1),
            )
        }),
{
    lemma_left_over(left, extra);
    lemma_expanded_in_turn(left, right, extra);
    reveal_with_fuel(expanded, 2);
    reveal_with_fuel(left_over, 2);
    let one = seq![range];
    assert(one.drop_last() =~= Seq::<RangeProgress>::empty());
    assert(expanded(one, extra) =~= refined(range, 1 + lesser(extra as int, spare(range) as int)));
}

proof fn lemma_expanded_in_turn(left: Seq<RangeProgress>, right: Seq<RangeProgress>, extra: nat)
    ensures
        expanded(left + right, extra) == expanded(left, extra) + expanded(
            right,
            left_over(left, extra),
        ),
        left_over(left + right, extra) == left_over(right, left_over(left, extra)),
    decreases right.len(),
{
    let both = left + right;
    if right.len() == 0 {
        assert(both =~= left);
        assert(expanded(right, left_over(left, extra)) =~= Seq::empty());
        assert(expanded(left, extra) + Seq::<RangeProgress>::empty() =~= expanded(left, extra));
    } else {
        lemma_expanded_in_turn(left, right.drop_last(), extra);
        assert(both.drop_last() =~= left + right.drop_last());
        assert(both.last() == right.last());
        assert(expanded(both, extra) =~= expanded(left, extra) + expanded(
            right,
            left_over(left, extra),
        ));
    }
}

} // verus!
