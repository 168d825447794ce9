//! The portable serialized form of Roaring bitmaps, read in place.
//!
//! A serialized bitmap starts with a header that names its containers, one for
//! each distinct upper half of a value, in ascending order. Behind it stand the
//! containers themselves, which hold the lower halves: as a sorted array, as
//! 8192 bytes of bits, or as runs.

use vstd::prelude::*;

verus! {

/// Cookie of a bitmap without run containers.
pub const COOKIE_NO_RUNS: usize = 12346;

/// Lower half of the cookie of a bitmap with run containers.
pub const COOKIE_RUNS: usize = 12347;

/// The largest cardinality that is stored as an array.
pub const ARRAY_LIMIT: usize = 4096;

/// The size of a bit container in bytes.
pub const BITS_SIZE: usize = 8192;

/// The little-endian 16-bit number at position `i`.
pub open spec fn u16_at(data: Seq<u8>, i: int) -> int {
    data[i] + 256 * data[i + 1]
}

/// The little-endian 32-bit number at position `i`.
pub open spec fn u32_at(data: Seq<u8>, i: int) -> int {
    u16_at(data, i) + 65536 * u16_at(data, i + 2)
}

/// Whether bit `bit` of `byte` is set.
pub open spec fn bit_set(byte: u8, bit: int) -> bool {
    byte & (1u8 << bit) != 0
}

/// What the cookie of a serialized bitmap says.
pub struct Layout {
    /// Number of containers.
    pub count: int,
    /// Whether a bit per container tells which ones hold runs.
    pub runs: bool,
    /// Start of the descriptive header.
    pub desc: int,
}

/// The layout of serialized data; `None` without a known cookie.
pub open spec fn layout(data: Seq<u8>) -> Option<Layout> {
    if data.len() < 4 {
        None
    } else if u32_at(data, 0) == COOKIE_NO_RUNS {
        if data.len() < 8 {
            None
        } else {
            Some(Layout { count: u32_at(data, 4), runs: false, desc: 8 })
        }
    } else if u16_at(data, 0) == COOKIE_RUNS {
        let count = u16_at(data, 2) + 1;
        Some(Layout { count, runs: true, desc: 4 + (count + 7) / 8 })
    } else {
        None
    }
}

impl Layout {
    /// Whether the descriptive header lies within the data.
    pub open spec fn fits(self, data: Seq<u8>) -> bool {
        self.desc + 4 * self.count <= data.len()
    }

    /// The upper half shared by the values of container `i`.
    pub open spec fn key(self, data: Seq<u8>, i: int) -> int {
        u16_at(data, self.desc + 4 * i)
    }

    /// The number of values of container `i`.
    pub open spec fn cardinality(self, data: Seq<u8>, i: int) -> int {
        u16_at(data, self.desc + 4 * i + 2) + 1
    }

    /// Whether container `i` holds runs.
    pub open spec fn is_run(self, data: Seq<u8>, i: int) -> bool {
        self.runs && bit_set(data[4 + i / 8], i % 8)
    }

    /// Where the offset header names the start of container `i`. The header
    /// stands behind the descriptive header, whatever the number of containers.
    pub open spec fn offset_slot(self, i: int) -> int {
        self.desc + 4 * self.count + 4 * i
    }

    /// The start of container `i`.
    pub open spec fn offset(self, data: Seq<u8>, i: int) -> int {
        u32_at(data, self.offset_slot(i))
    }
}

/// Binary search for `target` among the 16-bit numbers that stand `stride`
/// bytes apart from `base` on, between positions `lo` and `hi`.
pub open spec fn search_words(
    data: Seq<u8>,
    base: int,
    stride: int,
    lo: int,
    hi: int,
    target: int,
) -> Option<int>
    decreases hi - lo,
{
    if lo >= hi {
        None
    } else {
        let mid = lo + (hi - lo) / 2;
        let word = u16_at(data, base + stride * mid);
        if word == target {
            Some(mid)
        } else if word < target {
            search_words(data, base, stride, mid + 1, hi, target)
        } else {
            search_words(data, base, stride, lo, mid, target)
        }
    }
}

/// Binary search for a run that covers `target` among the runs from `base` on:
/// pairs of a first value and the number of values behind it. A run that ends
/// past 65535 is malformed and ends the search.
pub open spec fn search_runs(data: Seq<u8>, base: int, lo: int, hi: int, target: int) -> bool
    decreases hi - lo,
{
    if lo >= hi {
        false
    } else {
        let mid = lo + (hi - lo) / 2;
        let start = u16_at(data, base + 4 * mid);
        let end = start + u16_at(data, base + 4 * mid + 2);
        if target < start {
            search_runs(data, base, lo, mid, target)
        } else if end > 65535 {
            false
        } else if target > end {
            search_runs(data, base, mid + 1, hi, target)
        } else {
            true
        }
    }
}

/// Whether container `i` answers for the lower half `low`.
pub open spec fn container_answer(data: Seq<u8>, l: Layout, i: int, low: int) -> bool {
    let at = l.offset(data, i);
    if data.len() < l.offset_slot(i) + 4 {
        false
    } else if l.is_run(data, i) {
        &&& at + 2 <= data.len()
        &&& at + 2 + 4 * u16_at(data, at) <= data.len()
        &&& search_runs(data, at + 2, 0, u16_at(data, at), low)
    } else if l.cardinality(data, i) <= ARRAY_LIMIT {
        &&& at + 2 * l.cardinality(data, i) <= data.len()
        &&& search_words(data, at, 2, 0, l.cardinality(data, i), low) is Some
    } else {
        &&& at + BITS_SIZE <= data.len()
        &&& bit_set(data[at + low / 8], low % 8)
    }
}

/// What a membership test on serialized data answers: the container of the
/// upper half is searched for, and asked for the lower half. Data that is too
/// short at any step answers `false`.
pub open spec fn membership_answer(data: Seq<u8>, value: u32) -> bool {
    match layout(data) {
        None => false,
        Some(l) => {
            &&& l.count > 0
            &&& l.fits(data)
            &&& match search_words(data, l.desc, 4, 0, l.count, value as int / 65536) {
                Some(i) => container_answer(data, l, i, value as int % 65536),
                None => false,
            }
        },
    }
}

// ---------------------------------------------------------------------------
// Executable search
// ---------------------------------------------------------------------------

/// Reads the little-endian 16-bit number at position `i`.
pub fn read_u16(data: &[u8], i: usize) -> (r: usize)
    requires
        i + 2 <= data.len(),
    ensures
        r == u16_at(data@, i as int),
        r <= 65535,
{
    data[i] as usize + 256 * (data[i + 1] as usize)
}

/// Reads the little-endian 32-bit number at position `i`.
pub fn read_u32(data: &[u8], i: usize) -> (r: usize)
    requires
        i + 4 <= data.len(),
    ensures
        r == u32_at(data@, i as int),
        r <= 0xffff_ffff,
{
    read_u16(data, i) + 65536 * read_u16(data, i + 2)
}

fn has_bit(byte: u8, bit: usize) -> (r: bool)
    requires
        bit < 8,
    ensures
        r == bit_set(byte, bit as int),
{
    byte & (1u8 << bit) != 0
}

fn find_word(data: &[u8], base: usize, stride: usize, count: usize, target: usize) -> (r: Option<usize>)
    requires
        2 <= stride <= 4,
        base + stride * count <= data.len(),
    ensures
        match r {
            Some(i) => i < count && search_words(
                data@,
                base as int,
                stride as int,
                0,
                count as int,
                target as int,
            ) == Some(i as int),
            None => search_words(
                data@,
                base as int,
                stride as int,
                0,
                count as int,
                target as int,
            ) is None,
        },
{
    let mut lo: usize = 0;
    let mut hi: usize = count;
    let ghost answer = search_words(
        data@,
        base as int,
        stride as int,
        0,
        count as int,
        target as int,
    );
    while lo < hi
        invariant
            lo <= hi <= count,
            2 <= stride <= 4,
            base + stride * count <= data.len(),
            answer == search_words(
                data@,
                base as int,
                stride as int,
                0,
                count as int,
                target as int,
            ),
            answer == search_words(
                data@,
                base as int,
                stride as int,
                lo as int,
                hi as int,
                target as int,
            ),
        ensures
            answer is None,
        decreases hi - lo,
    {
        let mid: usize = lo + (hi - lo) / 2;
        assert(stride * mid + stride <= stride * count) by (nonlinear_arith)
            requires
                mid + 1 <= count,
                stride >= 0,
        ;
        let word: usize = read_u16(data, base + stride * mid);
        if word == target {
            return Some(mid);
        }
        if word < target {
            lo = mid + 1;
        } else {
            hi = mid;
        }
    }
    None
}

fn find_run(data: &[u8], base: usize, count: usize, target: usize) -> (r: bool)
    requires
        base + 4 * count <= data.len(),
        target <= 65535,
    ensures
        r == search_runs(data@, base as int, 0, count as int, target as int),
{
    let mut lo: usize = 0;
    let mut hi: usize = count;
    let ghost answer = search_runs(data@, base as int, 0, count as int, target as int);
    while lo < hi
        invariant
            lo <= hi <= count,
            base + 4 * count <= data.len(),
            answer == search_runs(data@, base as int, 0, count as int, target as int),
            answer == search_runs(data@, base as int, lo as int, hi as int, target as int),
        ensures
            !answer,
        decreases hi - lo,
    {
        let mid: usize = lo + (hi - lo) / 2;
        let start: usize = read_u16(data, base + 4 * mid);
        let end: usize = start + read_u16(data, base + 4 * mid + 2);
        if target < start {
            hi = mid;
        } else if end > 65535 {
            return false;
        } else if target > end {
            lo = mid + 1;
        } else {
            return true;
        }
    }
    false
}

/// Whether `data` holds `size` bytes from `at` on.
fn holds(data: &[u8], at: usize, size: usize) -> (r: bool)
    ensures
        r == (at + size <= data.len()),
{
    at <= data.len() && size <= data.len() - at
}

/// Tests membership of `value` on the serialized bytes of a bitmap, without
/// decoding it. Empty and malformed data answer `false`.
pub fn serialized_contains(data: &[u8], value: u32) -> (r: bool)
    ensures
        r == membership_answer(data@, value),
{
    let high: usize = (value / 65536) as usize;
    let low: usize = (value % 65536) as usize;
    if data.len() < 4 {
        return false;
    }
    let count: usize;
    let runs: bool;
    let desc: usize;
    if read_u32(data, 0) == COOKIE_NO_RUNS {
        if data.len() < 8 {
            return false;
        }
        count = read_u32(data, 4);
        runs = false;
        desc = 8;
    } else if read_u16(data, 0) == COOKIE_RUNS {
        count = read_u16(data, 2) + 1;
        runs = true;
        desc = 4 + (count + 7) / 8;
    } else {
        return false;
    }
    let ghost l = layout(data@)->0;
    assert(l.count == count && l.runs == runs && l.desc == desc);
    if count == 0 || desc > data.len() || count > (data.len() - desc) / 4 {
        return false;
    }
    assert(l.fits(data@));
    let index: usize = match find_word(data, desc, 4, count, high) {
        Some(i) => i,
        None => {
            return false;
        },
    };
    let slots: usize = desc + 4 * count;
    if index > (data.len() - slots) / 4 || !holds(data, slots + 4 * index, 4) {
        return false;
    }
    let at: usize = read_u32(data, slots + 4 * index);
    let is_run = runs && has_bit(data[4 + index / 8], index % 8);
    if is_run {
        if !holds(data, at, 2) {
            return false;
        }
        let n: usize = read_u16(data, at);
        if !holds(data, at + 2, 4 * n) {
            return false;
        }
        return find_run(data, at + 2, n, low);
    }
    let cardinality: usize = read_u16(data, desc + 4 * index + 2) + 1;
    if cardinality <= ARRAY_LIMIT {
        if !holds(data, at, 2 * cardinality) {
            return false;
        }
        match find_word(data, at, 2, cardinality, low) {
            Some(_) => true,
            None => false,
        }
    } else {
        if !holds(data, at, BITS_SIZE) {
            return false;
        }
        has_bit(data[at + low / 8], low % 8)
    }
}

// ---------------------------------------------------------------------------
// Well-formed data
// ---------------------------------------------------------------------------

/// Whether the 16-bit numbers that stand `stride` bytes apart from `base` on
/// ascend strictly.
pub open spec fn ascending_words(data: Seq<u8>, base: int, stride: int, count: int) -> bool {
    forall|i: int, j: int|
        0 <= i < j < count ==> #[trigger] u16_at(data, base + stride * i) < #[trigger] u16_at(
            data,
            base + stride * j,
        )
}

/// Whether container `i`, an array or bits, stores the lower half `low`.
pub open spec fn container_stores(data: Seq<u8>, l: Layout, i: int, low: int) -> bool {
    let at = l.offset(data, i);
    if l.cardinality(data, i) <= ARRAY_LIMIT {
        exists|k: int| 0 <= k < l.cardinality(data, i) && #[trigger] u16_at(data, at + 2 * k) == low
    } else {
        bit_set(data[at + low / 8], low % 8)
    }
}

/// Whether some container stores `value`.
pub open spec fn stored(data: Seq<u8>, value: u32) -> bool {
    let l = layout(data)->0;
    exists|i: int|
        0 <= i < l.count && #[trigger] l.key(data, i) == value as int / 65536 && container_stores(
            data,
            l,
            i,
            value as int % 65536,
        )
}

/// Whether container `i` lies within the data, and is sorted if it is an array.
pub open spec fn container_sound(data: Seq<u8>, l: Layout, i: int) -> bool {
    let at = l.offset(data, i);
    if l.cardinality(data, i) <= ARRAY_LIMIT {
        at + 2 * l.cardinality(data, i) <= data.len() && ascending_words(
            data,
            at,
            2,
            l.cardinality(data, i),
        )
    } else {
        at + BITS_SIZE <= data.len()
    }
}

/// Whether `data` is laid out as a bitmap without run containers: the headers
/// are complete, keys ascend, and every container is sound.
pub open spec fn well_laid_out(data: Seq<u8>) -> bool {
    match layout(data) {
        None => false,
        Some(l) => {
            &&& !l.runs
            &&& l.desc + 8 * l.count <= data.len()
            &&& ascending_words(data, l.desc, 4, l.count)
            &&& forall|i: int| 0 <= i < l.count ==> #[trigger] container_sound(data, l, i)
        },
    }
}

/// Binary search finds exactly what is there when the numbers ascend.
proof fn lemma_search_words(
    data: Seq<u8>,
    base: int,
    stride: int,
    count: int,
    lo: int,
    hi: int,
    target: int,
)
    requires
        0 <= lo <= hi <= count,
        ascending_words(data, base, stride, count),
    ensures
        match search_words(data, base, stride, lo, hi, target) {
            Some(i) => lo <= i < hi && u16_at(data, base + stride * i) == target,
            None => forall|i: int|
                lo <= i < hi ==> #[trigger] u16_at(data, base + stride * i) != target,
        },
    decreases hi - lo,
{
    if lo < hi {
        let mid = lo + (hi - lo) / 2;
        let word = u16_at(data, base + stride * mid);
        if word < target {
            lemma_search_words(data, base, stride, count, mid + 1, hi, target);
        } else if word > target {
            lemma_search_words(data, base, stride, count, lo, mid, target);
        }
    }
}

/// On well-formed data the membership test answers `true` exactly for the
/// values that some container stores.
pub proof fn law_answer_is_stored(data: Seq<u8>, value: u32)
    requires
        well_laid_out(data),
    ensures
        membership_answer(data, value) == stored(data, value),
{
    let l = layout(data)->0;
    let high = value as int / 65536;
    let low = value as int % 65536;
    lemma_search_words(data, l.desc, 4, l.count, 0, l.count, high);
    match search_words(data, l.desc, 4, 0, l.count, high) {
        Some(i) => {
            assert(container_sound(data, l, i));
            assert(l.key(data, i) == high);
            assert forall|j: int|
                0 <= j < l.count && #[trigger] l.key(data, j) == high implies j == i by {
                assert(u16_at(data, l.desc + 4 * j) == u16_at(data, l.desc + 4 * i));
            }
            if l.cardinality(data, i) <= ARRAY_LIMIT {
                let at = l.offset(data, i);
                let n = l.cardinality(data, i);
                lemma_search_words(data, at, 2, n, 0, n, low);
                match search_words(data, at, 2, 0, n, low) {
                    Some(k) => {
                        assert(u16_at(data, at + 2 * k) == low);
                    },
                    None => {},
                }
            }
            assert(container_answer(data, l, i, low) == container_stores(data, l, i, low));
        },
        None => {
            assert forall|j: int| 0 <= j < l.count implies #[trigger] l.key(data, j) != high by {
                assert(u16_at(data, l.desc + 4 * j) != high);
            }
        },
    }
}

/// Whether runs ascend, stay apart from each other and end by 65535.
pub open spec fn runs_sound(data: Seq<u8>, base: int, count: int) -> bool {
    &&& forall|i: int|
        0 <= i < count ==> #[trigger] u16_at(data, base + 4 * i) + u16_at(data, base + 4 * i + 2)
            <= 65535
    &&& forall|i: int, j: int|
        0 <= i < j < count ==> #[trigger] u16_at(data, base + 4 * i) + u16_at(
            data,
            base + 4 * i + 2,
        ) < #[trigger] u16_at(data, base + 4 * j)
}

/// Whether some run between positions `lo` and `hi` covers `target`.
pub open spec fn run_covers(data: Seq<u8>, base: int, lo: int, hi: int, target: int) -> bool {
    exists|i: int|
        lo <= i < hi && #[trigger] u16_at(data, base + 4 * i) <= target && target <= u16_at(
            data,
            base + 4 * i,
        ) + u16_at(data, base + 4 * i + 2)
}

/// On well-formed runs the search answers `true` exactly for the values that
/// some run covers.
pub proof fn law_run_search(data: Seq<u8>, base: int, count: int, lo: int, hi: int, target: int)
    requires
        0 <= lo <= hi <= count,
        runs_sound(data, base, count),
    ensures
        search_runs(data, base, lo, hi, target) == run_covers(data, base, lo, hi, target),
    decreases hi - lo,
{
    if lo < hi {
        let mid = lo + (hi - lo) / 2;
        let start = u16_at(data, base + 4 * mid);
        let end = start + u16_at(data, base + 4 * mid + 2);
        if target < start {
            law_run_search(data, base, count, lo, mid, target);
            assert forall|i: int| mid < i < hi implies #[trigger] u16_at(data, base + 4 * i)
                > target by {
                assert(u16_at(data, base + 4 * mid) + u16_at(data, base + 4 * mid + 2) < u16_at(
                    data,
                    base + 4 * i,
                ));
            }
        } else if target > end {
            law_run_search(data, base, count, mid + 1, hi, target);
            assert forall|i: int| lo <= i < mid implies #[trigger] u16_at(data, base + 4 * i)
                + u16_at(data, base + 4 * i + 2) < target by {
                assert(u16_at(data, base + 4 * i) + u16_at(data, base + 4 * i + 2) < u16_at(
                    data,
                    base + 4 * mid,
                ));
            }
        }
    }
}

/// How the numbers of serialized data are read: least significant byte first.
pub proof fn law_words(data: Seq<u8>, i: int)
    ensures
        u16_at(data, i) == data[i] + 256 * data[i + 1],
        u32_at(data, i) == data[i] + 256 * data[i + 1] + 65536 * data[i + 2] + 16777216 * data[i
            + 3],
{
}

/// What the first bytes of serialized data say. The cookie 12346 stands for data
/// without runs, with the number of containers in the next four bytes; the cookie
/// 12347 in two bytes stands for data with runs, with one less than the number of
/// containers in the next two and then a bit for each container.
pub proof fn law_cookies(data: Seq<u8>)
    ensures
        data.len() >= 8 && data[0] == 58 && data[1] == 48 && data[2] == 0 && data[3] == 0 ==> (
        layout(data) matches Some(l) && !l.runs && l.desc == 8 && l.count == u32_at(data, 4)),
        data.len() >= 4 && data[0] == 59 && data[1] == 48 ==> (layout(data) matches Some(l)
            && l.runs && l.count == u16_at(data, 2) + 1 && l.desc == 4 + (l.count + 7) / 8),
        layout(data) is Some ==> data.len() >= 4 && data[1] == 48 && (data[0] == 59 || (data[0]
            == 58 && data[2] == 0 && data[3] == 0 && data.len() >= 8)),
{
    if data.len() >= 4 {
        assert(0 <= data[0] < 256 && 0 <= data[1] < 256 && 0 <= data[2] < 256 && 0 <= data[3]
            < 256);
    }
}

/// Where the parts of a container stand: its key and cardinality in the descriptive
/// header, and its start in the offset header behind it.
pub proof fn law_headers(data: Seq<u8>, l: Layout, i: int)
    ensures
        l.key(data, i) == u16_at(data, l.desc + 4 * i),
        l.cardinality(data, i) == u16_at(data, l.desc + 4 * i + 2) + 1,
        l.offset(data, i) == u32_at(data, l.desc + 4 * l.count + 4 * i),
        l.is_run(data, i) <==> l.runs && bit_set(data[4 + i / 8], i % 8),
        l.fits(data) <==> l.desc + 4 * l.count <= data.len(),
{
}

/// Bits count from the least significant on.
pub proof fn law_bits(byte: u8, bit: int)
    requires
        0 <= bit < 8,
    ensures
        bit_set(byte, bit) <==> (byte >> (bit as u8)) % 2 == 1,
{
    let b = bit as u8;
    assert((byte & (1u8 << b) != 0) == ((byte >> b) % 2 == 1)) by (bit_vector)
        requires
            b < 8,
    ;
    assert(1u8 << bit == 1u8 << b);
}

/// Whether container `i` holds the lower half `low`: some run covers it, or it is
/// among the values of an array, or its bit is set.
pub open spec fn container_holds(data: Seq<u8>, l: Layout, i: int, low: int) -> bool {
    let at = l.offset(data, i);
    if l.is_run(data, i) {
        run_covers(data, at + 2, 0, u16_at(data, at), low)
    } else {
        container_stores(data, l, i, low)
    }
}

proof fn lemma_search_words_hits(
    data: Seq<u8>,
    base: int,
    stride: int,
    lo: int,
    hi: int,
    target: int,
)
    ensures
        search_words(data, base, stride, lo, hi, target) matches Some(i) ==> lo <= i < hi && u16_at(
            data,
            base + stride * i,
        ) == target,
    decreases hi - lo,
{
    if lo < hi {
        let mid = lo + (hi - lo) / 2;
        lemma_search_words_hits(data, base, stride, mid + 1, hi, target);
        lemma_search_words_hits(data, base, stride, lo, mid, target);
    }
}

proof fn lemma_search_runs_hits(data: Seq<u8>, base: int, lo: int, hi: int, target: int)
    ensures
        search_runs(data, base, lo, hi, target) ==> run_covers(data, base, lo, hi, target),
    decreases hi - lo,
{
    if lo < hi {
        let mid = lo + (hi - lo) / 2;
        let start = u16_at(data, base + 4 * mid);
        let end = start + u16_at(data, base + 4 * mid + 2);
        lemma_search_runs_hits(data, base, lo, mid, target);
        lemma_search_runs_hits(data, base, mid + 1, hi, target);
        if search_runs(data, base, lo, hi, target) {
            if target < start {
                let i = choose|i: int|
                    lo <= i < mid && #[trigger] u16_at(data, base + 4 * i) <= target && target
                        <= u16_at(data, base + 4 * i) + u16_at(data, base + 4 * i + 2);
                assert(u16_at(data, base + 4 * i) <= target);
            } else if target > end {
                let i = choose|i: int|
                    mid + 1 <= i < hi && #[trigger] u16_at(data, base + 4 * i) <= target && target
                        <= u16_at(data, base + 4 * i) + u16_at(data, base + 4 * i + 2);
                assert(u16_at(data, base + 4 * i) <= target);
            } else {
                assert(u16_at(data, base + 4 * mid) <= target);
            }
        }
    }
}

/// Whatever the data, sound or not, a test that answers `true` found the value in
/// it: a container with its upper half that holds its lower half.
pub proof fn law_true_answers_are_found(data: Seq<u8>, value: u32)
    requires
        membership_answer(data, value),
    ensures
        layout(data) is Some,
        ({
            let l = layout(data)->0;
            &&& l.desc + 4 * l.count <= data.len()
            &&& exists|i: int|
                0 <= i < l.count && #[trigger] l.key(data, i) == value as int / 65536
                    && l.desc + 4 * l.count + 4 * i + 4 <= data.len() && container_holds(
                    data,
                    l,
                    i,
                    value as int % 65536,
                )
        }),
{
    let l = layout(data)->0;
    let high = value as int / 65536;
    let low = value as int % 65536;
    lemma_search_words_hits(data, l.desc, 4, 0, l.count, high);
    let i = search_words(data, l.desc, 4, 0, l.count, high)->0;
    assert(l.key(data, i) == high);
    let at = l.offset(data, i);
    if l.is_run(data, i) {
        lemma_search_runs_hits(data, at + 2, 0, u16_at(data, at), low);
    } else if l.cardinality(data, i) <= ARRAY_LIMIT {
        lemma_search_words_hits(data, at, 2, 0, l.cardinality(data, i), low);
        let k = search_words(data, at, 2, 0, l.cardinality(data, i), low)->0;
        assert(u16_at(data, at + 2 * k) == low);
    }
    assert(container_holds(data, l, i, low));
}

/// Whether container `i`, of whatever kind, lies within the data and is in order.
pub open spec fn container_in_order(data: Seq<u8>, l: Layout, i: int) -> bool {
    let at = l.offset(data, i);
    if l.is_run(data, i) {
        &&& at + 2 + 4 * u16_at(data, at) <= data.len()
        &&& runs_sound(data, at + 2, u16_at(data, at))
    } else {
        container_sound(data, l, i)
    }
}

/// On data in order, with runs or without, a test answers `true` exactly for the
/// values that some container holds.
pub proof fn law_answer_is_held(data: Seq<u8>, value: u32)
    requires
        layout(data) is Some,
        layout(data)->0.count > 0,
        layout(data)->0.desc + 8 * layout(data)->0.count <= data.len(),
        ascending_words(data, layout(data)->0.desc, 4, layout(data)->0.count),
        forall|i: int|
            0 <= i < layout(data)->0.count ==> #[trigger] container_in_order(
                data,
                layout(data)->0,
                i,
            ),
    ensures
        membership_answer(data, value) <==> exists|i: int|
            0 <= i < layout(data)->0.count && #[trigger] layout(data)->0.key(data, i) == value
                as int / 65536 && container_holds(data, layout(data)->0, i, value as int % 65536),
{
    let l = layout(data)->0;
    let high = value as int / 65536;
    let low = value as int % 65536;
    lemma_search_words(data, l.desc, 4, l.count, 0, l.count, high);
    match search_words(data, l.desc, 4, 0, l.count, high) {
        Some(i) => {
            assert(container_in_order(data, l, i));
            assert(l.key(data, i) == high);
            assert forall|j: int|
                0 <= j < l.count && #[trigger] l.key(data, j) == high implies j == i by {
                assert(u16_at(data, l.desc + 4 * j) == u16_at(data, l.desc + 4 * i));
            }
            let at = l.offset(data, i);
            if l.is_run(data, i) {
                let n = u16_at(data, at);
                assert(0 <= n);
                law_run_search(data, at + 2, n, 0, n, low);
            } else if l.cardinality(data, i) <= ARRAY_LIMIT {
                let n = l.cardinality(data, i);
                lemma_search_words(data, at, 2, n, 0, n, low);
                match search_words(data, at, 2, 0, n, low) {
                    Some(k) => {
                        assert(u16_at(data, at + 2 * k) == low);
                    },
                    None => {},
                }
            }
            assert(container_answer(data, l, i, low) == container_holds(data, l, i, low));
        },
        None => {
            assert forall|j: int| 0 <= j < l.count implies #[trigger] l.key(data, j) != high by {
                assert(u16_at(data, l.desc + 4 * j) != high);
            }
        },
    }
}

/// What a container without runs stores: up to 4096 values one after the other, or
/// a bit for each possible value.
pub proof fn law_container_stores(data: Seq<u8>, l: Layout, i: int, low: int)
    ensures
        l.cardinality(data, i) <= 4096 ==> (container_stores(data, l, i, low) <==> exists|k: int|
            0 <= k < l.cardinality(data, i) && #[trigger] u16_at(data, l.offset(data, i) + 2 * k)
                == low),
        l.cardinality(data, i) > 4096 ==> (container_stores(data, l, i, low) <==> bit_set(
            data[l.offset(data, i) + low / 8],
            low % 8,
        )),
{
}

/// A value is stored by a container with its upper half that stores its lower half.
pub proof fn law_stored(data: Seq<u8>, value: u32)
    ensures
        stored(data, value) <==> exists|i: int|
            0 <= i < layout(data)->0.count && #[trigger] layout(data)->0.key(data, i) == value
                as int / 65536 && container_stores(
                data,
                layout(data)->0,
                i,
                value as int % 65536,
            ),
{
}

/// A run covers its first value and as many behind it as it says.
pub proof fn law_runs(data: Seq<u8>, base: int, lo: int, hi: int, target: int)
    ensures
        run_covers(data, base, lo, hi, target) <==> exists|i: int|
            lo <= i < hi && (#[trigger] u16_at(data, base + 4 * i)) <= target <= u16_at(
                data,
                base + 4 * i,
            ) + u16_at(data, base + 4 * i + 2),
        runs_sound(data, base, hi) <==> (forall|i: int|
            0 <= i < hi ==> #[trigger] u16_at(data, base + 4 * i) + u16_at(data, base + 4 * i + 2)
                < 65536) && (forall|i: int, j: int|
            0 <= i < j < hi ==> #[trigger] u16_at(data, base + 4 * i) + u16_at(
                data,
                base + 4 * i + 2,
            ) < #[trigger] u16_at(data, base + 4 * j)),
{
    if run_covers(data, base, lo, hi, target) {
        let i = choose|i: int|
            lo <= i < hi && #[trigger] u16_at(data, base + 4 * i) <= target && target <= u16_at(
                data,
                base + 4 * i,
            ) + u16_at(data, base + 4 * i + 2);
        assert(u16_at(data, base + 4 * i) <= target);
    }
    if exists|i: int|
        lo <= i < hi && (#[trigger] u16_at(data, base + 4 * i)) <= target <= u16_at(
            data,
            base + 4 * i,
        ) + u16_at(data, base + 4 * i + 2) {
        let i = choose|i: int|
            lo <= i < hi && (#[trigger] u16_at(data, base + 4 * i)) <= target <= u16_at(
                data,
                base + 4 * i,
            ) + u16_at(data, base + 4 * i + 2);
        assert(u16_at(data, base + 4 * i) <= target);
    }
}

/// What it is for data to be in order: words ascend, and every container lies within
/// the data, sorted if it is an array, with its runs apart if it holds runs.
pub proof fn law_in_order(data: Seq<u8>, l: Layout, i: int, base: int, stride: int, count: int)
    ensures
        ascending_words(data, base, stride, count) <==> forall|a: int, b: int|
            0 <= a < b < count ==> #[trigger] u16_at(data, base + stride * a) < #[trigger] u16_at(
                data,
                base + stride * b,
            ),
        l.cardinality(data, i) <= 4096 ==> (container_sound(data, l, i) <==> l.offset(data, i) + 2
            * l.cardinality(data, i) <= data.len() && ascending_words(
            data,
            l.offset(data, i),
            2,
            l.cardinality(data, i),
        )),
        l.cardinality(data, i) > 4096 ==> (container_sound(data, l, i) <==> l.offset(data, i) + 8192
            <= data.len()),
        l.is_run(data, i) ==> (container_in_order(data, l, i) <==> l.offset(data, i) + 2 + 4
            * u16_at(data, l.offset(data, i)) <= data.len() && runs_sound(
            data,
            l.offset(data, i) + 2,
            u16_at(data, l.offset(data, i)),
        )),
        !l.is_run(data, i) ==> (container_in_order(data, l, i) <==> container_sound(data, l, i)),
        well_laid_out(data) <==> (layout(data) matches Some(x) && !x.runs && x.desc + 8 * x.count
            <= data.len() && ascending_words(data, x.desc, 4, x.count) && forall|k: int|
            0 <= k < x.count ==> #[trigger] container_sound(data, x, k)),
{
}

/// What it is for a container to hold the lower half of a value.
pub proof fn law_container_holds(data: Seq<u8>, l: Layout, i: int, low: int)
    ensures
        l.is_run(data, i) ==> (container_holds(data, l, i, low) <==> run_covers(
            data,
            l.offset(data, i) + 2,
            0,
            u16_at(data, l.offset(data, i)),
            low,
        )),
        !l.is_run(data, i) ==> (container_holds(data, l, i, low) <==> container_stores(
            data,
            l,
            i,
            low,
        )),
{
}

} // verus!
