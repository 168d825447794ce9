//! Part files: their paths, their names, and what they hold.
//!
//! ```text
//! parts/
//!   {event}/
//!     {granularity}/
//!       {period_key}.{part_id:012}.roar      data
//!       {period_key}.d_{part_id:012}.roar    delta
//! ```

use vstd::prelude::*;
use vstd::std_specs::hash::*;
use vstd::string::*;
use vstd::utf8::*;
use std::collections::HashSet;

use roaring::RoaringBitmap;

use crate::bitmap::{
    canonical, compact, deserialize, deserialized, keys_ascend, members, ordered, portable_bytes,
    rebuild, serialize, without_runs,
};
use crate::error::{ErrorView, InoxSetError};
use crate::period::{key_text, lemma_key_chars, period_with_key};
use crate::portable::{
    layout, membership_answer, read_u16, read_u32, stored, COOKIE_NO_RUNS, COOKIE_RUNS,
};
use crate::text::{
    ascii_bytes, lemma_ascii_encoding, lemma_padded_parses, padded, parse_unsigned,
    parse_unsigned_spec, push_padded, str_eq,
};
use crate::types::{Granularity, PartKind, Period};

pub use crate::portable::serialized_contains;

verus! {

broadcast use group_hash_axioms;

// ---------------------------------------------------------------------------
// Paths and names
// ---------------------------------------------------------------------------

/// A path with a segment behind it. An absolute segment replaces the path.
pub open spec fn path_join(base: Seq<char>, segment: Seq<char>) -> Seq<char> {
    if segment.len() > 0 && segment[0] == '/' {
        segment
    } else if base.len() == 0 || base.last() == '/' {
        base + segment
    } else {
        base + "/"@ + segment
    }
}

/// The name of a part file.
pub open spec fn part_file_name(period: Period, part_id: u64, kind: PartKind) -> Seq<char> {
    let infix = if kind == PartKind::Data {
        "."@
    } else {
        ".d_"@
    };
    key_text(period) + infix + padded(part_id as nat, 12) + ".roar"@
}

/// The path of a part file.
pub open spec fn part_path(
    root: Seq<char>,
    event: Seq<char>,
    gran: Granularity,
    period: Period,
    part_id: u64,
    kind: PartKind,
) -> Seq<char> {
    path_join(
        path_join(path_join(root, event), gran.dir_text()),
        part_file_name(period, part_id, kind),
    )
}

fn is_absolute(segment: &str) -> (r: bool)
    ensures
        r == (segment@.len() > 0 && segment@[0] == '/'),
{
    segment.unicode_len() > 0 && segment.get_char(0) == '/'
}

/// Returns a path with a segment behind it.
pub fn join(base: &str, segment: &str) -> (r: String)
    ensures
        r@ == path_join(base@, segment@),
{
    if is_absolute(segment) {
        return segment.to_owned();
    }
    let n: usize = base.unicode_len();
    let mut out = base.to_owned();
    if n > 0 && base.get_char(n - 1) != '/' {
        out.append("/");
    }
    out.append(segment);
    assert(out@ =~= path_join(base@, segment@));
    out
}

/// Returns the path of a part file below `parts_root`.
pub fn part_file_path(
    parts_root: &str,
    event: &str,
    gran: Granularity,
    period: &Period,
    part_id: u64,
    kind: PartKind,
) -> (r: String)
    ensures
        r@ == part_path(parts_root@, event@, gran, *period, part_id, kind),
{
    let dir = join(join(parts_root, event).as_str(), gran.dir_name());
    join(dir.as_str(), file_name(period, part_id, kind).as_str())
}

fn file_name(period: &Period, part_id: u64, kind: PartKind) -> (r: String)
    ensures
        r@ == part_file_name(*period, part_id, kind),
{
    let mut name = period.key();
    match kind {
        PartKind::Data => name.append("."),
        PartKind::Delta => name.append(".d_"),
    }
    push_padded(&mut name, part_id, 12);
    name.append(".roar");
    assert(name@ =~= part_file_name(*period, part_id, kind));
    name
}

/// Whether `name` is the name of a part file with this identifier, for some
/// period and kind.
pub open spec fn names_part(name: Seq<char>, part_id: u64) -> bool {
    exists|period: Period, kind: PartKind| name == part_file_name(period, part_id, kind)
}

/// The part identifier in a file name; `None` if it is not the name of a part
/// file.
pub open spec fn part_id_in(name: Seq<char>) -> Option<u64> {
    if exists|id: u64| names_part(name, id) {
        Some(choose|id: u64| names_part(name, id))
    } else {
        None
    }
}

/// What stands between the period key and the digits of a part file name.
spec fn infix_of(kind: PartKind) -> Seq<char> {
    if kind == PartKind::Data {
        "."@
    } else {
        ".d_"@
    }
}

/// What is known of the characters of a part file name.
proof fn lemma_part_name(period: Period, part_id: u64, kind: PartKind)
    ensures
        ({
            let name = part_file_name(period, part_id, kind);
            let key = key_text(period);
            let digits = padded(part_id as nat, 12);
            let at = key.len() as int + infix_of(kind).len();
            let end = name.len() - 5;
            &&& is_ascii_chars(name)
            &&& name.len() >= 5
            &&& name.subrange(end as int, name.len() as int) == ".roar"@
            &&& name.subrange(0, key.len() as int) == key
            &&& name[key.len() as int] == '.'
            &&& forall|i: int| key.len() < i < end ==> #[trigger] name[i] != '.'
            &&& name.subrange(at, end as int) == digits
            &&& at < end
            &&& kind == PartKind::Data ==> '0' <= name[key.len() as int + 1] <= '9'
            &&& kind == PartKind::Delta ==> name[key.len() as int + 1] == 'd' && name[key.len()
                as int + 2] == '_'
        }),
{
    reveal_strlit(".");
    reveal_strlit(".d_");
    reveal_strlit(".roar");
    lemma_key_chars(period);
    lemma_padded_parses(part_id as nat, 12, u64::MAX as nat);
    let name = part_file_name(period, part_id, kind);
    let key = key_text(period);
    let infix = infix_of(kind);
    let digits = padded(part_id as nat, 12);
    let n = key.len() as int;
    let at = n + infix.len();
    let end = at + digits.len();
    assert(name =~= key + infix + digits + ".roar"@);
    assert(name.subrange(0, n) =~= key);
    assert(name.subrange(at, end) =~= digits);
    assert(name.subrange(end, name.len() as int) =~= ".roar"@);
    assert forall|i: int| 0 <= i < name.len() implies '\0' <= #[trigger] name[i] <= '\u{7f}' by {
        if i < n {
            assert(name[i] == key[i]);
        } else if at <= i < end {
            assert(name[i] == digits[i - at]);
        }
    }
    assert forall|i: int| n < i < end implies #[trigger] name[i] != '.' by {
        if at <= i {
            assert(name[i] == digits[i - at]);
        }
    }
    assert(name[at] == digits[0]);
}

/// A part file name tells its period, its identifier and its kind.
pub proof fn law_part_name_injective(
    a: Period,
    id_a: u64,
    kind_a: PartKind,
    b: Period,
    id_b: u64,
    kind_b: PartKind,
)
    requires
        part_file_name(a, id_a, kind_a) == part_file_name(b, id_b, kind_b),
    ensures
        a == b,
        id_a == id_b,
        kind_a == kind_b,
{
    let name = part_file_name(a, id_a, kind_a);
    let x = key_text(a).len() as int;
    let y = key_text(b).len() as int;
    lemma_part_name(a, id_a, kind_a);
    lemma_part_name(b, id_b, kind_b);
    reveal_strlit(".");
    reveal_strlit(".d_");
    assert(name[x] == '.' && name[y] == '.');
    assert(x == y);
    crate::period::law_key_injective(a, b);
    if kind_a != kind_b {
        assert(name[x + 1] == 'd');
    }
    lemma_padded_parses(id_a as nat, 12, u64::MAX as nat);
    lemma_padded_parses(id_b as nat, 12, u64::MAX as nat);
}

/// A file name gives exactly the identifier of the part file that it names.
pub proof fn law_part_id_in_name(name: Seq<char>, id: u64)
    ensures
        part_id_in(name) == Some(id) <==> names_part(name, id),
{
    if names_part(name, id) {
        let other = choose|other: u64| names_part(name, other);
        let (p, k) = choose|p: Period, k: PartKind| name == part_file_name(p, id, k);
        let (q, l) = choose|q: Period, l: PartKind| name == part_file_name(q, other, l);
        law_part_name_injective(p, id, k, q, other, l);
    }
}

/// The position of the last dot before `end`.
fn last_dot(bytes: &[u8], end: usize) -> (r: Option<usize>)
    requires
        end <= bytes.len(),
    ensures
        match r {
            Some(i) => i < end && bytes@[i as int] == 46 && forall|k: int|
                i < k < end ==> bytes@[k] != 46,
            None => forall|k: int| 0 <= k < end ==> bytes@[k] != 46,
        },
{
    let mut i: usize = end;
    while i > 0
        invariant
            i <= end <= bytes.len(),
            forall|k: int| i <= k < end ==> bytes@[k] != 46,
        decreases i,
    {
        if bytes[i - 1] == 46 {
            return Some(i - 1);
        }
        i = i - 1;
    }
    None
}

/// Returns the part identifier in a file name, or `None` if the name is not
/// that of a part file.
pub fn extract_part_id_from_filename(filename: &str) -> (r: Option<u64>)
    ensures
        r == part_id_in(filename@),
        forall|id: u64| #[trigger] names_part(filename@, id) <==> r == Some(id),
{
    let r = read_part_name(filename);
    proof {
        let name = filename@;
        assert forall|id: u64| #[trigger] names_part(name, id) <==> r == Some(id) by {
            law_part_id_in_name(name, id);
            if r is Some {
                law_part_id_in_name(name, r->0);
            }
        }
    }
    r
}

/// Reads the fields of a name and compares it with the name that they give.
fn read_part_name(filename: &str) -> (r: Option<u64>)
    ensures
        match r {
            Some(id) => names_part(filename@, id),
            None => forall|id: u64| !#[trigger] names_part(filename@, id),
        },
{
    let ghost name = filename@;
    if !filename.is_ascii() {
        proof {
            assert forall|p: Period, id: u64, k: PartKind| #[trigger]
                part_file_name(p, id, k) != name by {
                lemma_part_name(p, id, k);
            }
        }
        return None;
    }
    let bytes = filename.as_bytes();
    let n: usize = bytes.len();
    proof {
        lemma_ascii_encoding(name);
        assert forall|p: Period, id: u64, k: PartKind| #[trigger]
            part_file_name(p, id, k) == name implies n >= 5 by {
            lemma_part_name(p, id, k);
        }
    }
    if n < 5 {
        return None;
    }
    let end: usize = n - 5;
    let dot: usize = match last_dot(bytes, end) {
        Some(i) => i,
        None => {
            proof {
                assert forall|p: Period, id: u64, k: PartKind| #[trigger]
                    part_file_name(p, id, k) != name by {
                    if part_file_name(p, id, k) == name {
                        lemma_fields(bytes@, name, p, id, k);
                    }
                }
            }
            return None;
        },
    };
    let is_delta = end - dot >= 3 && bytes[dot + 1] == 100 && bytes[dot + 2] == 95;
    let start: usize = if is_delta {
        dot + 3
    } else {
        dot + 1
    };
    let kind = if is_delta {
        PartKind::Delta
    } else {
        PartKind::Data
    };
    proof {
        assert forall|p: Period, id: u64, k: PartKind| #[trigger]
            part_file_name(p, id, k) == name implies {
            &&& k == kind
            &&& key_text(p) == name.subrange(0, dot as int)
            &&& parse_unsigned_spec(bytes@.subrange(start as int, end as int), u64::MAX as nat)
                == Some(id as nat)
        } by {
            lemma_fields(bytes@, name, p, id, k);
        }
    }
    let id: u64 = match parse_unsigned(
        vstd::slice::slice_subrange(bytes, start, end),
        u64::MAX,
    ) {
        Some(v) => v,
        None => {
            return None;
        },
    };
    match period_with_key(filename.substring_ascii(0, dot)) {
        Some(period) => {
            proof {
                assert forall|p: Period, other: u64, k: PartKind| #[trigger]
                    part_file_name(p, other, k) == name implies name == part_file_name(
                    period,
                    id,
                    kind,
                ) by {
                    crate::period::law_key_injective(p, period);
                }
            }
            if str_eq(file_name(&period, id, kind).as_str(), filename) {
                Some(id)
            } else {
                None
            }
        },
        None => None,
    }
}

/// Where the fields of a part file name stand in its bytes.
proof fn lemma_fields(bytes: Seq<u8>, name: Seq<char>, period: Period, id: u64, kind: PartKind)
    requires
        name == part_file_name(period, id, kind),
        bytes == ascii_bytes(name),
    ensures
        ({
            let dot = key_text(period).len() as int;
            let end = name.len() - 5;
            let start = if kind == PartKind::Delta {
                dot + 3
            } else {
                dot + 1
            };
            &&& 0 <= dot < end
            &&& bytes[dot] == 46
            &&& forall|k: int| dot < k < end ==> bytes[k] != 46
            &&& forall|at: int|
                0 <= at < end && bytes[at] == 46 && (forall|k: int| at < k < end ==> bytes[k] != 46)
                    ==> at == dot
            &&& name.subrange(0, dot) == key_text(period)
            &&& start <= end
            &&& (end - dot >= 3 && bytes[dot + 1] == 100 && bytes[dot + 2] == 95) == (kind
                == PartKind::Delta)
            &&& parse_unsigned_spec(bytes.subrange(start, end as int), u64::MAX as nat) == Some(
                id as nat,
            )
        }),
{
    lemma_part_name(period, id, kind);
    reveal_strlit(".");
    reveal_strlit(".d_");
    let dot = key_text(period).len() as int;
    let end = name.len() - 5;
    let start = if kind == PartKind::Delta {
        dot + 3
    } else {
        dot + 1
    };
    let digits = padded(id as nat, 12);
    lemma_padded_parses(id as nat, 12, u64::MAX as nat);
    assert(start == dot + infix_of(kind).len());
    assert(bytes.subrange(start, end as int) =~= ascii_bytes(digits)) by {
        assert(name.subrange(start, end as int) == digits);
        assert forall|i: int| 0 <= i < digits.len() implies bytes.subrange(start, end as int)[i]
            == ascii_bytes(digits)[i] by {
            assert(name.subrange(start, end as int)[i] == name[start + i]);
        }
    }
    assert forall|k: int| dot < k < end implies bytes[k] != 46 by {
        assert(name[k] != '.');
        assert('\0' <= name[k] <= '\u{7f}');
    }
}

// ---------------------------------------------------------------------------
// Orphans
// ---------------------------------------------------------------------------

/// A regular file found below the parts directory.
pub struct FoundFile {
    /// Its path.
    pub path: String,
    /// Its file name.
    pub name: String,
}

/// Whether a file is a part file that the catalog does not know.
pub open spec fn is_orphan(name: Seq<char>, known_ids: Set<u64>) -> bool {
    part_id_in(name) matches Some(id) && !known_ids.contains(id)
}

/// The paths of the orphans among `files`, in order.
pub open spec fn orphan_paths(files: Seq<FoundFile>, known_ids: Set<u64>) -> Seq<Seq<char>> {
    files.filter(|f: FoundFile| is_orphan(f.name@, known_ids)).map_values(|f: FoundFile| f.path@)
}

proof fn lemma_orphan_paths_step(files: Seq<FoundFile>, known_ids: Set<u64>)
    requires
        files.len() > 0,
    ensures
        orphan_paths(files, known_ids) == if is_orphan(files.last().name@, known_ids) {
            orphan_paths(files.drop_last(), known_ids).push(files.last().path@)
        } else {
            orphan_paths(files.drop_last(), known_ids)
        },
{
    let pred = |f: FoundFile| is_orphan(f.name@, known_ids);
    let init = files.drop_last().filter(pred);
    reveal(Seq::filter);
    assert(files.filter(pred) == if pred(files.last()) {
        init.push(files.last())
    } else {
        init
    });
    assert(init.push(files.last()).map_values(|f: FoundFile| f.path@) =~= init.map_values(
        |f: FoundFile| f.path@,
    ).push(files.last().path@));
}

/// Returns the paths of those files whose name is that of a part file with an
/// identifier not in `known_ids`. Other names are skipped.
pub fn scan_orphans(files: &Vec<FoundFile>, known_ids: &HashSet<u64>) -> (r: Vec<String>)
    ensures
        r@.map_values(|p: String| p@) == orphan_paths(files@, known_ids@),
{
    let mut orphans: Vec<String> = Vec::new();
    let mut i: usize = 0;
    proof {
        reveal(Seq::filter);
        assert(files@.subrange(0, 0) =~= Seq::empty());
        assert(orphan_paths(files@.subrange(0, 0), known_ids@) =~= Seq::empty());
        assert(orphans@.map_values(|p: String| p@) =~= Seq::empty());
    }
    while i < files.len()
        invariant
            i <= files@.len(),
            orphans@.map_values(|p: String| p@) == orphan_paths(
                files@.subrange(0, i as int),
                known_ids@,
            ),
        decreases files@.len() - i,
    {
        let ghost upto = files@.subrange(0, i + 1);
        assert(upto.drop_last() =~= files@.subrange(0, i as int));
        proof {
            lemma_orphan_paths_step(upto, known_ids@);
        }
        match extract_part_id_from_filename(files[i].name.as_str()) {
            Some(id) => {
                if !known_ids.contains(&id) {
                    let ghost before = orphans@;
                    orphans.push(files[i].path.clone());
                    assert(orphans@.map_values(|p: String| p@) =~= before.map_values(
                        |p: String| p@,
                    ).push(files[i as int].path@));
                }
            },
            None => {},
        }
        i = i + 1;
    }
    assert(files@.subrange(0, i as int) =~= files@);
    orphans
}

// ---------------------------------------------------------------------------
// Contents
// ---------------------------------------------------------------------------

/// The error for bytes that are no bitmap. It names neither event nor period,
/// which only the caller knows.
pub open spec fn corrupted() -> ErrorView {
    ErrorView::BitmapCorrupted { event: Seq::empty(), period: Period::Static }
}

/// Returns the bytes of a part file that holds `bitmap`. They depend on the
/// members alone: a bitmap in another shape than its operations keep, as decoding
/// a foreign file can give, is brought into that shape first, in which alone its
/// bytes can be read back.
pub fn encode_part(bitmap: &RoaringBitmap) -> (r: Vec<u8>)
    ensures
        keys_ascend(r@),
        without_runs(r@),
        deserialized(r@) matches Some(set) && r@ == portable_bytes(set) && forall|v: u32| #[trigger]
            membership_answer(r@, v) == set.contains(v),
        ordered(*bitmap) ==> deserialized(r@) == Some(members(*bitmap)) && r@ == portable_bytes(
            members(*bitmap),
        ),
{
    let bitmap = &rebuild(bitmap);
    let bytes = serialize(bitmap);
    proof {
        let l = layout(bytes@)->0;
        assert forall|i: int| 0 <= i && i + 1 < l.count implies #[trigger] l.key(bytes@, i) < l.key(
            bytes@,
            i + 1,
        ) by {
            assert(crate::portable::u16_at(bytes@, l.desc + 4 * i) < crate::portable::u16_at(
                bytes@,
                l.desc + 4 * (i + 1),
            ));
        }
        assert forall|v: u32| #[trigger] membership_answer(bytes@, v) == members(*bitmap).contains(
            v,
        ) by {
            crate::portable::law_answer_is_stored(bytes@, v);
            assert(stored(bytes@, v) == members(*bitmap).contains(v));
        }
    }
    bytes
}

/// Returns the bitmap that the bytes of a part file hold, or
/// [`InoxSetError::BitmapCorrupted`].
pub fn decode_part(bytes: &[u8]) -> (r: Result<RoaringBitmap, InoxSetError>)
    ensures
        match r {
            Ok(b) => {
                &&& deserialized(bytes@) == Some(members(b))
                &&& keys_ascend(bytes@) ==> ordered(b)
                &&& without_runs(bytes@) ==> compact(b)
            },
            Err(e) => deserialized(bytes@) is None && e@ == corrupted(),
        },
{
    match deserialize(bytes) {
        Some(b) => Ok(b),
        None => {
            let event = String::new();
            assert(event@ =~= Seq::empty());
            Err(InoxSetError::BitmapCorrupted { event, period: Period::Static })
        },
    }
}

/// Returns whether serialized data has no run containers.
pub fn has_no_runs(data: &[u8]) -> (r: bool)
    ensures
        r == without_runs(data@),
{
    data.len() >= 8 && read_u32(data, 0) == COOKIE_NO_RUNS
}

/// Returns whether the container keys of serialized data ascend.
pub fn has_ascending_keys(data: &[u8]) -> (r: bool)
    ensures
        r == keys_ascend(data@),
{
    if data.len() < 4 {
        return false;
    }
    let count: usize;
    let desc: usize;
    if read_u32(data, 0) == COOKIE_NO_RUNS {
        if data.len() < 8 {
            return false;
        }
        count = read_u32(data, 4);
        desc = 8;
    } else if read_u16(data, 0) == COOKIE_RUNS {
        count = read_u16(data, 2) + 1;
        desc = 4 + (count + 7) / 8;
    } else {
        return false;
    }
    let ghost l = layout(data@)->0;
    if desc > data.len() || count > (data.len() - desc) / 4 {
        return false;
    }
    let mut i: usize = 1;
    while i < count
        invariant
            1 <= i,
            i <= count || count == 0,
            desc + 4 * count <= data.len(),
            layout(data@) == Some(l),
            l.count == count,
            l.desc == desc,
            forall|k: int| 0 <= k && k + 1 < i ==> #[trigger] l.key(data@, k) < l.key(data@, k + 1),
        decreases count - i,
    {
        if read_u16(data, desc + 4 * (i - 1)) >= read_u16(data, desc + 4 * i) {
            assert(l.key(data@, i - 1) >= l.key(data@, i as int));
            return false;
        }
        i = i + 1;
    }
    true
}

/// Files up to this size are read whole; larger ones are mapped.
pub const DIRECT_READ_LIMIT: u64 = 65536;

/// Returns whether a membership test reads a file of this size whole in place
/// of mapping it.
pub fn reads_directly(file_size: u64) -> (r: bool)
    ensures
        r == (file_size <= DIRECT_READ_LIMIT),
{
    file_size <= DIRECT_READ_LIMIT
}

/// Returns the bitmap as it is read back from the bytes of a part file that
/// holds it: the same members, in the layout that reading gives.
pub fn round_trip(bitmap: &RoaringBitmap) -> (r: Result<RoaringBitmap, InoxSetError>)
    ensures
        r matches Ok(b) && canonical(b) && (ordered(*bitmap) ==> members(b) == members(*bitmap)),
{
    let bytes = encode_part(bitmap);
    decode_part(bytes.as_slice())
}

// ---------------------------------------------------------------------------
// Laws
// ---------------------------------------------------------------------------

/// How a part file is named: the key of its period, a dot, `d_` for a delta part,
/// the identifier in at least twelve digits, and `.roar`.
pub proof fn law_part_name_format(period: Period, id: u64, kind: PartKind)
    ensures
        part_file_name(period, id, PartKind::Data) == key_text(period) + seq!['.'] + padded(
            id as nat,
            12,
        ) + seq!['.', 'r', 'o', 'a', 'r'],
        part_file_name(period, id, PartKind::Delta) == key_text(period) + seq!['.', 'd', '_']
            + padded(id as nat, 12) + seq!['.', 'r', 'o', 'a', 'r'],
        part_file_name(period, id, kind).len() >= key_text(period).len() + 18,
{
    reveal_strlit(".");
    reveal_strlit(".d_");
    reveal_strlit(".roar");
    crate::text::law_padded_digits(id as nat, 12, 0);
    assert("."@ =~= seq!['.']);
    assert(".d_"@ =~= seq!['.', 'd', '_']);
    assert(".roar"@ =~= seq!['.', 'r', 'o', 'a', 'r']);
}

/// Paths are joined with one slash between them; an absolute path stands for
/// itself.
pub proof fn law_path_join(base: Seq<char>, segment: Seq<char>)
    ensures
        segment.len() > 0 && segment[0] == '/' ==> path_join(base, segment) == segment,
        !(segment.len() > 0 && segment[0] == '/') && base.len() > 0 && base.last() != '/'
            ==> path_join(base, segment) == base + seq!['/'] + segment,
        !(segment.len() > 0 && segment[0] == '/') && base.len() > 0 && base.last() == '/'
            ==> path_join(base, segment) == base + segment,
        !(segment.len() > 0 && segment[0] == '/') && base.len() == 0 ==> path_join(base, segment)
            == segment,
{
    reveal_strlit("/");
    assert("/"@ =~= seq!['/']);
    assert(Seq::<char>::empty() + segment =~= segment);
    if base.len() == 0 {
        assert(base =~= Seq::<char>::empty());
    }
}

/// Where a part file stands: below the root, in a directory for its event and in
/// one for its granularity.
pub proof fn law_part_path(
    root: Seq<char>,
    event: Seq<char>,
    gran: Granularity,
    period: Period,
    id: u64,
    kind: PartKind,
)
    requires
        root.len() > 0,
        root.last() != '/',
        crate::error::valid_event_name(event),
    ensures
        part_path(root, event, gran, period, id, kind) == root + seq!['/'] + event + seq!['/']
            + gran.dir_text() + seq!['/'] + part_file_name(period, id, kind),
{
    reveal_strlit("/");
    reveal_strlit("none");
    reveal_strlit("hour");
    reveal_strlit("day");
    reveal_strlit("month");
    reveal_strlit("year");
    reveal_strlit("_static");
    assert("/"@ =~= seq!['/']);
    assert(crate::error::is_event_char(event[0]));
    assert(crate::error::is_event_char(event[event.len() - 1]));
    lemma_key_chars(period);
    lemma_part_name(period, id, kind);
    let name = part_file_name(period, id, kind);
    assert(name[0] == key_text(period)[0]) by {
        assert(key_text(period).len() > 0);
        assert(name.subrange(0, key_text(period).len() as int)[0] == key_text(period)[0]);
    }
    assert(name[0] != '/');
}

/// The path of a part file is its directories joined one after the other, whatever
/// root and event are.
pub proof fn law_part_path_is_joined(
    root: Seq<char>,
    event: Seq<char>,
    gran: Granularity,
    period: Period,
    id: u64,
    kind: PartKind,
)
    ensures
        ({
            let directory = path_join(path_join(root, event), gran.dir_text());
            part_path(root, event, gran, period, id, kind) == if directory.last() == '/' {
                directory + part_file_name(period, id, kind)
            } else {
                directory + seq!['/'] + part_file_name(period, id, kind)
            }
        }),
{
    reveal_strlit("/");
    reveal_strlit("none");
    reveal_strlit("hour");
    reveal_strlit("day");
    reveal_strlit("month");
    reveal_strlit("year");
    reveal_strlit("_static");
    assert("/"@ =~= seq!['/']);
    lemma_key_chars(period);
    lemma_part_name(period, id, kind);
    let name = part_file_name(period, id, kind);
    assert(key_text(period).len() > 0);
    assert(name.subrange(0, key_text(period).len() as int)[0] == key_text(period)[0]);
    assert(name[0] != '/');
    assert(path_join(path_join(root, event), gran.dir_text()).len() > 0);
}

/// The files to remove are exactly those with the name of a part file whose
/// identifier the catalog does not know.
pub proof fn law_orphans(files: Seq<FoundFile>, known_ids: Set<u64>, path: Seq<char>)
    ensures
        orphan_paths(files, known_ids).contains(path) <==> exists|
            i: int,
            period: Period,
            id: u64,
            kind: PartKind,
        |
            0 <= i < files.len() && (#[trigger] files[i]).path@ == path && files[i].name@
                == #[trigger] part_file_name(period, id, kind) && !known_ids.contains(id),
{
    lemma_orphans(files, known_ids, path);
    if orphan_paths(files, known_ids).contains(path) {
        let i = choose|i: int|
            0 <= i < files.len() && (#[trigger] files[i]).path@ == path && is_orphan(
                files[i].name@,
                known_ids,
            );
        let name = files[i].name@;
        let id = part_id_in(name)->0;
        law_part_id_in_name(name, id);
        let (period, kind) = choose|period: Period, kind: PartKind|
            name == part_file_name(period, id, kind);
        assert(files[i].name@ == part_file_name(period, id, kind));
    }
    if exists|i: int, period: Period, id: u64, kind: PartKind|
        0 <= i < files.len() && (#[trigger] files[i]).path@ == path && files[i].name@
            == #[trigger] part_file_name(period, id, kind) && !known_ids.contains(id) {
        let (i, period, id, kind) = choose|i: int, period: Period, id: u64, kind: PartKind|
            0 <= i < files.len() && (#[trigger] files[i]).path@ == path && files[i].name@
                == #[trigger] part_file_name(period, id, kind) && !known_ids.contains(id);
        assert(names_part(files[i].name@, id));
        law_part_id_in_name(files[i].name@, id);
        assert(is_orphan(files[i].name@, known_ids));
    }
}

proof fn lemma_orphans(files: Seq<FoundFile>, known_ids: Set<u64>, path: Seq<char>)
    ensures
        orphan_paths(files, known_ids).contains(path) <==> exists|i: int|
            0 <= i < files.len() && (#[trigger] files[i]).path@ == path && is_orphan(
                files[i].name@,
                known_ids,
            ),
    decreases files.len(),
{
    if files.len() == 0 {
        reveal(Seq::filter);
        assert(orphan_paths(files, known_ids) =~= Seq::empty());
    } else {
        let init = files.drop_last();
        let front = orphan_paths(init, known_ids);
        let whole = orphan_paths(files, known_ids);
        lemma_orphan_paths_step(files, known_ids);
        lemma_orphans(init, known_ids, path);
        assert(files[files.len() - 1] == files.last());
        if front.contains(path) {
            let k = choose|k: int| 0 <= k < front.len() && front[k] == path;
            assert(whole[k] == path);
            let i = choose|i: int|
                0 <= i < init.len() && (#[trigger] init[i]).path@ == path && is_orphan(
                    init[i].name@,
                    known_ids,
                );
            assert(files[i] == init[i]);
        }
        if whole.contains(path) && !front.contains(path) {
            let k = choose|k: int| 0 <= k < whole.len() && whole[k] == path;
            if k < front.len() {
                assert(front[k] == path);
            }
        }
        if exists|i: int|
            0 <= i < files.len() && (#[trigger] files[i]).path@ == path && is_orphan(
                files[i].name@,
                known_ids,
            ) {
            let i = choose|i: int|
                0 <= i < files.len() && (#[trigger] files[i]).path@ == path && is_orphan(
                    files[i].name@,
                    known_ids,
                );
            if i < init.len() {
                assert(init[i] == files[i]);
            } else {
                assert(whole[whole.len() - 1] == path);
            }
        }
    }
}

/// A file name gives an identifier exactly if some period and kind are named with
/// it so.
pub proof fn law_named_identifier(name: Seq<char>, id: u64)
    ensures
        part_id_in(name) == Some(id) <==> exists|period: Period, kind: PartKind|
            name == part_file_name(period, id, kind),
{
    law_part_id_in_name(name, id);
}

/// The error for bytes that are no bitmap names neither event nor period.
pub proof fn law_corrupted()
    ensures
        corrupted() == (ErrorView::BitmapCorrupted { event: Seq::empty(), period: Period::Static }),
{
}

} // verus!
