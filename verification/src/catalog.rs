//! The catalog: event configurations, part metadata, the parts of each period,
//! period states, and the dictionary's tables.
//!
//! | Table | Key | Value |
//! |---|---|---|
//! | `events` | event name | encoded configuration |
//! | `parts` | part identifier | encoded part |
//! | `period_parts` | `event/granularity/period` | encoded list of identifiers |
//! | `period_deltas` | `event/granularity/period` | encoded list of identifiers |
//! | `period_state` | `event/granularity/period` | state byte |
//! | `compaction_log` | timestamp | encoded record |
//!
//! A [`Catalog`] holds the rows that a transaction works on. An operation that
//! fails leaves all of them as they were. LMDB, which keeps the rows, takes no
//! empty text key and none of more than [`MAX_KEY_LEN`] bytes: an operation on
//! an empty key fails, and so does one that would write a longer key.

use vstd::prelude::*;
use vstd::string::*;
use vstd::utf8::*;

use crate::codec::{
    compaction_bytes, corrupt, decodes_as, deserialize_event_config, deserialize_part,
    deserialize_u64_vec, event_bytes, event_in, list_bytes, list_in, part_bytes, part_in,
    serialize_compaction, serialize_event_config, serialize_part, serialize_u64_vec,
};
use crate::error::{ErrorView, InoxSetError};
use crate::order::{has_prefix, keys_of_both, keys_with_prefix, listing, lists, texts};
use crate::table::{Key, Table};
use crate::text::{decimal, push_decimal};
use crate::types::{configured, ConfigView, EventConfig, Granularity, Part, PartView, PeriodState, Rollup};

verus! {

/// The longest text key of a table in bytes.
pub const MAX_KEY_LEN: usize = 511;

/// Rows by text key.
pub type Rows = Map<Seq<char>, Seq<u8>>;

/// Rows by number.
pub type IdRows = Map<u64, Seq<u8>>;

/// The contents of a [`Catalog`].
#[verifier::ext_equal]
pub struct CatalogView {
    pub events: Rows,
    pub parts: IdRows,
    pub period_parts: Rows,
    pub period_deltas: Rows,
    pub period_state: Rows,
    pub compaction_log: IdRows,
    pub next_part_id: Option<u64>,
    pub dict_fwd: Map<Seq<char>, u64>,
    pub dict_rev: Map<u64, Seq<char>>,
    pub dict_next_id: Option<u64>,
}

/// The rows of all tables.
pub struct Catalog {
    /// Event configurations by name.
    pub events: Table<String, Vec<u8>>,
    /// Parts by identifier.
    pub parts: Table<u64, Vec<u8>>,
    /// Data parts of each period.
    pub period_parts: Table<String, Vec<u8>>,
    /// Delta parts of each period.
    pub period_deltas: Table<String, Vec<u8>>,
    /// State of each period.
    pub period_state: Table<String, Vec<u8>>,
    /// Compaction records by timestamp.
    pub compaction_log: Table<u64, Vec<u8>>,
    /// The next part identifier, once one was taken.
    pub next_part_id: Option<u64>,
    /// Internal identifiers by external identifier.
    pub dict_fwd: Table<String, u64>,
    /// External identifiers by internal identifier.
    pub dict_rev: Table<u64, String>,
    /// The next internal identifier, once one was taken.
    pub dict_next_id: Option<u64>,
}

/// The bytes of a text-keyed table.
pub open spec fn byte_rows(t: Map<Seq<char>, Vec<u8>>) -> Rows {
    t.map_values(|v: Vec<u8>| v@)
}

/// The bytes of a number-keyed table.
pub open spec fn id_rows(t: Map<u64, Vec<u8>>) -> IdRows {
    t.map_values(|v: Vec<u8>| v@)
}

/// The texts of a number-keyed table.
pub open spec fn text_rows(t: Map<u64, String>) -> Map<u64, Seq<char>> {
    t.map_values(|s: String| s@)
}

impl View for Catalog {
    type V = CatalogView;

    open spec fn view(&self) -> CatalogView {
        CatalogView {
            events: byte_rows(self.events@),
            parts: id_rows(self.parts@),
            period_parts: byte_rows(self.period_parts@),
            period_deltas: byte_rows(self.period_deltas@),
            period_state: byte_rows(self.period_state@),
            compaction_log: id_rows(self.compaction_log@),
            next_part_id: self.next_part_id,
            dict_fwd: self.dict_fwd@,
            dict_rev: text_rows(self.dict_rev@),
            dict_next_id: self.dict_next_id,
        }
    }
}

// ---------------------------------------------------------------------------
// What rows say
// ---------------------------------------------------------------------------

/// The list of identifiers of a key; empty without a row.
pub open spec fn list_of(rows: Rows, key: Seq<char>) -> Result<Seq<u64>, Seq<char>> {
    if rows.dom().contains(key) {
        list_in(key, rows[key])
    } else {
        Ok(Seq::empty())
    }
}

/// The lists of several keys, one behind the other; the first error otherwise.
pub open spec fn lists_of(rows: Rows, keys: Seq<Seq<char>>) -> Result<Seq<u64>, Seq<char>>
    decreases keys.len(),
{
    if keys.len() == 0 {
        Ok(Seq::empty())
    } else {
        match lists_of(rows, keys.drop_last()) {
            Err(m) => Err(m),
            Ok(front) => match list_of(rows, keys.last()) {
                Err(m) => Err(m),
                Ok(ids) => Ok(front + ids),
            },
        }
    }
}

/// How a part is named in messages.
pub open spec fn part_context(id: u64) -> Seq<char> {
    "part_id="@ + decimal(id as nat)
}

/// The part with an identifier, if there is one.
pub open spec fn part_of(parts: IdRows, id: u64) -> Result<Option<PartView>, Seq<char>> {
    if parts.dom().contains(id) {
        match part_in(part_context(id), parts[id]) {
            Ok(p) => Ok(Some(p)),
            Err(m) => Err(m),
        }
    } else {
        Ok(None)
    }
}

/// The parts that removing identifiers one after the other brings out; the
/// first error otherwise.
pub open spec fn parts_taken(parts: IdRows, ids: Seq<u64>) -> Result<Seq<PartView>, Seq<char>>
    decreases ids.len(),
{
    if ids.len() == 0 {
        Ok(Seq::empty())
    } else {
        match parts_taken(parts, ids.drop_last()) {
            Err(m) => Err(m),
            Ok(front) => if ids.drop_last().contains(ids.last()) {
                Ok(front)
            } else {
                match part_of(parts, ids.last()) {
                    Err(m) => Err(m),
                    Ok(Some(p)) => Ok(front.push(p)),
                    Ok(None) => Ok(front),
                }
            },
        }
    }
}

/// The parts that are left without some identifiers.
pub open spec fn parts_left(parts: IdRows, ids: Seq<u64>) -> IdRows {
    parts.remove_keys(ids.to_set())
}

/// The rows whose key does not start with `prefix`.
pub open spec fn without_prefix(rows: Rows, prefix: Seq<char>) -> Rows {
    rows.remove_keys(Set::new(|k: Seq<char>| has_prefix(k, prefix)))
}

/// The configuration of an event, if it is registered.
pub open spec fn event_of(rows: Rows, name: Seq<char>) -> Result<Option<ConfigView>, Seq<char>> {
    if rows.dom().contains(name) {
        match event_in(name, rows[name]) {
            Ok((g, r)) => Ok(Some(configured(name, g, r))),
            Err(m) => Err(m),
        }
    } else {
        Ok(None)
    }
}

/// A configuration as a row.
pub open spec fn event_option(v: Option<EventConfig>) -> Option<ConfigView> {
    match v {
        Some(c) => Some(c@),
        None => None,
    }
}

/// The configurations of events, in the order of `names`; the first error
/// otherwise.
pub open spec fn events_of(rows: Rows, names: Seq<Seq<char>>) -> Result<Seq<ConfigView>, Seq<char>>
    decreases names.len(),
{
    if names.len() == 0 {
        Ok(Seq::empty())
    } else {
        match events_of(rows, names.drop_last()) {
            Err(m) => Err(m),
            Ok(front) => match event_in(names.last(), rows[names.last()]) {
                Err(m) => Err(m),
                Ok((g, r)) => Ok(front.push(configured(names.last(), g, r))),
            },
        }
    }
}

/// The state that the row of a key holds, if there is one.
pub open spec fn state_of(rows: Rows, key: Seq<char>) -> Result<Option<PeriodState>, Seq<char>> {
    let head = "period_state '"@ + key;
    if !rows.dom().contains(key) {
        Ok(None)
    } else if rows[key].len() == 0 {
        Err(head + "': empty value"@)
    } else if rows[key][0] == 0 {
        Ok(Some(PeriodState::Open))
    } else if rows[key][0] == 1 {
        Ok(Some(PeriodState::Closed))
    } else if rows[key][0] == 2 {
        Ok(Some(PeriodState::Compacted))
    } else if rows[key][0] == 3 {
        Ok(Some(PeriodState::Dropped))
    } else {
        Err(head + "': unknown state byte "@ + decimal(rows[key][0] as nat))
    }
}

/// Removal of an event: the parts that come out and what is left. All rows of
/// the event's periods go, and the parts that they list, data parts before
/// delta parts.
pub open spec fn event_removed(c: CatalogView, name: Seq<char>) -> Result<
    (Seq<PartView>, CatalogView),
    Seq<char>,
> {
    let prefix = name + "/"@;
    match lists_of(c.period_parts, listing(c.period_parts.dom(), prefix)) {
        Err(m) => Err(m),
        Ok(data) => match lists_of(c.period_deltas, listing(c.period_deltas.dom(), prefix)) {
            Err(m) => Err(m),
            Ok(deltas) => match parts_taken(c.parts, data + deltas) {
                Err(m) => Err(m),
                Ok(parts) => Ok(
                    (
                        parts,
                        CatalogView {
                            events: c.events.remove(name),
                            period_parts: without_prefix(c.period_parts, prefix),
                            period_deltas: without_prefix(c.period_deltas, prefix),
                            period_state: without_prefix(c.period_state, prefix),
                            parts: parts_left(c.parts, data + deltas),
                            ..c
                        },
                    ),
                ),
            },
        },
    }
}

/// Removal of a period: the parts that come out and what is left.
pub open spec fn period_removed(c: CatalogView, key: Seq<char>) -> Result<
    (Seq<PartView>, CatalogView),
    Seq<char>,
> {
    match list_of(c.period_parts, key) {
        Err(m) => Err(m),
        Ok(data) => match list_of(c.period_deltas, key) {
            Err(m) => Err(m),
            Ok(deltas) => match parts_taken(c.parts, data + deltas) {
                Err(m) => Err(m),
                Ok(parts) => Ok(
                    (
                        parts,
                        CatalogView {
                            period_parts: c.period_parts.remove(key),
                            period_deltas: c.period_deltas.remove(key),
                            period_state: c.period_state.remove(key),
                            parts: parts_left(c.parts, data + deltas),
                            ..c
                        },
                    ),
                ),
            },
        },
    }
}

/// Parts as values.
pub open spec fn part_views(parts: Seq<Part>) -> Seq<PartView> {
    Seq::new(parts.len(), |i: int| parts[i]@)
}

/// The error for a key that no table can hold.
pub open spec fn key_error() -> ErrorView {
    ErrorView::Catalog(
        "MDB_BAD_VALSIZE: Unsupported size of key/DB name/data, or wrong DUPFIXED size"@,
    )
}

/// Whether a key can be written.
pub open spec fn fits_table(key: Seq<char>) -> bool {
    key.len() > 0 && encode_utf8(key).len() <= MAX_KEY_LEN
}

/// The outcome of reading under a key: an error if the key is empty, and
/// otherwise what the rows say.
pub open spec fn on_key<V>(key: Seq<char>, outcome: Result<V, Seq<char>>) -> Result<V, ErrorView> {
    if key.len() == 0 {
        Err(key_error())
    } else {
        or_corrupt(outcome)
    }
}

/// The outcome of writing under a key: an error if no table can hold it.
pub open spec fn if_fits<V>(key: Seq<char>, outcome: V) -> Result<V, ErrorView> {
    if fits_table(key) {
        Ok(outcome)
    } else {
        Err(key_error())
    }
}

/// An outcome whose message is that of a corrupted row.
pub open spec fn or_corrupt<V>(outcome: Result<V, Seq<char>>) -> Result<V, ErrorView> {
    match outcome {
        Ok(v) => Ok(v),
        Err(m) => Err(corrupt(m)),
    }
}

/// Whether an outcome is the one that is specified: the value, or the error.
pub open spec fn reads_as<T, V>(
    r: Result<T, InoxSetError>,
    value: spec_fn(T) -> V,
    expected: Result<V, ErrorView>,
) -> bool {
    match (r, expected) {
        (Ok(v), Ok(w)) => value(v) == w,
        (Err(e), Err(f)) => e@ == f,
        _ => false,
    }
}

/// Whether an operation gave the value and the catalog that are specified, or
/// failed with the error and left the catalog as it was.
pub open spec fn operates_as<T, V>(
    before: CatalogView,
    r: Result<T, InoxSetError>,
    after: CatalogView,
    value: spec_fn(T) -> V,
    expected: Result<(V, CatalogView), ErrorView>,
) -> bool {
    match (r, expected) {
        (Ok(v), Ok((w, c))) => value(v) == w && after == c,
        (Err(e), Err(f)) => e@ == f && after == before,
        _ => false,
    }
}

/// Whether an operation on a table gave the rows that are specified, or failed
/// with the error and left the table as it was.
pub open spec fn changes_as(
    before: Table<String, Vec<u8>>,
    r: Result<(), InoxSetError>,
    after: Table<String, Vec<u8>>,
    expected: Result<Rows, ErrorView>,
) -> bool {
    match (r, expected) {
        (Ok(()), Ok(rows)) => byte_rows(after@) == rows,
        (Err(e), Err(f)) => e@ == f && after == before,
        _ => false,
    }
}

// ---------------------------------------------------------------------------
// Table access
// ---------------------------------------------------------------------------

pub(crate) fn key_size_error() -> (r: InoxSetError)
    ensures
        r@ == key_error(),
{
    InoxSetError::Catalog(
        "MDB_BAD_VALSIZE: Unsupported size of key/DB name/data, or wrong DUPFIXED size".to_owned(),
    )
}

fn put(table: &mut Table<String, Vec<u8>>, key: &str, value: Vec<u8>) -> (r: Result<
    (),
    InoxSetError,
>)
    requires
        old(table).wf(),
    ensures
        final(table).wf(),
        changes_as(
            *old(table),
            r,
            *final(table),
            if_fits(key@, byte_rows(old(table)@).insert(key@, value@)),
        ),
{
    if key.is_empty() || key.as_bytes().len() > MAX_KEY_LEN {
        return Err(key_size_error());
    }
    table.insert(key.to_owned(), value);
    assert(byte_rows(table@) =~= byte_rows(old(table)@).insert(key@, value@));
    Ok(())
}

fn put_id(table: &mut Table<u64, Vec<u8>>, key: u64, value: Vec<u8>)
    requires
        old(table).wf(),
    ensures
        final(table).wf(),
        id_rows(final(table)@) == id_rows(old(table)@).insert(key, value@),
{
    table.insert(key, value);
    assert(id_rows(table@) =~= id_rows(old(table)@).insert(key, value@));
}

fn drop_key(table: &mut Table<String, Vec<u8>>, key: &str)
    requires
        old(table).wf(),
    ensures
        final(table).wf(),
        byte_rows(final(table)@) == byte_rows(old(table)@).remove(key@),
{
    let _ = table.remove(&key.to_owned());
    assert(byte_rows(table@) =~= byte_rows(old(table)@).remove(key@));
}

fn drop_prefix(table: &mut Table<String, Vec<u8>>, prefix: &str)
    requires
        old(table).wf(),
    ensures
        final(table).wf(),
        byte_rows(final(table)@) == without_prefix(byte_rows(old(table)@), prefix@),
{
    let keys = keys_with_prefix(table, prefix);
    let ghost all = byte_rows(table@);
    let mut i: usize = 0;
    while i < keys.len()
        invariant
            i <= keys@.len(),
            table.wf(),
            lists(texts(keys@), all.dom(), prefix@),
            forall|k: Seq<char>| #[trigger]
                byte_rows(table@).dom().contains(k) <==> all.dom().contains(k) && !(exists|m: int|
                    0 <= m < i && #[trigger] texts(keys@)[m] == k),
            forall|k: Seq<char>| #[trigger]
                byte_rows(table@).dom().contains(k) ==> byte_rows(table@)[k] == all[k],
        decreases keys@.len() - i,
    {
        let ghost previous = byte_rows(table@);
        drop_key(table, keys[i].as_str());
        proof {
            let here = texts(keys@)[i as int];
            assert(here == keys@[i as int]@);
            assert forall|k: Seq<char>| #[trigger]
                byte_rows(table@).dom().contains(k) <==> all.dom().contains(k) && !(exists|m: int|
                    0 <= m < i + 1 && #[trigger] texts(keys@)[m] == k) by {
                assert(previous.dom().contains(k) <==> all.dom().contains(k) && !(exists|m: int|
                    0 <= m < i && #[trigger] texts(keys@)[m] == k));
                if exists|m: int| 0 <= m < i + 1 && #[trigger] texts(keys@)[m] == k {
                    let m = choose|m: int| 0 <= m < i + 1 && #[trigger] texts(keys@)[m] == k;
                    if m < i {
                        assert(texts(keys@)[m] == k);
                    }
                }
            }
            assert forall|k: Seq<char>| #[trigger] byte_rows(table@).dom().contains(
                k,
            ) implies byte_rows(table@)[k] == all[k] by {
                assert(previous.dom().contains(k));
            }
        }
        i = i + 1;
    }
    proof {
        let target = without_prefix(all, prefix@);
        assert forall|k: Seq<char>| #[trigger] byte_rows(table@).dom().contains(k)
            <==> target.dom().contains(k) by {
            assert(texts(keys@).contains(k) <==> all.dom().contains(k) && has_prefix(k, prefix@));
            if texts(keys@).contains(k) {
                let m = choose|m: int| 0 <= m < texts(keys@).len() && texts(keys@)[m] == k;
                assert(texts(keys@)[m] == k);
            }
        }
        assert(byte_rows(table@) =~= target);
    }
}

pub(crate) fn read_list(table: &Table<String, Vec<u8>>, key: &str) -> (r: Result<
    Vec<u64>,
    InoxSetError,
>)
    requires
        table.wf(),
    ensures
        decodes_as(r, |v: Vec<u64>| v@, list_of(byte_rows(table@), key@)),
{
    match table.get(&key.to_owned()) {
        Some(data) => deserialize_u64_vec(key, data.as_slice()),
        None => {
            let none: Vec<u64> = Vec::new();
            assert(none@ =~= Seq::empty());
            Ok(none)
        },
    }
}

fn read_lists(table: &Table<String, Vec<u8>>, keys: &Vec<String>) -> (r: Result<
    Vec<u64>,
    InoxSetError,
>)
    requires
        table.wf(),
    ensures
        decodes_as(r, |v: Vec<u64>| v@, lists_of(byte_rows(table@), texts(keys@))),
{
    let mut ids: Vec<u64> = Vec::new();
    let mut i: usize = 0;
    let ghost rows = byte_rows(table@);
    assert(texts(keys@).subrange(0, 0) =~= Seq::empty());
    while i < keys.len()
        invariant
            i <= keys@.len(),
            table.wf(),
            rows == byte_rows(table@),
            lists_of(rows, texts(keys@).subrange(0, i as int)) == Ok::<Seq<u64>, Seq<char>>(ids@),
        decreases keys@.len() - i,
    {
        proof {
            let upto = texts(keys@).subrange(0, i + 1);
            assert(upto.drop_last() =~= texts(keys@).subrange(0, i as int));
            assert(upto.last() == keys@[i as int]@);
        }
        match read_list(table, keys[i].as_str()) {
            Ok(mut more) => {
                ids.append(&mut more);
            },
            Err(e) => {
                proof {
                    lemma_lists_error(rows, texts(keys@), i + 1);
                }
                return Err(e);
            },
        }
        i = i + 1;
    }
    assert(texts(keys@).subrange(0, i as int) =~= texts(keys@));
    Ok(ids)
}

/// An error in the first lists is the error of all.
proof fn lemma_lists_error(rows: Rows, keys: Seq<Seq<char>>, n: int)
    requires
        0 <= n <= keys.len(),
        lists_of(rows, keys.subrange(0, n)) is Err,
    ensures
        lists_of(rows, keys) == lists_of(rows, keys.subrange(0, n)),
    decreases keys.len() - n,
{
    if n < keys.len() {
        let longer = keys.subrange(0, n + 1);
        assert(longer.drop_last() =~= keys.subrange(0, n));
        lemma_lists_error(rows, keys, n + 1);
    } else {
        assert(keys.subrange(0, n) =~= keys);
    }
}

fn context_of(id: u64) -> (r: String)
    ensures
        r@ == part_context(id),
{
    let mut ctx = String::new();
    ctx.append("part_id=");
    push_decimal(&mut ctx, id);
    assert(ctx@ =~= part_context(id));
    ctx
}

fn holds_id(ids: &Vec<u64>, upto: usize, id: u64) -> (r: bool)
    requires
        upto <= ids@.len(),
    ensures
        r == ids@.subrange(0, upto as int).contains(id),
{
    let mut i: usize = 0;
    while i < upto
        invariant
            i <= upto <= ids@.len(),
            forall|k: int| 0 <= k < i ==> ids@[k] != id,
        decreases upto - i,
    {
        if ids[i] == id {
            assert(ids@.subrange(0, upto as int)[i as int] == id);
            return true;
        }
        i = i + 1;
    }
    false
}

fn read_parts(table: &Table<u64, Vec<u8>>, ids: &Vec<u64>) -> (r: Result<Vec<Part>, InoxSetError>)
    requires
        table.wf(),
    ensures
        decodes_as(r, |v: Vec<Part>| part_views(v@), parts_taken(id_rows(table@), ids@)),
{
    let mut out: Vec<Part> = Vec::new();
    let ghost rows = id_rows(table@);
    let mut i: usize = 0;
    assert(ids@.subrange(0, 0) =~= Seq::empty());
    assert(part_views(out@) =~= Seq::empty());
    while i < ids.len()
        invariant
            i <= ids@.len(),
            table.wf(),
            rows == id_rows(table@),
            parts_taken(rows, ids@.subrange(0, i as int)) == Ok::<Seq<PartView>, Seq<char>>(
                part_views(out@),
            ),
        decreases ids@.len() - i,
    {
        proof {
            let upto = ids@.subrange(0, i + 1);
            assert(upto.drop_last() =~= ids@.subrange(0, i as int));
            assert(upto.last() == ids@[i as int]);
        }
        if !holds_id(ids, i, ids[i]) {
            match Catalog::txn_get_part(table, ids[i]) {
                Ok(Some(part)) => {
                    let ghost front = part_views(out@);
                    out.push(part);
                    assert(part_views(out@) =~= front.push(part@));
                },
                Ok(None) => {},
                Err(e) => {
                    proof {
                        lemma_parts_error(rows, ids@, i + 1);
                    }
                    return Err(e);
                },
            }
        }
        i = i + 1;
    }
    assert(ids@.subrange(0, i as int) =~= ids@);
    Ok(out)
}

/// An error in the first parts is the error of all.
proof fn lemma_parts_error(rows: IdRows, ids: Seq<u64>, n: int)
    requires
        0 <= n <= ids.len(),
        parts_taken(rows, ids.subrange(0, n)) is Err,
    ensures
        parts_taken(rows, ids) == parts_taken(rows, ids.subrange(0, n)),
    decreases ids.len() - n,
{
    if n < ids.len() {
        let longer = ids.subrange(0, n + 1);
        assert(longer.drop_last() =~= ids.subrange(0, n));
        lemma_parts_error(rows, ids, n + 1);
    } else {
        assert(ids.subrange(0, n) =~= ids);
    }
}

fn drop_parts(table: &mut Table<u64, Vec<u8>>, ids: &Vec<u64>)
    requires
        old(table).wf(),
    ensures
        final(table).wf(),
        id_rows(final(table)@) == parts_left(id_rows(old(table)@), ids@),
{
    let ghost all = id_rows(table@);
    let mut i: usize = 0;
    assert(parts_left(all, ids@.subrange(0, 0)) =~= all);
    while i < ids.len()
        invariant
            i <= ids@.len(),
            table.wf(),
            id_rows(table@) == parts_left(all, ids@.subrange(0, i as int)),
        decreases ids@.len() - i,
    {
        let ghost previous = id_rows(table@);
        let _ = table.remove(&ids[i]);
        proof {
            let front = ids@.subrange(0, i as int);
            let upto = ids@.subrange(0, i + 1);
            assert(upto =~= front.push(ids@[i as int]));
            assert(id_rows(table@) =~= previous.remove(ids@[i as int]));
            assert forall|k: u64| upto.to_set().contains(k) <==> front.to_set().contains(k) || k
                == ids@[i as int] by {
                if front.contains(k) {
                    let m = choose|m: int| 0 <= m < front.len() && front[m] == k;
                    assert(upto[m] == k);
                }
                if k == ids@[i as int] {
                    assert(upto[i as int] == k);
                }
                if upto.contains(k) {
                    let m = choose|m: int| 0 <= m < upto.len() && upto[m] == k;
                    if m < i {
                        assert(front[m] == k);
                    }
                }
            }
            assert(id_rows(table@) =~= parts_left(all, upto));
        }
        i = i + 1;
    }
    assert(ids@.subrange(0, i as int) =~= ids@);
}

impl Catalog {
    /// No table has a duplicate key.
    pub open spec fn wf(self) -> bool {
        &&& self.events.wf()
        &&& self.parts.wf()
        &&& self.period_parts.wf()
        &&& self.period_deltas.wf()
        &&& self.period_state.wf()
        &&& self.compaction_log.wf()
        &&& self.dict_fwd.wf()
        &&& self.dict_rev.wf()
    }

    /// Creates a catalog without rows.
    pub fn new() -> (r: Catalog)
        ensures
            r.wf(),
            r@ == empty_catalog(),
    {
        let r = Catalog {
            events: Table::new(),
            parts: Table::new(),
            period_parts: Table::new(),
            period_deltas: Table::new(),
            period_state: Table::new(),
            compaction_log: Table::new(),
            next_part_id: None,
            dict_fwd: Table::new(),
            dict_rev: Table::new(),
            dict_next_id: None,
        };
        assert(r@ =~~= empty_catalog());
        r
    }

    /// Registers an event, in place of one with the same name.
    pub fn register_event(&mut self, config: &EventConfig) -> (r: Result<(), InoxSetError>)
        requires
            old(self).wf(),
        ensures
            final(self).wf(),
            operates_as(
                old(self)@,
                r,
                final(self)@,
                |v: ()| v,
                if_fits(config.name@, ((), event_registered(old(self)@, config@))),
            ),
    {
        put(&mut self.events, config.name.as_str(), serialize_event_config(config))
    }

    /// Returns the configuration of an event, or `None` if it is not
    /// registered.
    pub fn get_event(&self, name: &str) -> (r: Result<Option<EventConfig>, InoxSetError>)
        requires
            self.wf(),
        ensures
            reads_as(
                r,
                |v: Option<EventConfig>| event_option(v),
                on_key(name@, event_of(self@.events, name@)),
            ),
            r matches Ok(Some(c)) ==> c.wf(),
    {
        if name.is_empty() {
            return Err(key_size_error());
        }
        self.read_event(name)
    }

    fn read_event(&self, name: &str) -> (r: Result<Option<EventConfig>, InoxSetError>)
        requires
            self.wf(),
        ensures
            decodes_as(
                r,
                |v: Option<EventConfig>| event_option(v),
                event_of(self@.events, name@),
            ),
            r matches Ok(Some(c)) ==> c.wf(),
    {
        match self.events.get(&name.to_owned()) {
            None => Ok(None),
            Some(data) => match deserialize_event_config(name, data.as_slice()) {
                Ok(c) => Ok(Some(c)),
                Err(e) => Err(e),
            },
        }
    }

    /// Returns all registered configurations in the order of their names.
    pub fn list_events(&self) -> (r: Result<Vec<EventConfig>, InoxSetError>)
        requires
            self.wf(),
        ensures
            decodes_as(
                r,
                |v: Vec<EventConfig>| event_rows(v@),
                events_of(self@.events, listing(self@.events.dom(), Seq::empty())),
            ),
            r matches Ok(v) ==> forall|i: int| 0 <= i < v@.len() ==> (#[trigger] v@[i]).wf(),
    {
        let names = keys_with_prefix(&self.events, "");
        proof {
            reveal_strlit("");
            assert(""@ =~= Seq::empty());
        }
        let ghost rows = self@.events;
        assert(rows.dom() =~= self.events@.dom());
        let mut out: Vec<EventConfig> = Vec::new();
        let mut i: usize = 0;
        assert(texts(names@).subrange(0, 0) =~= Seq::empty());
        assert(event_rows(out@) =~= Seq::empty());
        while i < names.len()
            invariant
                i <= names@.len(),
                self.wf(),
                rows == self@.events,
                lists(texts(names@), rows.dom(), Seq::empty()),
                texts(names@) == listing(rows.dom(), Seq::empty()),
                events_of(rows, texts(names@).subrange(0, i as int)) == Ok::<
                    Seq<ConfigView>,
                    Seq<char>,
                >(event_rows(out@)),
                forall|k: int| 0 <= k < out@.len() ==> (#[trigger] out@[k]).wf(),
            decreases names@.len() - i,
        {
            proof {
                let upto = texts(names@).subrange(0, i + 1);
                assert(upto.drop_last() =~= texts(names@).subrange(0, i as int));
                assert(upto.last() == names@[i as int]@);
                assert(texts(names@)[i as int] == names@[i as int]@);
                assert(texts(names@).contains(names@[i as int]@));
            }
            match self.read_event(names[i].as_str()) {
                Ok(Some(c)) => {
                    let ghost front = event_rows(out@);
                    out.push(c);
                    assert(event_rows(out@) =~= front.push(c@));
                },
                Ok(None) => {},
                Err(e) => {
                    proof {
                        lemma_events_error(rows, texts(names@), i + 1);
                    }
                    return Err(e);
                },
            }
            i = i + 1;
        }
        assert(texts(names@).subrange(0, i as int) =~= texts(names@));
        Ok(out)
    }

    /// Deletes an event with all rows of its periods and all their parts, and
    /// returns the identifiers of the parts.
    pub fn delete_event(&mut self, name: &str) -> (r: Result<Vec<u64>, InoxSetError>)
        requires
            old(self).wf(),
        ensures
            final(self).wf(),
            operates_as(
                old(self)@,
                r,
                final(self)@,
                |v: Vec<u64>| v@,
                match on_key(name@, event_removed(old(self)@, name@)) {
                    Ok((parts, c)) => Ok((ids_of(parts), c)),
                    Err(e) => Err(e),
                },
            ),
    {
        match self.delete_event_returning_parts(name) {
            Ok(parts) => {
                let mut ids: Vec<u64> = Vec::new();
                let mut i: usize = 0;
                while i < parts.len()
                    invariant
                        i <= parts@.len(),
                        ids@ =~= ids_of(part_views(parts@)).subrange(0, i as int),
                    decreases parts@.len() - i,
                {
                    ids.push(parts[i].part_id);
                    i = i + 1;
                }
                assert(ids@ =~= ids_of(part_views(parts@)));
                Ok(ids)
            },
            Err(e) => Err(e),
        }
    }

    /// Deletes an event with all rows of its periods and all their parts, and
    /// returns the parts.
    pub fn delete_event_returning_parts(&mut self, name: &str) -> (r: Result<
        Vec<Part>,
        InoxSetError,
    >)
        requires
            old(self).wf(),
        ensures
            final(self).wf(),
            operates_as(
                old(self)@,
                r,
                final(self)@,
                |v: Vec<Part>| part_views(v@),
                on_key(name@, event_removed(old(self)@, name@)),
            ),
    {
        if name.is_empty() {
            return Err(key_size_error());
        }
        let mut prefix = name.to_owned();
        prefix.append("/");
        let ghost before = self@;
        assert(before.period_parts.dom() =~= self.period_parts@.dom());
        assert(before.period_deltas.dom() =~= self.period_deltas@.dom());
        let data_keys = keys_with_prefix(&self.period_parts, prefix.as_str());
        let mut ids = match read_lists(&self.period_parts, &data_keys) {
            Ok(ids) => ids,
            Err(e) => {
                return Err(e);
            },
        };
        let delta_keys = keys_with_prefix(&self.period_deltas, prefix.as_str());
        let mut delta_ids = match read_lists(&self.period_deltas, &delta_keys) {
            Ok(ids) => ids,
            Err(e) => {
                return Err(e);
            },
        };
        ids.append(&mut delta_ids);
        let parts = match read_parts(&self.parts, &ids) {
            Ok(parts) => parts,
            Err(e) => {
                return Err(e);
            },
        };
        drop_key(&mut self.events, name);
        drop_prefix(&mut self.period_parts, prefix.as_str());
        drop_prefix(&mut self.period_deltas, prefix.as_str());
        drop_prefix(&mut self.period_state, prefix.as_str());
        drop_parts(&mut self.parts, &ids);
        Ok(parts)
    }

    /// Deletes the rows of a period and its parts, and returns the parts. The
    /// event stays registered.
    pub fn delete_period_returning_parts(&mut self, cat_key: &str) -> (r: Result<
        Vec<Part>,
        InoxSetError,
    >)
        requires
            old(self).wf(),
        ensures
            final(self).wf(),
            operates_as(
                old(self)@,
                r,
                final(self)@,
                |v: Vec<Part>| part_views(v@),
                on_key(cat_key@, period_removed(old(self)@, cat_key@)),
            ),
    {
        if cat_key.is_empty() {
            return Err(key_size_error());
        }
        let mut ids = match read_list(&self.period_parts, cat_key) {
            Ok(ids) => ids,
            Err(e) => {
                return Err(e);
            },
        };
        let mut delta_ids = match read_list(&self.period_deltas, cat_key) {
            Ok(ids) => ids,
            Err(e) => {
                return Err(e);
            },
        };
        ids.append(&mut delta_ids);
        let parts = match read_parts(&self.parts, &ids) {
            Ok(parts) => parts,
            Err(e) => {
                return Err(e);
            },
        };
        drop_key(&mut self.period_parts, cat_key);
        drop_key(&mut self.period_deltas, cat_key);
        drop_key(&mut self.period_state, cat_key);
        drop_parts(&mut self.parts, &ids);
        Ok(parts)
    }

    /// Takes the next part identifier. Identifiers start at 1.
    pub fn next_part_id(&mut self) -> (r: Result<u64, InoxSetError>)
        requires
            old(self).wf(),
        ensures
            final(self).wf(),
            operates_as(
                old(self)@,
                r,
                final(self)@,
                |v: u64| v,
                match ids_allocated(old(self)@.next_part_id, 1) {
                    Ok((ids, next)) => Ok(
                        (ids[0], CatalogView { next_part_id: Some(next), ..old(self)@ }),
                    ),
                    Err(m) => Err(corrupt(m)),
                },
            ),
    {
        match Catalog::txn_alloc_part_ids(&mut self.next_part_id, 1) {
            Ok(ids) => Ok(ids[0]),
            Err(e) => Err(e),
        }
    }

    /// Stores a part, in place of one with the same identifier.
    pub fn register_part(&mut self, part: &Part) -> (r: Result<(), InoxSetError>)
        requires
            old(self).wf(),
        ensures
            final(self).wf(),
            operates_as(
                old(self)@,
                r,
                final(self)@,
                |v: ()| v,
                match part_bytes(part@) {
                    Ok(bytes) => Ok(((), part_stored(old(self)@, part.part_id, bytes))),
                    Err(m) => Err(corrupt(m)),
                },
            ),
    {
        Catalog::txn_register_part(&mut self.parts, part)
    }

    /// Returns the part with an identifier, or `None` if there is none.
    pub fn get_part(&self, part_id: u64) -> (r: Result<Option<Part>, InoxSetError>)
        requires
            self.wf(),
        ensures
            decodes_as(r, |v: Option<Part>| part_option(v), part_of(self@.parts, part_id)),
    {
        Catalog::txn_get_part(&self.parts, part_id)
    }

    /// Returns the identifiers of all parts, each once.
    pub fn all_part_ids(&self) -> (r: Vec<u64>)
        requires
            self.wf(),
        ensures
            r@.no_duplicates(),
            forall|id: u64| #[trigger] r@.contains(id) <==> self@.parts.dom().contains(id),
    {
        let mut ids: Vec<u64> = Vec::new();
        let n: usize = self.parts.len();
        let ghost rows = self.parts.rows();
        let mut i: usize = 0;
        while i < n
            invariant
                i <= n,
                rows == self.parts.rows(),
                n == rows.len(),
                ids@.len() == i,
                forall|k: int| 0 <= k < i ==> #[trigger] ids@[k] == rows[k].0,
            decreases n - i,
        {
            ids.push(self.parts.row(i).0);
            i = i + 1;
        }
        proof {
            assert forall|a: int, b: int|
                0 <= a < ids@.len() && 0 <= b < ids@.len() && a != b implies ids@[a]
                != ids@[b] by {
                if a < b {
                    assert(rows[a].0.model() != rows[b].0.model());
                } else {
                    assert(rows[b].0.model() != rows[a].0.model());
                }
            }
            assert forall|id: u64| #[trigger] ids@.contains(id) <==> self@.parts.dom().contains(
                id,
            ) by {
                crate::table::lemma_rows_map_dom(rows, id);
                if ids@.contains(id) {
                    let k = choose|k: int| 0 <= k < ids@.len() && ids@[k] == id;
                    assert(rows[k].0.model() == id);
                }
                if self@.parts.dom().contains(id) {
                    let k = choose|k: int|
                        0 <= k < rows.len() && #[trigger] rows[k].0.model() == id;
                    assert(ids@[k] == id);
                }
            }
        }
        ids
    }

    /// Returns the data parts of a period; empty without a row.
    pub fn get_period_parts(&self, key: &str) -> (r: Result<Vec<u64>, InoxSetError>)
        requires
            self.wf(),
        ensures
            reads_as(r, |v: Vec<u64>| v@, on_key(key@, list_of(self@.period_parts, key@))),
    {
        Catalog::txn_get_period_parts(&self.period_parts, key)
    }

    /// Appends to the data parts of a period.
    pub fn append_period_parts(&mut self, key: &str, ids: &[u64]) -> (r: Result<(), InoxSetError>)
        requires
            old(self).wf(),
        ensures
            final(self).wf(),
            operates_as(
                old(self)@,
                r,
                final(self)@,
                |v: ()| v,
                match list_appended(old(self)@.period_parts, key@, ids@) {
                    Ok(rows) => Ok(((), with_period_parts(old(self)@, rows))),
                    Err(e) => Err(e),
                },
            ),
    {
        Catalog::txn_append_period_parts(&mut self.period_parts, key, ids)
    }

    /// Replaces the data parts of a period.
    pub fn set_period_parts(&mut self, key: &str, ids: &[u64]) -> (r: Result<(), InoxSetError>)
        requires
            old(self).wf(),
        ensures
            final(self).wf(),
            operates_as(
                old(self)@,
                r,
                final(self)@,
                |v: ()| v,
                if_fits(key@, ((), parts_replaced(old(self)@, key@, ids@))),
            ),
    {
        Catalog::txn_set_period_parts(&mut self.period_parts, key, ids)
    }

    /// Returns the delta parts of a period; empty without a row.
    pub fn get_period_deltas(&self, key: &str) -> (r: Result<Vec<u64>, InoxSetError>)
        requires
            self.wf(),
        ensures
            reads_as(r, |v: Vec<u64>| v@, on_key(key@, list_of(self@.period_deltas, key@))),
    {
        Catalog::txn_get_period_deltas(&self.period_deltas, key)
    }

    /// Appends to the delta parts of a period.
    pub fn append_period_deltas(&mut self, key: &str, ids: &[u64]) -> (r: Result<(), InoxSetError>)
        requires
            old(self).wf(),
        ensures
            final(self).wf(),
            operates_as(
                old(self)@,
                r,
                final(self)@,
                |v: ()| v,
                match list_appended(old(self)@.period_deltas, key@, ids@) {
                    Ok(rows) => Ok(((), with_period_deltas(old(self)@, rows))),
                    Err(e) => Err(e),
                },
            ),
    {
        Catalog::txn_append_period_deltas(&mut self.period_deltas, key, ids)
    }

    /// Removes the delta parts of a period.
    pub fn clear_period_deltas(&mut self, key: &str) -> (r: Result<(), InoxSetError>)
        requires
            old(self).wf(),
        ensures
            final(self).wf(),
            operates_as(
                old(self)@,
                r,
                final(self)@,
                |v: ()| v,
                on_key(key@, Ok(((), deltas_cleared(old(self)@, key@)))),
            ),
    {
        Catalog::txn_clear_period_deltas(&mut self.period_deltas, key)
    }

    /// Returns the state of a period, or `None` if none is recorded.
    pub fn get_period_state(&self, key: &str) -> (r: Result<Option<PeriodState>, InoxSetError>)
        requires
            self.wf(),
        ensures
            reads_as(
                r,
                |v: Option<PeriodState>| v,
                on_key(key@, state_of(self@.period_state, key@)),
            ),
    {
        Catalog::txn_get_period_state(&self.period_state, key)
    }

    /// Records the state of a period.
    pub fn set_period_state(&mut self, key: &str, state: PeriodState) -> (r: Result<
        (),
        InoxSetError,
    >)
        requires
            old(self).wf(),
        ensures
            final(self).wf(),
            operates_as(
                old(self)@,
                r,
                final(self)@,
                |v: ()| v,
                if_fits(key@, ((), state_recorded(old(self)@, key@, state))),
            ),
    {
        Catalog::txn_set_period_state(&mut self.period_state, key, state)
    }

    /// Takes `count` consecutive part identifiers from a counter, which starts
    /// at 1.
    pub fn txn_alloc_part_ids(counter: &mut Option<u64>, count: u64) -> (r: Result<
        Vec<u64>,
        InoxSetError,
    >)
        ensures
            match (r, ids_allocated(*old(counter), count)) {
                (Ok(v), Ok((ids, next))) => v@ == ids && *final(counter) == Some(next),
                (Err(e), Err(m)) => e@ == corrupt(m) && *final(counter) == *old(counter),
                _ => false,
            },
    {
        let start: u64 = match *counter {
            Some(next) => next,
            None => 1,
        };
        if count > u64::MAX - start {
            let mut context = String::new();
            context.append("part ID counter overflow: start=");
            push_decimal(&mut context, start);
            context.append(", count=");
            push_decimal(&mut context, count);
            assert(context@ =~= "part ID counter overflow: start="@ + decimal(start as nat)
                + ", count="@ + decimal(count as nat));
            return Err(InoxSetError::CatalogCorrupted { context });
        }
        let end: u64 = start + count;
        let mut ids: Vec<u64> = Vec::new();
        let mut next: u64 = start;
        while next < end
            invariant
                start <= next <= end,
                ids@ =~= Seq::new((next - start) as nat, |i: int| (start + i) as u64),
            decreases end - next,
        {
            ids.push(next);
            next = next + 1;
        }
        *counter = Some(end);
        Ok(ids)
    }

    /// Stores a part in a table of parts.
    pub fn txn_register_part(table: &mut Table<u64, Vec<u8>>, part: &Part) -> (r: Result<
        (),
        InoxSetError,
    >)
        requires
            old(table).wf(),
        ensures
            final(table).wf(),
            match (r, part_bytes(part@)) {
                (Ok(()), Ok(bytes)) => id_rows(final(table)@) == id_rows(old(table)@).insert(
                    part.part_id,
                    bytes,
                ),
                (Err(e), Err(m)) => e@ == corrupt(m) && *final(table) == *old(table),
                _ => false,
            },
    {
        match serialize_part(part) {
            Ok(bytes) => {
                put_id(table, part.part_id, bytes);
                Ok(())
            },
            Err(e) => Err(e),
        }
    }

    /// Appends to the list of a key in a table of data parts.
    pub fn txn_append_period_parts(
        table: &mut Table<String, Vec<u8>>,
        key: &str,
        ids: &[u64],
    ) -> (r: Result<(), InoxSetError>)
        requires
            old(table).wf(),
        ensures
            final(table).wf(),
            changes_as(
                *old(table),
                r,
                *final(table),
                list_appended(byte_rows(old(table)@), key@, ids@),
            ),
    {
        append_list(table, key, ids)
    }

    /// Replaces the list of a key in a table of data parts.
    pub fn txn_set_period_parts(
        table: &mut Table<String, Vec<u8>>,
        key: &str,
        ids: &[u64],
    ) -> (r: Result<(), InoxSetError>)
        requires
            old(table).wf(),
        ensures
            final(table).wf(),
            changes_as(
                *old(table),
                r,
                *final(table),
                if_fits(key@, byte_rows(old(table)@).insert(key@, list_bytes(ids@))),
            ),
    {
        put(table, key, serialize_u64_vec(ids))
    }

    /// Appends to the list of a key in a table of delta parts.
    pub fn txn_append_period_deltas(
        table: &mut Table<String, Vec<u8>>,
        key: &str,
        ids: &[u64],
    ) -> (r: Result<(), InoxSetError>)
        requires
            old(table).wf(),
        ensures
            final(table).wf(),
            changes_as(
                *old(table),
                r,
                *final(table),
                list_appended(byte_rows(old(table)@), key@, ids@),
            ),
    {
        append_list(table, key, ids)
    }

    /// Removes the list of a key from a table of delta parts.
    pub fn txn_clear_period_deltas(table: &mut Table<String, Vec<u8>>, key: &str) -> (r: Result<
        (),
        InoxSetError,
    >)
        requires
            old(table).wf(),
        ensures
            final(table).wf(),
            changes_as(
                *old(table),
                r,
                *final(table),
                on_key(key@, Ok(byte_rows(old(table)@).remove(key@))),
            ),
    {
        if key.is_empty() {
            return Err(key_size_error());
        }
        drop_key(table, key);
        Ok(())
    }

    /// Returns the state of a key in a table of states.
    pub fn txn_get_period_state(table: &Table<String, Vec<u8>>, key: &str) -> (r: Result<
        Option<PeriodState>,
        InoxSetError,
    >)
        requires
            table.wf(),
        ensures
            reads_as(
                r,
                |v: Option<PeriodState>| v,
                on_key(key@, state_of(byte_rows(table@), key@)),
            ),
    {
        if key.is_empty() {
            return Err(key_size_error());
        }
        match table.get(&key.to_owned()) {
            None => Ok(None),
            Some(data) => {
                let mut context = String::new();
                context.append("period_state '");
                context.append(key);
                if data.len() == 0 {
                    context.append("': empty value");
                    assert(context@ =~= "period_state '"@ + key@ + "': empty value"@);
                    return Err(InoxSetError::CatalogCorrupted { context });
                }
                let byte: u8 = data[0];
                match PeriodState::from_u8(byte) {
                    Some(state) => Ok(Some(state)),
                    None => {
                        context.append("': unknown state byte ");
                        push_decimal(&mut context, byte as u64);
                        assert(context@ =~= "period_state '"@ + key@ + "': unknown state byte "@
                            + decimal(byte as nat));
                        Err(InoxSetError::CatalogCorrupted { context })
                    },
                }
            },
        }
    }

    /// Records the state of a key in a table of states.
    pub fn txn_set_period_state(
        table: &mut Table<String, Vec<u8>>,
        key: &str,
        state: PeriodState,
    ) -> (r: Result<(), InoxSetError>)
        requires
            old(table).wf(),
        ensures
            final(table).wf(),
            changes_as(
                *old(table),
                r,
                *final(table),
                if_fits(key@, byte_rows(old(table)@).insert(key@, seq![state.code()])),
            ),
    {
        let value = vec![state.as_u8()];
        assert(value@ =~= seq![state.code()]);
        put(table, key, value)
    }

    /// Returns the list of a key in a table of data parts.
    pub fn txn_get_period_parts(table: &Table<String, Vec<u8>>, key: &str) -> (r: Result<
        Vec<u64>,
        InoxSetError,
    >)
        requires
            table.wf(),
        ensures
            reads_as(r, |v: Vec<u64>| v@, on_key(key@, list_of(byte_rows(table@), key@))),
    {
        if key.is_empty() {
            return Err(key_size_error());
        }
        read_list(table, key)
    }

    /// Returns the list of a key in a table of delta parts.
    pub fn txn_get_period_deltas(table: &Table<String, Vec<u8>>, key: &str) -> (r: Result<
        Vec<u64>,
        InoxSetError,
    >)
        requires
            table.wf(),
        ensures
            reads_as(r, |v: Vec<u64>| v@, on_key(key@, list_of(byte_rows(table@), key@))),
    {
        if key.is_empty() {
            return Err(key_size_error());
        }
        read_list(table, key)
    }

    /// Returns the part with an identifier in a table of parts.
    pub fn txn_get_part(table: &Table<u64, Vec<u8>>, pid: u64) -> (r: Result<
        Option<Part>,
        InoxSetError,
    >)
        requires
            table.wf(),
        ensures
            decodes_as(r, |v: Option<Part>| part_option(v), part_of(id_rows(table@), pid)),
    {
        match table.get(&pid) {
            None => Ok(None),
            Some(data) => {
                let ctx = context_of(pid);
                match deserialize_part(ctx.as_str(), data.as_slice()) {
                    Ok(part) => Ok(Some(part)),
                    Err(e) => Err(e),
                }
            },
        }
    }

    /// Records a compaction run under its timestamp.
    pub fn write_compaction_log(
        &mut self,
        timestamp: u64,
        periods_compacted: u32,
        parts_merged: u32,
        deltas_applied: u32,
        bytes_reclaimed: u64,
    )
        requires
            old(self).wf(),
        ensures
            final(self).wf(),
            final(self)@ == compaction_recorded(
                old(self)@,
                timestamp,
                periods_compacted,
                parts_merged,
                deltas_applied,
                bytes_reclaimed,
            ),
    {
        let record = serialize_compaction(
            timestamp,
            periods_compacted,
            parts_merged,
            deltas_applied,
            bytes_reclaimed,
        );
        put_id(&mut self.compaction_log, timestamp, record);
    }

    /// Returns the keys of all periods of an event that have data parts or
    /// delta parts, each once, in order.
    pub fn period_keys_for_event(&self, event: &str) -> (r: Vec<String>)
        requires
            self.wf(),
        ensures
            lists(
                texts(r@),
                self@.period_parts.dom().union(self@.period_deltas.dom()),
                event@ + "/"@,
            ),
            texts(r@) == period_keys_of(self@, event@),
    {
        let mut prefix = event.to_owned();
        prefix.append("/");
        assert(self@.period_parts.dom() =~= self.period_parts@.dom());
        assert(self@.period_deltas.dom() =~= self.period_deltas@.dom());
        keys_of_both(&self.period_parts, &self.period_deltas, prefix.as_str())
    }
}

/// A catalog without rows.
pub open spec fn empty_catalog() -> CatalogView {
    CatalogView {
        events: Map::empty(),
        parts: Map::empty(),
        period_parts: Map::empty(),
        period_deltas: Map::empty(),
        period_state: Map::empty(),
        compaction_log: Map::empty(),
        next_part_id: None,
        dict_fwd: Map::empty(),
        dict_rev: Map::empty(),
        dict_next_id: None,
    }
}

/// The keys of all periods of an event with data or delta parts, in order.
pub open spec fn period_keys_of(c: CatalogView, event: Seq<char>) -> Seq<Seq<char>> {
    listing(c.period_parts.dom().union(c.period_deltas.dom()), event + "/"@)
}

/// Configurations as rows.
pub open spec fn event_rows(v: Seq<EventConfig>) -> Seq<ConfigView> {
    Seq::new(v.len(), |i: int| v[i]@)
}

/// The identifiers of parts.
pub open spec fn ids_of(parts: Seq<PartView>) -> Seq<u64> {
    Seq::new(parts.len(), |i: int| parts[i].part_id)
}

/// A part as a value.
pub open spec fn part_option(v: Option<Part>) -> Option<PartView> {
    match v {
        Some(p) => Some(p@),
        None => None,
    }
}

/// What a counter gives out: `count` consecutive identifiers and the counter's
/// next value.
pub open spec fn ids_allocated(counter: Option<u64>, count: u64) -> Result<
    (Seq<u64>, u64),
    Seq<char>,
> {
    let start = match counter {
        Some(next) => next,
        None => 1u64,
    };
    if start + count > u64::MAX {
        Err(
            "part ID counter overflow: start="@ + decimal(start as nat) + ", count="@ + decimal(
                count as nat,
            ),
        )
    } else {
        Ok((Seq::new(count as nat, |i: int| (start + i) as u64), (start + count) as u64))
    }
}

/// A catalog after an event was registered.
pub open spec fn event_registered(c: CatalogView, config: ConfigView) -> CatalogView {
    CatalogView {
        events: c.events.insert(
            config.name,
            event_bytes(config.finest_granularity, config.rollup),
        ),
        ..c
    }
}

/// A catalog after the row of a part was stored.
pub open spec fn part_stored(c: CatalogView, id: u64, row: Seq<u8>) -> CatalogView {
    CatalogView { parts: c.parts.insert(id, row), ..c }
}

/// A catalog with other lists of data parts.
pub open spec fn with_period_parts(c: CatalogView, rows: Rows) -> CatalogView {
    CatalogView { period_parts: rows, ..c }
}

/// A catalog with other lists of delta parts.
pub open spec fn with_period_deltas(c: CatalogView, rows: Rows) -> CatalogView {
    CatalogView { period_deltas: rows, ..c }
}

/// A catalog after the data parts of a period were replaced.
pub open spec fn parts_replaced(c: CatalogView, key: Seq<char>, ids: Seq<u64>) -> CatalogView {
    with_period_parts(c, c.period_parts.insert(key, list_bytes(ids)))
}

/// A catalog after the delta parts of a period were removed.
pub open spec fn deltas_cleared(c: CatalogView, key: Seq<char>) -> CatalogView {
    with_period_deltas(c, c.period_deltas.remove(key))
}

/// A catalog after the state of a period was recorded.
pub open spec fn state_recorded(c: CatalogView, key: Seq<char>, state: PeriodState) -> CatalogView {
    CatalogView { period_state: c.period_state.insert(key, seq![state.code()]), ..c }
}

/// A catalog after a compaction run was recorded.
pub open spec fn compaction_recorded(
    c: CatalogView,
    timestamp: u64,
    periods_compacted: u32,
    parts_merged: u32,
    deltas_applied: u32,
    bytes_reclaimed: u64,
) -> CatalogView {
    CatalogView {
        compaction_log: c.compaction_log.insert(
            timestamp,
            compaction_bytes(
                timestamp,
                periods_compacted,
                parts_merged,
                deltas_applied,
                bytes_reclaimed,
            ),
        ),
        ..c
    }
}

/// Rows after identifiers were appended to the list of a key.
pub open spec fn appended(rows: Rows, key: Seq<char>, ids: Seq<u64>) -> Result<Rows, Seq<char>> {
    match list_of(rows, key) {
        Ok(existing) => Ok(rows.insert(key, list_bytes(existing + ids))),
        Err(m) => Err(m),
    }
}

/// The outcome of appending to the list of a key: it is read first, then
/// written.
pub open spec fn list_appended(rows: Rows, key: Seq<char>, ids: Seq<u64>) -> Result<
    Rows,
    ErrorView,
> {
    match on_key(key, appended(rows, key, ids)) {
        Ok(after) => if_fits(key, after),
        Err(e) => Err(e),
    }
}

fn append_list(table: &mut Table<String, Vec<u8>>, key: &str, ids: &[u64]) -> (r: Result<
    (),
    InoxSetError,
>)
    requires
        old(table).wf(),
    ensures
        final(table).wf(),
        changes_as(
            *old(table),
            r,
            *final(table),
            list_appended(byte_rows(old(table)@), key@, ids@),
        ),
{
    if key.is_empty() {
        return Err(key_size_error());
    }
    let mut all = match read_list(table, key) {
        Ok(existing) => existing,
        Err(e) => {
            return Err(e);
        },
    };
    let ghost existing = all@;
    let mut i: usize = 0;
    assert(all@ =~= existing + ids@.subrange(0, 0));
    while i < ids.len()
        invariant
            i <= ids@.len(),
            all@ =~= existing + ids@.subrange(0, i as int),
        decreases ids@.len() - i,
    {
        all.push(ids[i]);
        i = i + 1;
    }
    assert(all@ =~= existing + ids@);
    put(table, key, serialize_u64_vec(all.as_slice()))
}

/// Events that are listed come with their configurations, in the order of their
/// names.
pub proof fn lemma_events_of(rows: Rows, names: Seq<Seq<char>>)
    requires
        events_of(rows, names) is Ok,
    ensures
        ({
            let out = events_of(rows, names)->Ok_0;
            &&& out.len() == names.len()
            &&& forall|i: int|
                0 <= i < out.len() ==> (#[trigger] out[i]).name == names[i] && event_in(
                    names[i],
                    rows[names[i]],
                ) == Ok::<(Granularity, Rollup), Seq<char>>(
                    (out[i].finest_granularity, out[i].rollup),
                ) && out[i] == configured(names[i], out[i].finest_granularity, out[i].rollup)
        }),
    decreases names.len(),
{
    if names.len() > 0 {
        lemma_events_of(rows, names.drop_last());
    }
}

/// An error in the first events is the error of all.
proof fn lemma_events_error(rows: Rows, names: Seq<Seq<char>>, n: int)
    requires
        0 <= n <= names.len(),
        events_of(rows, names.subrange(0, n)) is Err,
    ensures
        events_of(rows, names) == events_of(rows, names.subrange(0, n)),
    decreases names.len() - n,
{
    if n < names.len() {
        let longer = names.subrange(0, n + 1);
        assert(longer.drop_last() =~= names.subrange(0, n));
        lemma_events_error(rows, names, n + 1);
    } else {
        assert(names.subrange(0, n) =~= names);
    }
}

// ---------------------------------------------------------------------------
// Laws
// ---------------------------------------------------------------------------

/// A registered event is found again with its configuration.
pub proof fn law_registered_event_is_found(rows: Rows, config: EventConfig)
    requires
        config.wf(),
    ensures
        ({
            let bytes = event_bytes(config.finest_granularity, config.rollup);
            event_in(config.name@, rows.insert(config.name@, bytes)[config.name@]) == Ok::<
                (Granularity, Rollup),
                Seq<char>,
            >((config.finest_granularity, config.rollup))
        }),
{
    crate::codec::law_event_round_trip(config.name@, config);
}

/// A registered part is found again as it was.
pub proof fn law_registered_part_is_found(parts: IdRows, p: PartView)
    requires
        part_bytes(p) is Ok,
    ensures
        part_of(parts.insert(p.part_id, part_bytes(p)->Ok_0), p.part_id) == Ok::<
            Option<PartView>,
            Seq<char>,
        >(Some(p)),
{
    crate::codec::law_part_round_trip(part_context(p.part_id), p, Seq::empty());
}

/// What is appended to a list stands behind what was there, and no other list
/// changes.
pub proof fn law_append_then_get(rows: Rows, key: Seq<char>, ids: Seq<u64>, other: Seq<char>)
    requires
        list_of(rows, key) is Ok,
    ensures
        ({
            let after = appended(rows, key, ids)->Ok_0;
            &&& appended(rows, key, ids) is Ok
            &&& fits_table(key) ==> list_appended(rows, key, ids) == Ok::<Rows, ErrorView>(after)
            &&& list_of(after, key) == Ok::<Seq<u64>, Seq<char>>(list_of(rows, key)->Ok_0 + ids)
            &&& other != key ==> list_of(after, other) == list_of(rows, other)
        }),
{
    crate::codec::law_list_round_trip(key, list_of(rows, key)->Ok_0 + ids);
}

/// A list that was set is read back, and a cleared one is empty.
pub proof fn law_set_then_get(rows: Rows, key: Seq<char>, ids: Seq<u64>)
    ensures
        list_of(rows.insert(key, list_bytes(ids)), key) == Ok::<Seq<u64>, Seq<char>>(ids),
        list_of(rows.remove(key), key) == Ok::<Seq<u64>, Seq<char>>(Seq::empty()),
{
    crate::codec::law_list_round_trip(key, ids);
}

/// A recorded state is read back.
pub proof fn law_state_round_trip(rows: Rows, key: Seq<char>, state: PeriodState)
    ensures
        state_of(rows.insert(key, seq![state.code()]), key) == Ok::<Option<PeriodState>, Seq<char>>(
            Some(state),
        ),
{
}

/// Part identifiers only grow: whatever is taken later is larger than whatever
/// was taken before.
pub proof fn law_part_ids_grow(counter: Option<u64>, first: u64, second: u64)
    requires
        ids_allocated(counter, first) is Ok,
        ids_allocated(Some((ids_allocated(counter, first)->Ok_0).1), second) is Ok,
    ensures
        ({
            let (early, next) = ids_allocated(counter, first)->Ok_0;
            let (late, _) = ids_allocated(Some(next), second)->Ok_0;
            &&& forall|i: int, j: int|
                0 <= i < early.len() && 0 <= j < late.len() ==> #[trigger] early[i]
                    < #[trigger] late[j]
            &&& forall|i: int, j: int|
                0 <= i < j < early.len() ==> #[trigger] early[i] < #[trigger] early[j]
        }),
{
}

/// After an event is deleted nothing of it is left: neither its registration
/// nor a row of its periods nor a part that those rows listed; and no row of
/// another event is touched.
pub proof fn law_deleted_event_is_gone(c: CatalogView, name: Seq<char>, key: Seq<char>)
    requires
        event_removed(c, name) is Ok,
    ensures
        ({
            let after = (event_removed(c, name)->Ok_0).1;
            let own = has_prefix(key, name + "/"@);
            &&& !after.events.dom().contains(name)
            &&& own ==> !after.period_parts.dom().contains(key)
            &&& own ==> !after.period_deltas.dom().contains(key)
            &&& own ==> !after.period_state.dom().contains(key)
            &&& !own ==> list_of(after.period_parts, key) == list_of(c.period_parts, key)
            &&& !own ==> list_of(after.period_deltas, key) == list_of(c.period_deltas, key)
            &&& !own ==> state_of(after.period_state, key) == state_of(c.period_state, key)
            &&& after.dict_fwd == c.dict_fwd && after.dict_rev == c.dict_rev
            &&& after.next_part_id == c.next_part_id
        }),
{
}

/// After a period is deleted nothing of it is left, and no other period is
/// touched.
pub proof fn law_deleted_period_is_gone(c: CatalogView, key: Seq<char>, other: Seq<char>)
    requires
        period_removed(c, key) is Ok,
        other != key,
    ensures
        ({
            let after = (period_removed(c, key)->Ok_0).1;
            &&& list_of(after.period_parts, key) == Ok::<Seq<u64>, Seq<char>>(Seq::empty())
            &&& list_of(after.period_deltas, key) == Ok::<Seq<u64>, Seq<char>>(Seq::empty())
            &&& state_of(after.period_state, key) == Ok::<Option<PeriodState>, Seq<char>>(None)
            &&& list_of(after.period_parts, other) == list_of(c.period_parts, other)
            &&& list_of(after.period_deltas, other) == list_of(c.period_deltas, other)
            &&& state_of(after.period_state, other) == state_of(c.period_state, other)
            &&& after.events == c.events
        }),
{
}

/// The tables of a catalog have finitely many rows.
pub proof fn law_tables_finite(c: Catalog)
    requires
        c.wf(),
    ensures
        c@.events.dom().finite(),
        c@.parts.dom().finite(),
        c@.period_parts.dom().finite(),
        c@.period_deltas.dom().finite(),
        c@.period_state.dom().finite(),
{
    crate::table::lemma_rows_map_len(c.events.rows());
    crate::table::lemma_rows_map_len(c.parts.rows());
    crate::table::lemma_rows_map_len(c.period_parts.rows());
    crate::table::lemma_rows_map_len(c.period_deltas.rows());
    crate::table::lemma_rows_map_len(c.period_state.rows());
    assert(c@.events.dom() =~= c.events@.dom());
    assert(c@.parts.dom() =~= c.parts@.dom());
    assert(c@.period_parts.dom() =~= c.period_parts@.dom());
    assert(c@.period_deltas.dom() =~= c.period_deltas@.dom());
    assert(c@.period_state.dom() =~= c.period_state@.dom());
}

/// Whether the list of a key holds an identifier.
pub open spec fn lists_id(rows: Rows, key: Seq<char>, id: u64) -> bool {
    rows.dom().contains(key) && (list_of(rows, key) matches Ok(ids) && ids.contains(id))
}

/// Whether a list under a key that starts with `prefix` holds an identifier.
pub open spec fn listed_under(rows: Rows, prefix: Seq<char>, id: u64) -> bool {
    exists|key: Seq<char>| has_prefix(key, prefix) && #[trigger] lists_id(rows, key, id)
}

proof fn lemma_lists_of_contains(rows: Rows, keys: Seq<Seq<char>>, id: u64)
    requires
        lists_of(rows, keys) is Ok,
        forall|i: int| 0 <= i < keys.len() ==> rows.dom().contains(#[trigger] keys[i]),
    ensures
        lists_of(rows, keys)->Ok_0.contains(id) <==> exists|i: int|
            0 <= i < keys.len() && lists_id(rows, #[trigger] keys[i], id),
    decreases keys.len(),
{
    if keys.len() > 0 {
        let init = keys.drop_last();
        assert forall|i: int| 0 <= i < init.len() implies rows.dom().contains(
            #[trigger] init[i],
        ) by {
            assert(init[i] == keys[i]);
        }
        lemma_lists_of_contains(rows, init, id);
        let front = lists_of(rows, init)->Ok_0;
        let ids = list_of(rows, keys.last())->Ok_0;
        let all = lists_of(rows, keys)->Ok_0;
        assert(all == front + ids);
        assert(rows.dom().contains(keys[keys.len() - 1]));
        if all.contains(id) {
            let m = choose|m: int| 0 <= m < all.len() && all[m] == id;
            if m < front.len() {
                assert(front[m] == id);
                let i = choose|i: int|
                    0 <= i < init.len() && lists_id(rows, #[trigger] init[i], id);
                assert(lists_id(rows, keys[i], id));
            } else {
                assert(ids[m - front.len()] == id);
                assert(lists_id(rows, keys[keys.len() - 1], id));
            }
        }
        if exists|i: int| 0 <= i < keys.len() && lists_id(rows, #[trigger] keys[i], id) {
            let i = choose|i: int| 0 <= i < keys.len() && lists_id(rows, #[trigger] keys[i], id);
            if i < init.len() {
                assert(lists_id(rows, init[i], id));
                let m = choose|m: int| 0 <= m < front.len() && front[m] == id;
                assert(all[m] == id);
            } else {
                let m = choose|m: int| 0 <= m < ids.len() && ids[m] == id;
                assert(all[front.len() + m] == id);
            }
        }
    }
}

proof fn lemma_listed_under(rows: Rows, prefix: Seq<char>, id: u64)
    requires
        rows.dom().finite(),
        lists_of(rows, listing(rows.dom(), prefix)) is Ok,
    ensures
        lists_of(rows, listing(rows.dom(), prefix))->Ok_0.contains(id) <==> listed_under(
            rows,
            prefix,
            id,
        ),
{
    let keys = listing(rows.dom(), prefix);
    crate::order::law_listing_exists(rows.dom(), prefix);
    assert forall|i: int| 0 <= i < keys.len() implies rows.dom().contains(#[trigger] keys[i])
        && has_prefix(keys[i], prefix) by {
        assert(keys.contains(keys[i]));
    }
    lemma_lists_of_contains(rows, keys, id);
    if listed_under(rows, prefix, id) {
        let key = choose|key: Seq<char>|
            has_prefix(key, prefix) && #[trigger] lists_id(rows, key, id);
        assert(keys.contains(key));
        let i = choose|i: int| 0 <= i < keys.len() && keys[i] == key;
        assert(lists_id(rows, keys[i], id));
    }
}

/// Deleting an event removes exactly the parts that the lists of its periods
/// hold; the records of all other parts stay as they are.
pub proof fn law_deleted_event_parts(c: CatalogView, name: Seq<char>, id: u64)
    requires
        c.period_parts.dom().finite(),
        c.period_deltas.dom().finite(),
        event_removed(c, name) is Ok,
    ensures
        ({
            let after = (event_removed(c, name)->Ok_0).1;
            let prefix = name + "/"@;
            let own = listed_under(c.period_parts, prefix, id) || listed_under(
                c.period_deltas,
                prefix,
                id,
            );
            &&& own ==> !after.parts.dom().contains(id)
            &&& !own ==> (after.parts.dom().contains(id) <==> c.parts.dom().contains(id))
            &&& !own ==> part_of(after.parts, id) == part_of(c.parts, id)
        }),
{
    let prefix = name + "/"@;
    let data = lists_of(c.period_parts, listing(c.period_parts.dom(), prefix))->Ok_0;
    let deltas = lists_of(c.period_deltas, listing(c.period_deltas.dom(), prefix))->Ok_0;
    lemma_listed_under(c.period_parts, prefix, id);
    lemma_listed_under(c.period_deltas, prefix, id);
    lemma_joined_contains(data, deltas, id);
}

proof fn lemma_joined_contains(a: Seq<u64>, b: Seq<u64>, id: u64)
    ensures
        (a + b).to_set().contains(id) <==> a.contains(id) || b.contains(id),
{
    let all = a + b;
    if a.contains(id) {
        let i = choose|i: int| 0 <= i < a.len() && a[i] == id;
        assert(all[i] == id);
    }
    if b.contains(id) {
        let i = choose|i: int| 0 <= i < b.len() && b[i] == id;
        assert(all[a.len() + i] == id);
    }
    if all.contains(id) {
        let i = choose|i: int| 0 <= i < all.len() && all[i] == id;
        if i < a.len() {
            assert(a[i] == id);
        } else {
            assert(b[i - a.len()] == id);
        }
    }
}

/// Deleting a period removes exactly the parts that its lists hold.
pub proof fn law_deleted_period_parts(c: CatalogView, key: Seq<char>, id: u64)
    requires
        period_removed(c, key) is Ok,
    ensures
        ({
            let after = (period_removed(c, key)->Ok_0).1;
            let own = lists_id(c.period_parts, key, id) || lists_id(c.period_deltas, key, id);
            &&& own ==> !after.parts.dom().contains(id)
            &&& !own ==> (after.parts.dom().contains(id) <==> c.parts.dom().contains(id))
            &&& !own ==> part_of(after.parts, id) == part_of(c.parts, id)
        }),
{
    let data = list_of(c.period_parts, key)->Ok_0;
    let deltas = list_of(c.period_deltas, key)->Ok_0;
    lemma_joined_contains(data, deltas, id);
}

/// A part that only the lists of another event hold keeps its record when an
/// event is deleted.
pub proof fn law_parts_of_other_events_are_kept(c: CatalogView, name: Seq<char>, id: u64)
    requires
        c.period_parts.dom().finite(),
        c.period_deltas.dom().finite(),
        event_removed(c, name) is Ok,
        forall|key: Seq<char>|
            #![trigger lists_id(c.period_parts, key, id)]
            #![trigger lists_id(c.period_deltas, key, id)]
            lists_id(c.period_parts, key, id) || lists_id(c.period_deltas, key, id) ==> exists|
                other: Seq<char>,
                gran: Granularity,
                period: crate::types::Period,
            |
                other != name && crate::period::no_slash(other) && key
                    == #[trigger] crate::period::catalog_key_text(other, gran, period),
        crate::period::no_slash(name),
    ensures
        ({
            let after = (event_removed(c, name)->Ok_0).1;
            &&& after.parts.dom().contains(id) <==> c.parts.dom().contains(id)
            &&& part_of(after.parts, id) == part_of(c.parts, id)
        }),
{
    let prefix = name + "/"@;
    assert forall|key: Seq<char>| has_prefix(key, prefix) implies !#[trigger] lists_id(
        c.period_parts,
        key,
        id,
    ) by {
        if lists_id(c.period_parts, key, id) {
            let (other, gran, period) = choose|
                other: Seq<char>,
                gran: Granularity,
                period: crate::types::Period,
            |
                other != name && crate::period::no_slash(other) && key
                    == #[trigger] crate::period::catalog_key_text(other, gran, period);
            law_prefix_separates_events(name, other, gran, period);
        }
    }
    assert forall|key: Seq<char>| has_prefix(key, prefix) implies !#[trigger] lists_id(
        c.period_deltas,
        key,
        id,
    ) by {
        if lists_id(c.period_deltas, key, id) {
            let (other, gran, period) = choose|
                other: Seq<char>,
                gran: Granularity,
                period: crate::types::Period,
            |
                other != name && crate::period::no_slash(other) && key
                    == #[trigger] crate::period::catalog_key_text(other, gran, period);
            law_prefix_separates_events(name, other, gran, period);
        }
    }
    law_deleted_event_parts(c, name, id);
}

/// The period keys of one event never start with the prefix of another, so
/// deleting an event cannot reach a different one.
pub proof fn law_prefix_separates_events(
    a: Seq<char>,
    b: Seq<char>,
    gran: Granularity,
    period: crate::types::Period,
)
    requires
        crate::period::no_slash(a),
        crate::period::no_slash(b),
        has_prefix(crate::period::catalog_key_text(b, gran, period), a + "/"@),
    ensures
        a == b,
{
    reveal_strlit("/");
    let key = crate::period::catalog_key_text(b, gran, period);
    let head = key.subrange(0, a.len() as int + 1);
    assert(head == a + "/"@);
    assert(head[a.len() as int] == '/');
    assert(key[a.len() as int] == '/');
    assert(key[b.len() as int] == '/');
    if a.len() < b.len() {
        assert(key[a.len() as int] == b[a.len() as int]);
    }
    if b.len() < a.len() {
        assert(head[b.len() as int] == a[b.len() as int]);
    }
    assert forall|i: int| 0 <= i < a.len() implies a[i] == b[i] by {
        assert(head[i] == a[i]);
        assert(key[i] == b[i]);
    }
    assert(a =~= b);
}

/// A registered event is found with its configuration; every other event, and
/// everything else in the catalog, is as it was.
pub proof fn law_register_then_get(c: CatalogView, config: EventConfig, other: Seq<char>)
    requires
        config.wf(),
    ensures
        ({
            let after = event_registered(c, config@);
            &&& event_of(after.events, config.name@) == Ok::<Option<ConfigView>, Seq<char>>(
                Some(config@),
            )
            &&& after.events.dom().contains(other) <==> c.events.dom().contains(other) || other
                == config.name@
            &&& other != config.name@ ==> event_of(after.events, other) == event_of(
                c.events,
                other,
            )
            &&& after.parts == c.parts
            &&& after.period_parts == c.period_parts
            &&& after.period_deltas == c.period_deltas
            &&& after.period_state == c.period_state
            &&& after.compaction_log == c.compaction_log
            &&& after.next_part_id == c.next_part_id
            &&& after.dict_fwd == c.dict_fwd
            &&& after.dict_rev == c.dict_rev
            &&& after.dict_next_id == c.dict_next_id
        }),
{
    crate::codec::law_event_round_trip(config.name@, config);
}

/// A stored part is found as it was; every other part, and everything else in the
/// catalog, is as it was.
pub proof fn law_store_part_then_get(c: CatalogView, p: PartView, other: u64)
    requires
        part_bytes(p) is Ok,
    ensures
        ({
            let after = part_stored(c, p.part_id, part_bytes(p)->Ok_0);
            &&& part_of(after.parts, p.part_id) == Ok::<Option<PartView>, Seq<char>>(Some(p))
            &&& after.parts.dom().contains(other) <==> c.parts.dom().contains(other) || other
                == p.part_id
            &&& other != p.part_id ==> part_of(after.parts, other) == part_of(c.parts, other)
            &&& after.events == c.events
            &&& after.period_parts == c.period_parts
            &&& after.period_deltas == c.period_deltas
            &&& after.period_state == c.period_state
            &&& after.compaction_log == c.compaction_log
            &&& after.next_part_id == c.next_part_id
            &&& after.dict_fwd == c.dict_fwd
            &&& after.dict_rev == c.dict_rev
            &&& after.dict_next_id == c.dict_next_id
        }),
{
    crate::codec::law_part_round_trip(part_context(p.part_id), p, Seq::empty());
}

/// What is appended to the data parts of a period stands behind those that were
/// there; every other list, and everything else in the catalog, is as it was.
pub proof fn law_append_parts_then_get(
    c: CatalogView,
    key: Seq<char>,
    ids: Seq<u64>,
    other: Seq<char>,
)
    requires
        list_appended(c.period_parts, key, ids) is Ok,
    ensures
        ({
            let after = with_period_parts(c, list_appended(c.period_parts, key, ids)->Ok_0);
            &&& list_of(c.period_parts, key) is Ok
            &&& list_of(after.period_parts, key) == Ok::<Seq<u64>, Seq<char>>(
                list_of(c.period_parts, key)->Ok_0 + ids,
            )
            &&& after.period_parts.dom().contains(other) <==> c.period_parts.dom().contains(other)
                || other == key
            &&& other != key ==> list_of(after.period_parts, other) == list_of(
                c.period_parts,
                other,
            )
            &&& after.events == c.events
            &&& after.parts == c.parts
            &&& after.period_deltas == c.period_deltas
            &&& after.period_state == c.period_state
            &&& after.compaction_log == c.compaction_log
            &&& after.next_part_id == c.next_part_id
            &&& after.dict_fwd == c.dict_fwd
            &&& after.dict_rev == c.dict_rev
            &&& after.dict_next_id == c.dict_next_id
        }),
{
    crate::codec::law_list_round_trip(key, list_of(c.period_parts, key)->Ok_0 + ids);
}

/// What is appended to the delta parts of a period stands behind those that were
/// there; every other list, and everything else in the catalog, is as it was.
pub proof fn law_append_deltas_then_get(
    c: CatalogView,
    key: Seq<char>,
    ids: Seq<u64>,
    other: Seq<char>,
)
    requires
        list_appended(c.period_deltas, key, ids) is Ok,
    ensures
        ({
            let after = with_period_deltas(c, list_appended(c.period_deltas, key, ids)->Ok_0);
            &&& list_of(c.period_deltas, key) is Ok
            &&& list_of(after.period_deltas, key) == Ok::<Seq<u64>, Seq<char>>(
                list_of(c.period_deltas, key)->Ok_0 + ids,
            )
            &&& after.period_deltas.dom().contains(other) <==> c.period_deltas.dom().contains(other)
                || other == key
            &&& other != key ==> list_of(after.period_deltas, other) == list_of(
                c.period_deltas,
                other,
            )
            &&& after.events == c.events
            &&& after.parts == c.parts
            &&& after.period_parts == c.period_parts
            &&& after.period_state == c.period_state
            &&& after.compaction_log == c.compaction_log
            &&& after.next_part_id == c.next_part_id
            &&& after.dict_fwd == c.dict_fwd
            &&& after.dict_rev == c.dict_rev
            &&& after.dict_next_id == c.dict_next_id
        }),
{
    crate::codec::law_list_round_trip(key, list_of(c.period_deltas, key)->Ok_0 + ids);
}

/// Appending succeeds exactly where the key can be written and the list that is
/// there can be read.
pub proof fn law_append_succeeds(rows: Rows, key: Seq<char>, ids: Seq<u64>)
    ensures
        list_appended(rows, key, ids) is Ok <==> 0 < key.len() && encode_utf8(key).len() <= 511 && (
        rows.dom().contains(key) ==> list_in(key, rows[key]) is Ok),
        key.len() > 0 && rows.dom().contains(key) && list_in(key, rows[key]) is Err
            ==> list_appended(rows, key, ids) == Err::<Rows, ErrorView>(
            ErrorView::CatalogCorrupted { context: list_in(key, rows[key])->Err_0 },
        ),
        list_appended(rows, key, ids) is Err && (key.len() == 0 || !rows.dom().contains(key)
            || list_in(key, rows[key]) is Ok) ==> list_appended(rows, key, ids) == Err::<
            Rows,
            ErrorView,
        >(key_error()),
{
}

/// Data parts that were set are read back, cleared delta parts are gone; every
/// other list, and everything else in the catalog, is as it was.
pub proof fn law_replace_and_clear(
    c: CatalogView,
    key: Seq<char>,
    ids: Seq<u64>,
    other: Seq<char>,
)
    ensures
        ({
            let after = parts_replaced(c, key, ids);
            &&& list_of(after.period_parts, key) == Ok::<Seq<u64>, Seq<char>>(ids)
            &&& after.period_parts.dom().contains(other) <==> c.period_parts.dom().contains(other)
                || other == key
            &&& other != key ==> list_of(after.period_parts, other) == list_of(
                c.period_parts,
                other,
            )
            &&& after.events == c.events
            &&& after.parts == c.parts
            &&& after.period_deltas == c.period_deltas
            &&& after.period_state == c.period_state
            &&& after.compaction_log == c.compaction_log
            &&& after.next_part_id == c.next_part_id
            &&& after.dict_fwd == c.dict_fwd
            &&& after.dict_rev == c.dict_rev
            &&& after.dict_next_id == c.dict_next_id
        }),
        ({
            let after = deltas_cleared(c, key);
            &&& !after.period_deltas.dom().contains(key)
            &&& list_of(after.period_deltas, key) == Ok::<Seq<u64>, Seq<char>>(Seq::empty())
            &&& other != key ==> (after.period_deltas.dom().contains(other)
                <==> c.period_deltas.dom().contains(other))
            &&& other != key ==> list_of(after.period_deltas, other) == list_of(
                c.period_deltas,
                other,
            )
            &&& after.events == c.events
            &&& after.parts == c.parts
            &&& after.period_parts == c.period_parts
            &&& after.period_state == c.period_state
            &&& after.compaction_log == c.compaction_log
            &&& after.next_part_id == c.next_part_id
            &&& after.dict_fwd == c.dict_fwd
            &&& after.dict_rev == c.dict_rev
            &&& after.dict_next_id == c.dict_next_id
        }),
{
    crate::codec::law_list_round_trip(key, ids);
}

/// A recorded state is read back; every other period's state, and everything else
/// in the catalog, is as it was.
pub proof fn law_record_state_then_get(
    c: CatalogView,
    key: Seq<char>,
    state: PeriodState,
    other: Seq<char>,
)
    ensures
        ({
            let after = state_recorded(c, key, state);
            &&& state_of(after.period_state, key) == Ok::<Option<PeriodState>, Seq<char>>(
                Some(state),
            )
            &&& other != key ==> state_of(after.period_state, other) == state_of(
                c.period_state,
                other,
            )
            &&& after.period_state.dom().contains(other) <==> c.period_state.dom().contains(other)
                || other == key
            &&& after.events == c.events
            &&& after.parts == c.parts
            &&& after.period_parts == c.period_parts
            &&& after.period_deltas == c.period_deltas
            &&& after.compaction_log == c.compaction_log
            &&& after.next_part_id == c.next_part_id
            &&& after.dict_fwd == c.dict_fwd
            &&& after.dict_rev == c.dict_rev
            &&& after.dict_next_id == c.dict_next_id
        }),
{
}

/// The record of a compaction run is kept under its timestamp and holds its
/// numbers; all other records, and everything else in the catalog, are as they
/// were.
pub proof fn law_compaction_record(
    c: CatalogView,
    timestamp: u64,
    periods_compacted: u32,
    parts_merged: u32,
    deltas_applied: u32,
    bytes_reclaimed: u64,
    other: u64,
)
    ensures
        ({
            let after = compaction_recorded(
                c,
                timestamp,
                periods_compacted,
                parts_merged,
                deltas_applied,
                bytes_reclaimed,
            );
            let row = after.compaction_log[timestamp];
            &&& after.compaction_log.dom().contains(other) <==> c.compaction_log.dom().contains(
                other,
            ) || other == timestamp
            &&& other != timestamp && c.compaction_log.dom().contains(other)
                ==> after.compaction_log[other] == c.compaction_log[other]
            &&& row.len() == 29
            &&& row[0] == 1
            &&& crate::codec::le_value(row.subrange(1, 9)) == timestamp
            &&& crate::codec::le_value(row.subrange(9, 13)) == periods_compacted
            &&& crate::codec::le_value(row.subrange(13, 17)) == parts_merged
            &&& crate::codec::le_value(row.subrange(17, 21)) == deltas_applied
            &&& crate::codec::le_value(row.subrange(21, 29)) == bytes_reclaimed
            &&& after.events == c.events
            &&& after.parts == c.parts
            &&& after.period_parts == c.period_parts
            &&& after.period_deltas == c.period_deltas
            &&& after.period_state == c.period_state
            &&& after.next_part_id == c.next_part_id
            &&& after.dict_fwd == c.dict_fwd
            &&& after.dict_rev == c.dict_rev
            &&& after.dict_next_id == c.dict_next_id
        }),
{
    crate::codec::law_compaction_row(
        timestamp,
        periods_compacted,
        parts_merged,
        deltas_applied,
        bytes_reclaimed,
    );
}

/// What the rows of a key say: without a row a list is empty and a state unknown;
/// otherwise they are what the row holds.
pub proof fn law_rows_are_read(rows: Rows, key: Seq<char>, state: PeriodState)
    ensures
        !rows.dom().contains(key) ==> list_of(rows, key) == Ok::<Seq<u64>, Seq<char>>(Seq::empty()),
        rows.dom().contains(key) ==> list_of(rows, key) == list_in(key, rows[key]),
        !rows.dom().contains(key) ==> event_of(rows, key) == Ok::<Option<ConfigView>, Seq<char>>(
            None,
        ),
        rows.dom().contains(key) ==> (event_of(rows, key) is Ok <==> event_in(
            key,
            rows[key],
        ) is Ok),
        rows.dom().contains(key) && event_in(key, rows[key]) is Err ==> event_of(rows, key)
            == Err::<Option<ConfigView>, Seq<char>>(event_in(key, rows[key])->Err_0),
        rows.dom().contains(key) && event_in(key, rows[key]) is Ok ==> event_of(rows, key) == Ok::<
            Option<ConfigView>,
            Seq<char>,
        >(
            Some(
                configured(
                    key,
                    (event_in(key, rows[key])->Ok_0).0,
                    (event_in(key, rows[key])->Ok_0).1,
                ),
            ),
        ),
        state_of(rows, key) == Ok::<Option<PeriodState>, Seq<char>>(None) <==> !rows.dom().contains(
            key,
        ),
        state_of(rows, key) == Ok::<Option<PeriodState>, Seq<char>>(Some(state))
            <==> rows.dom().contains(key) && rows[key].len() > 0 && rows[key][0] == state.code(),
        state_of(rows, key) is Err <==> rows.dom().contains(key) && (rows[key].len() == 0
            || rows[key][0] > 3),
{
}

/// What the row of an identifier says: without one there is no part; otherwise it
/// is the part that the row holds.
pub proof fn law_part_rows_are_read(parts: IdRows, id: u64)
    ensures
        !parts.dom().contains(id) ==> part_of(parts, id) == Ok::<Option<PartView>, Seq<char>>(None),
        parts.dom().contains(id) && part_in(part_context(id), parts[id]) is Ok ==> part_of(
            parts,
            id,
        ) == Ok::<Option<PartView>, Seq<char>>(Some(part_in(part_context(id), parts[id])->Ok_0)),
        parts.dom().contains(id) && part_in(part_context(id), parts[id]) is Err ==> part_of(
            parts,
            id,
        ) == Err::<Option<PartView>, Seq<char>>(part_in(part_context(id), parts[id])->Err_0),
        part_context(id) == "part_id="@ + decimal(id as nat),
{
}

proof fn lemma_parts_taken(parts: IdRows, ids: Seq<u64>) -> (f: Seq<int>)
    requires
        parts_taken(parts, ids) is Ok,
    ensures
        f.len() == parts_taken(parts, ids)->Ok_0.len(),
        forall|k: int|
            0 <= k < f.len() ==> {
                &&& 0 <= #[trigger] f[k] < ids.len()
                &&& parts.dom().contains(ids[f[k]])
                &&& !ids.subrange(0, f[k]).contains(ids[f[k]])
                &&& part_in(part_context(ids[f[k]]), parts[ids[f[k]]]) == Ok::<PartView, Seq<char>>(
                    parts_taken(parts, ids)->Ok_0[k],
                )
            },
        forall|k: int, l: int| 0 <= k < l < f.len() ==> #[trigger] f[k] < #[trigger] f[l],
        forall|i: int|
            0 <= i < ids.len() && parts.dom().contains(#[trigger] ids[i]) && !ids.subrange(
                0,
                i,
            ).contains(ids[i]) ==> f.contains(i),
    decreases ids.len(),
{
    if ids.len() == 0 {
        Seq::empty()
    } else {
        let init = ids.drop_last();
        let g = lemma_parts_taken(parts, init);
        let n = ids.len() - 1;
        let last = ids[n];
        assert(last == ids.last());
        assert(ids.subrange(0, n) =~= init);
        let fresh = !init.contains(last) && parts.dom().contains(last);
        let f = if fresh {
            g.push(n)
        } else {
            g
        };
        let out = parts_taken(parts, ids)->Ok_0;
        let front = parts_taken(parts, init)->Ok_0;
        assert forall|k: int| 0 <= k < f.len() implies {
            &&& 0 <= #[trigger] f[k] < ids.len()
            &&& parts.dom().contains(ids[f[k]])
            &&& !ids.subrange(0, f[k]).contains(ids[f[k]])
            &&& part_in(part_context(ids[f[k]]), parts[ids[f[k]]]) == Ok::<PartView, Seq<char>>(
                out[k],
            )
        } by {
            if k < g.len() {
                assert(f[k] == g[k]);
                assert(ids[g[k]] == init[g[k]]);
                assert(ids.subrange(0, g[k]) =~= init.subrange(0, g[k]));
                assert(out[k] == front[k]);
            }
        }
        assert forall|k: int, l: int| 0 <= k < l < f.len() implies #[trigger] f[k]
            < #[trigger] f[l] by {
            if l < g.len() {
                assert(g[k] < g[l]);
            } else {
                assert(f[k] == g[k]);
                assert(0 <= g[k] < init.len());
            }
        }
        assert forall|i: int|
            0 <= i < ids.len() && parts.dom().contains(#[trigger] ids[i]) && !ids.subrange(
                0,
                i,
            ).contains(ids[i]) implies f.contains(i) by {
            if i < n {
                assert(init[i] == ids[i]);
                assert(init.subrange(0, i) =~= ids.subrange(0, i));
                assert(g.contains(i));
                let k = choose|k: int| 0 <= k < g.len() && g[k] == i;
                assert(f[k] == i);
            } else {
                assert(f[f.len() - 1] == n);
            }
        }
        f
    }
}

/// Removing listed parts hands back exactly those that the catalog held, each
/// once, in the order in which they are first listed: the k-th that is handed back
/// is the one listed at position `f[k]`. It fails exactly where a listed part
/// cannot be decoded.
pub proof fn law_taken_parts(parts: IdRows, ids: Seq<u64>) -> (f: Seq<int>)
    requires
        parts_taken(parts, ids) is Ok,
    ensures
        f.len() == parts_taken(parts, ids)->Ok_0.len(),
        forall|k: int|
            0 <= k < f.len() ==> {
                &&& 0 <= #[trigger] f[k] < ids.len()
                &&& parts.dom().contains(ids[f[k]])
                &&& !ids.subrange(0, f[k]).contains(ids[f[k]])
                &&& part_in(part_context(ids[f[k]]), parts[ids[f[k]]]) == Ok::<PartView, Seq<char>>(
                    parts_taken(parts, ids)->Ok_0[k],
                )
            },
        forall|k: int, l: int| 0 <= k < l < f.len() ==> #[trigger] f[k] < #[trigger] f[l],
        forall|i: int|
            0 <= i < ids.len() && parts.dom().contains(#[trigger] ids[i]) && !ids.subrange(
                0,
                i,
            ).contains(ids[i]) ==> f.contains(i),
{
    lemma_parts_taken(parts, ids)
}

/// Removing listed parts fails exactly where the catalog holds one of them in a row
/// that cannot be decoded.
pub proof fn law_taking_parts_fails(parts: IdRows, ids: Seq<u64>)
    ensures
        parts_taken(parts, ids) is Err <==> exists|i: int|
            0 <= i < ids.len() && parts.dom().contains(#[trigger] ids[i]) && part_in(
                part_context(ids[i]),
                parts[ids[i]],
            ) is Err,
    decreases ids.len(),
{
    if ids.len() > 0 {
        let init = ids.drop_last();
        law_taking_parts_fails(parts, init);
        assert(ids[ids.len() - 1] == ids.last());
        if parts_taken(parts, init) is Err {
            let i = choose|i: int|
                0 <= i < init.len() && parts.dom().contains(#[trigger] init[i]) && part_in(
                    part_context(init[i]),
                    parts[init[i]],
                ) is Err;
            assert(ids[i] == init[i]);
        }
        if exists|i: int|
            0 <= i < ids.len() && parts.dom().contains(#[trigger] ids[i]) && part_in(
                part_context(ids[i]),
                parts[ids[i]],
            ) is Err {
            let i = choose|i: int|
                0 <= i < ids.len() && parts.dom().contains(#[trigger] ids[i]) && part_in(
                    part_context(ids[i]),
                    parts[ids[i]],
                ) is Err;
            if i < init.len() {
                assert(init[i] == ids[i]);
            } else if init.contains(ids.last()) {
                let k = choose|k: int| 0 <= k < init.len() && init[k] == ids.last();
                assert(parts.dom().contains(init[k]));
            }
        }
    }
}

proof fn lemma_taken_contains(parts: IdRows, ids: Seq<u64>, p: PartView)
    requires
        parts_taken(parts, ids) is Ok,
    ensures
        parts_taken(parts, ids)->Ok_0.contains(p) <==> exists|id: u64| #[trigger]
            ids.contains(id) && parts.dom().contains(id) && part_in(part_context(id), parts[id])
                == Ok::<PartView, Seq<char>>(p),
        (forall|id: u64| #[trigger]
            parts.dom().contains(id) && part_in(part_context(id), parts[id]) is Ok ==> (part_in(
                part_context(id),
                parts[id],
            )->Ok_0).part_id == id) ==> ids_of(parts_taken(parts, ids)->Ok_0).no_duplicates(),
{
    let out = parts_taken(parts, ids)->Ok_0;
    let f = lemma_parts_taken(parts, ids);
    if out.contains(p) {
        let k = choose|k: int| 0 <= k < out.len() && out[k] == p;
        assert(0 <= f[k] < ids.len());
        assert(ids.contains(ids[f[k]]));
    }
    if exists|id: u64| #[trigger]
        ids.contains(id) && parts.dom().contains(id) && part_in(part_context(id), parts[id])
            == Ok::<PartView, Seq<char>>(p) {
        let id = choose|id: u64| #[trigger]
            ids.contains(id) && parts.dom().contains(id) && part_in(part_context(id), parts[id])
                == Ok::<PartView, Seq<char>>(p);
        ids.index_of_first_ensures(id);
        let i = ids.index_of_first(id)->0;
        assert(!ids.subrange(0, i).contains(ids[i])) by {
            if ids.subrange(0, i).contains(id) {
                let k = choose|k: int|
                    0 <= k < ids.subrange(0, i).len() && ids.subrange(0, i)[k] == id;
                assert(ids[k] == id);
            }
        }
        assert(f.contains(i));
        let k = choose|k: int| 0 <= k < f.len() && f[k] == i;
        assert(out[k] == p);
    }
    if forall|id: u64| #[trigger]
        parts.dom().contains(id) && part_in(part_context(id), parts[id]) is Ok ==> (part_in(
            part_context(id),
            parts[id],
        )->Ok_0).part_id == id {
        let own = ids_of(out);
        assert forall|a: int, b: int|
            0 <= a < own.len() && 0 <= b < own.len() && a != b implies own[a] != own[b] by {
            assert(parts.dom().contains(ids[f[a]]) && parts.dom().contains(ids[f[b]]));
            assert(own[a] == ids[f[a]] && own[b] == ids[f[b]]);
            let (lo, hi) = if a < b {
                (a, b)
            } else {
                (b, a)
            };
            assert(f[lo] < f[hi]);
            if ids[f[lo]] == ids[f[hi]] {
                assert(ids.subrange(0, f[hi])[f[lo]] == ids[f[hi]]);
            }
        }
    }
}

/// Deleting an event hands back exactly the parts that it removes: a part is
/// handed back if and only if a list of the event's periods, of data parts or of
/// delta parts, names an identifier under which the catalog held it. Where parts
/// are kept under their own identifiers, each is handed back once.
pub proof fn law_deleted_event_hands_back_its_parts(c: CatalogView, name: Seq<char>, p: PartView)
    requires
        c.period_parts.dom().finite(),
        c.period_deltas.dom().finite(),
        event_removed(c, name) is Ok,
    ensures
        ({
            let (returned, after) = event_removed(c, name)->Ok_0;
            &&& returned.contains(p) <==> exists|key: Seq<char>, id: u64|
                #![trigger lists_id(c.period_parts, key, id)]
                #![trigger lists_id(c.period_deltas, key, id)]
                has_prefix(key, name + "/"@) && (lists_id(c.period_parts, key, id) || lists_id(
                    c.period_deltas,
                    key,
                    id,
                )) && c.parts.dom().contains(id) && part_in(part_context(id), c.parts[id]) == Ok::<
                    PartView,
                    Seq<char>,
                >(p)
            &&& (forall|id: u64| #[trigger]
                c.parts.dom().contains(id) && part_in(part_context(id), c.parts[id]) is Ok ==> (
                part_in(part_context(id), c.parts[id])->Ok_0).part_id == id) ==> ids_of(
                returned,
            ).no_duplicates()
        }),
{
    let prefix = name + "/"@;
    let data = lists_of(c.period_parts, listing(c.period_parts.dom(), prefix))->Ok_0;
    let deltas = lists_of(c.period_deltas, listing(c.period_deltas.dom(), prefix))->Ok_0;
    let all = data + deltas;
    lemma_taken_contains(c.parts, all, p);
    let returned = (event_removed(c, name)->Ok_0).0;
    if returned.contains(p) {
        let id = choose|id: u64| #[trigger]
            all.contains(id) && c.parts.dom().contains(id) && part_in(part_context(id), c.parts[id])
                == Ok::<PartView, Seq<char>>(p);
        lemma_joined_contains(data, deltas, id);
        assert(all.to_set().contains(id));
        lemma_listed_under(c.period_parts, prefix, id);
        lemma_listed_under(c.period_deltas, prefix, id);
        if listed_under(c.period_parts, prefix, id) {
            let key = choose|key: Seq<char>|
                has_prefix(key, prefix) && #[trigger] lists_id(c.period_parts, key, id);
            assert(lists_id(c.period_parts, key, id));
        } else {
            let key = choose|key: Seq<char>|
                has_prefix(key, prefix) && #[trigger] lists_id(c.period_deltas, key, id);
            assert(lists_id(c.period_deltas, key, id));
        }
    }
    if exists|key: Seq<char>, id: u64|
        #![trigger lists_id(c.period_parts, key, id)]
        #![trigger lists_id(c.period_deltas, key, id)]
        has_prefix(key, prefix) && (lists_id(c.period_parts, key, id) || lists_id(
            c.period_deltas,
            key,
            id,
        )) && c.parts.dom().contains(id) && part_in(part_context(id), c.parts[id]) == Ok::<
            PartView,
            Seq<char>,
        >(p) {
        let (key, id) = choose|key: Seq<char>, id: u64|
            #![trigger lists_id(c.period_parts, key, id)]
            #![trigger lists_id(c.period_deltas, key, id)]
            has_prefix(key, prefix) && (lists_id(c.period_parts, key, id) || lists_id(
                c.period_deltas,
                key,
                id,
            )) && c.parts.dom().contains(id) && part_in(part_context(id), c.parts[id]) == Ok::<
                PartView,
                Seq<char>,
            >(p);
        lemma_listed_under(c.period_parts, prefix, id);
        lemma_listed_under(c.period_deltas, prefix, id);
        lemma_joined_contains(data, deltas, id);
        assert(all.to_set().contains(id));
        assert(all.contains(id));
    }
}

/// Deleting a period hands back exactly the parts that it removes: a part is
/// handed back if and only if one of the period's two lists names an identifier
/// under which the catalog held it. Where parts are kept under their own
/// identifiers, each is handed back once.
pub proof fn law_deleted_period_hands_back_its_parts(
    c: CatalogView,
    key: Seq<char>,
    p: PartView,
)
    requires
        period_removed(c, key) is Ok,
    ensures
        ({
            let (returned, after) = period_removed(c, key)->Ok_0;
            &&& returned.contains(p) <==> exists|id: u64|
                #![trigger c.parts.dom().contains(id)]
                (lists_id(c.period_parts, key, id) || lists_id(c.period_deltas, key, id))
                    && c.parts.dom().contains(id) && part_in(part_context(id), c.parts[id]) == Ok::<
                    PartView,
                    Seq<char>,
                >(p)
            &&& (forall|id: u64| #[trigger]
                c.parts.dom().contains(id) && part_in(part_context(id), c.parts[id]) is Ok ==> (
                part_in(part_context(id), c.parts[id])->Ok_0).part_id == id) ==> ids_of(
                returned,
            ).no_duplicates()
        }),
{
    let data = list_of(c.period_parts, key)->Ok_0;
    let deltas = list_of(c.period_deltas, key)->Ok_0;
    let all = data + deltas;
    lemma_taken_contains(c.parts, all, p);
    let returned = (period_removed(c, key)->Ok_0).0;
    if returned.contains(p) {
        let id = choose|id: u64| #[trigger]
            all.contains(id) && c.parts.dom().contains(id) && part_in(part_context(id), c.parts[id])
                == Ok::<PartView, Seq<char>>(p);
        lemma_joined_contains(data, deltas, id);
        assert(all.to_set().contains(id));
        assert(c.parts.dom().contains(id));
    }
    if exists|id: u64|
        #![trigger c.parts.dom().contains(id)]
        (lists_id(c.period_parts, key, id) || lists_id(c.period_deltas, key, id))
            && c.parts.dom().contains(id) && part_in(part_context(id), c.parts[id]) == Ok::<
            PartView,
            Seq<char>,
        >(p) {
        let id = choose|id: u64|
            #![trigger c.parts.dom().contains(id)]
            (lists_id(c.period_parts, key, id) || lists_id(c.period_deltas, key, id))
                && c.parts.dom().contains(id) && part_in(part_context(id), c.parts[id]) == Ok::<
                PartView,
                Seq<char>,
            >(p);
        lemma_joined_contains(data, deltas, id);
        assert(all.to_set().contains(id));
        assert(all.contains(id));
    }
}

/// A list names an identifier if its row does.
pub proof fn law_lists_id(rows: Rows, key: Seq<char>, id: u64)
    ensures
        lists_id(rows, key, id) <==> rows.dom().contains(key) && (list_in(key, rows[key]) matches
        Ok(ids) && ids.contains(id)),
{
}

/// What deleting an event leaves: all tables but those of the event, its periods
/// and its parts are untouched, and of these exactly what is not the event's own
/// stays, row by row.
pub proof fn law_deleted_event_leaves(
    c: CatalogView,
    name: Seq<char>,
    key: Seq<char>,
    other: Seq<char>,
)
    requires
        event_removed(c, name) is Ok,
    ensures
        ({
            let after = (event_removed(c, name)->Ok_0).1;
            let own = key.len() > name.len() && key.subrange(0, name.len() as int) == name
                && key[name.len() as int] == '/';
            &&& after.events.dom().contains(other) <==> c.events.dom().contains(other) && other
                != name
            &&& after.events.dom().contains(other) ==> after.events[other] == c.events[other]
            &&& after.period_parts.dom().contains(key) <==> c.period_parts.dom().contains(key)
                && !own
            &&& after.period_parts.dom().contains(key) ==> after.period_parts[key]
                == c.period_parts[key]
            &&& after.period_deltas.dom().contains(key) <==> c.period_deltas.dom().contains(key)
                && !own
            &&& after.period_deltas.dom().contains(key) ==> after.period_deltas[key]
                == c.period_deltas[key]
            &&& after.period_state.dom().contains(key) <==> c.period_state.dom().contains(key)
                && !own
            &&& after.period_state.dom().contains(key) ==> after.period_state[key]
                == c.period_state[key]
            &&& after.compaction_log == c.compaction_log
            &&& after.next_part_id == c.next_part_id
            &&& after.dict_fwd == c.dict_fwd
            &&& after.dict_rev == c.dict_rev
            &&& after.dict_next_id == c.dict_next_id
        }),
{
    crate::order::law_prefix_with_slash(key, name);
}

/// What deleting a period leaves: every row of another period, and every table but
/// those of periods and parts, is as it was.
pub proof fn law_deleted_period_leaves(c: CatalogView, key: Seq<char>, other: Seq<char>)
    requires
        period_removed(c, key) is Ok,
    ensures
        ({
            let after = (period_removed(c, key)->Ok_0).1;
            &&& after.period_parts.dom().contains(other) <==> c.period_parts.dom().contains(other)
                && other != key
            &&& after.period_parts.dom().contains(other) ==> after.period_parts[other]
                == c.period_parts[other]
            &&& after.period_deltas.dom().contains(other) <==> c.period_deltas.dom().contains(other)
                && other != key
            &&& after.period_deltas.dom().contains(other) ==> after.period_deltas[other]
                == c.period_deltas[other]
            &&& after.period_state.dom().contains(other) <==> c.period_state.dom().contains(other)
                && other != key
            &&& after.period_state.dom().contains(other) ==> after.period_state[other]
                == c.period_state[other]
            &&& after.events == c.events
            &&& after.compaction_log == c.compaction_log
            &&& after.next_part_id == c.next_part_id
            &&& after.dict_fwd == c.dict_fwd
            &&& after.dict_rev == c.dict_rev
            &&& after.dict_next_id == c.dict_next_id
        }),
{
}

/// Identifiers are given out one after the other, from 1 on where none was before;
/// the counter then stands behind them. It fails exactly where the counter would
/// pass its range.
pub proof fn law_ids_allocated(counter: Option<u64>, count: u64, i: int)
    ensures
        ({
            let start = if counter is Some {
                counter->0 as int
            } else {
                1
            };
            &&& ids_allocated(counter, count) is Ok <==> start + count <= u64::MAX
            &&& ids_allocated(counter, count) matches Ok((ids, next)) ==> ids.len() == count
                && next == start + count && (0 <= i < count ==> ids[i] == start + i)
        }),
{
}

/// All registered events are listed, each once and with its configuration, in the
/// order of their names.
pub proof fn law_listed_events(rows: Rows, name: Seq<char>)
    requires
        rows.dom().finite(),
        events_of(rows, listing(rows.dom(), Seq::empty())) is Ok,
    ensures
        ({
            let out = events_of(rows, listing(rows.dom(), Seq::empty()))->Ok_0;
            &&& rows.dom().contains(name) <==> exists|i: int|
                0 <= i < out.len() && (#[trigger] out[i]).name == name
            &&& forall|i: int, j: int|
                0 <= i < j < out.len() ==> crate::order::before(
                    (#[trigger] out[i]).name,
                    (#[trigger] out[j]).name,
                )
            &&& forall|i: int|
                0 <= i < out.len() ==> event_of(rows, (#[trigger] out[i]).name) == Ok::<
                    Option<ConfigView>,
                    Seq<char>,
                >(Some(out[i]))
        }),
{
    let names = listing(rows.dom(), Seq::<char>::empty());
    crate::order::law_listing_exists(rows.dom(), Seq::empty());
    lemma_events_of(rows, names);
    let out = events_of(rows, names)->Ok_0;
    assert(has_prefix(name, Seq::empty())) by {
        assert(name.subrange(0, 0) =~= Seq::empty());
    }
    assert(names.contains(name) <==> rows.dom().contains(name));
    if rows.dom().contains(name) {
        let i = choose|i: int| 0 <= i < names.len() && names[i] == name;
        assert(out[i].name == name);
    }
    if exists|i: int| 0 <= i < out.len() && (#[trigger] out[i]).name == name {
        let i = choose|i: int| 0 <= i < out.len() && (#[trigger] out[i]).name == name;
        assert(names[i] == name);
    }
    assert forall|i: int, j: int| 0 <= i < j < out.len() implies crate::order::before(
        (#[trigger] out[i]).name,
        (#[trigger] out[j]).name,
    ) by {
        assert(crate::order::before(names[i], names[j]));
    }
    assert forall|i: int| 0 <= i < out.len() implies event_of(rows, (#[trigger] out[i]).name)
        == Ok::<Option<ConfigView>, Seq<char>>(Some(out[i])) by {
        assert(names.contains(names[i]));
    }
}

/// The periods of an event that are listed are exactly the keys with a list, of
/// data parts or of delta parts, that start with its name and a slash, each once
/// and in order.
pub proof fn law_listed_periods(c: CatalogView, event: Seq<char>, key: Seq<char>)
    requires
        c.period_parts.dom().finite(),
        c.period_deltas.dom().finite(),
    ensures
        period_keys_of(c, event).contains(key) <==> (c.period_parts.dom().contains(key)
            || c.period_deltas.dom().contains(key)) && key.len() > event.len() && key.subrange(
            0,
            event.len() as int,
        ) == event && key[event.len() as int] == '/',
        crate::order::ascending(period_keys_of(c, event)),
{
    let all = c.period_parts.dom().union(c.period_deltas.dom());
    crate::order::law_listing_exists(all, event + "/"@);
    crate::order::law_prefix_with_slash(key, event);
}

/// What is said of an operation on the catalog: where success is specified it
/// returned that value and left that catalog; where an error is, it failed with
/// that error and left the catalog as it was.
pub proof fn law_catalog_outcome<T, V>(
    before: CatalogView,
    r: Result<T, InoxSetError>,
    after: CatalogView,
    value: spec_fn(T) -> V,
    expected: Result<(V, CatalogView), ErrorView>,
)
    requires
        operates_as(before, r, after, value, expected),
    ensures
        r is Ok <==> expected is Ok,
        expected matches Ok((w, c)) ==> value(r->Ok_0) == w && after == c,
        expected matches Err(f) ==> r->Err_0@ == f && after == before,
{
}

/// What is said of reading: where a value is specified it was returned, and where
/// an error is, it came.
pub proof fn law_read_outcome<T, V>(
    r: Result<T, InoxSetError>,
    value: spec_fn(T) -> V,
    expected: Result<V, ErrorView>,
)
    requires
        reads_as(r, value, expected),
    ensures
        r is Ok <==> expected is Ok,
        expected matches Ok(w) ==> value(r->Ok_0) == w,
        expected matches Err(f) ==> r->Err_0@ == f,
{
}

/// What is said of changing a table.
pub proof fn law_change_outcome(
    before: Table<String, Vec<u8>>,
    r: Result<(), InoxSetError>,
    after: Table<String, Vec<u8>>,
    expected: Result<Rows, ErrorView>,
)
    requires
        changes_as(before, r, after, expected),
    ensures
        r is Ok <==> expected is Ok,
        expected matches Ok(rows) ==> byte_rows(after@) == rows,
        expected matches Err(f) ==> r->Err_0@ == f && after == before,
{
}

/// An operation on a key fails on an empty one, and one that writes also on a key
/// of more than 511 bytes; otherwise the key decides nothing.
pub proof fn law_key_sizes<V>(key: Seq<char>, read: Result<V, Seq<char>>, written: V)
    ensures
        key.len() == 0 ==> on_key(key, read) == Err::<V, ErrorView>(key_error()),
        key.len() > 0 && read is Ok ==> on_key(key, read) == Ok::<V, ErrorView>(read->Ok_0),
        key.len() > 0 && read is Err ==> on_key(key, read) == Err::<V, ErrorView>(
            ErrorView::CatalogCorrupted { context: read->Err_0 },
        ),
        0 < key.len() && encode_utf8(key).len() <= 511 ==> if_fits(key, written) == Ok::<
            V,
            ErrorView,
        >(written),
        key.len() == 0 || encode_utf8(key).len() > 511 ==> if_fits(key, written) == Err::<
            V,
            ErrorView,
        >(key_error()),
        key_error() == ErrorView::Catalog(
            "MDB_BAD_VALSIZE: Unsupported size of key/DB name/data, or wrong DUPFIXED size"@,
        ),
{
}

/// A catalog is seen as its tables, row by row.
pub proof fn law_catalog_is_its_tables(c: Catalog, key: Seq<char>, id: u64)
    ensures
        c@.events.dom() =~= c.events@.dom(),
        c.events@.dom().contains(key) ==> c@.events[key] == c.events@[key]@,
        c@.parts.dom() =~= c.parts@.dom(),
        c.parts@.dom().contains(id) ==> c@.parts[id] == c.parts@[id]@,
        c@.period_parts.dom() =~= c.period_parts@.dom(),
        c.period_parts@.dom().contains(key) ==> c@.period_parts[key] == c.period_parts@[key]@,
        c@.period_deltas.dom() =~= c.period_deltas@.dom(),
        c.period_deltas@.dom().contains(key) ==> c@.period_deltas[key] == c.period_deltas@[key]@,
        c@.period_state.dom() =~= c.period_state@.dom(),
        c.period_state@.dom().contains(key) ==> c@.period_state[key] == c.period_state@[key]@,
        c@.compaction_log.dom() =~= c.compaction_log@.dom(),
        c.compaction_log@.dom().contains(id) ==> c@.compaction_log[id] == c.compaction_log@[id]@,
        c@.next_part_id == c.next_part_id,
        c@.dict_fwd == c.dict_fwd@,
        c@.dict_rev.dom() =~= c.dict_rev@.dom(),
        c.dict_rev@.dom().contains(id) ==> c@.dict_rev[id] == c.dict_rev@[id]@,
        c@.dict_next_id == c.dict_next_id,
{
}

/// A new catalog has no rows, and none of its counters has started.
pub proof fn law_empty_catalog(key: Seq<char>, id: u64)
    ensures
        ({
            let c = empty_catalog();
            &&& !c.events.dom().contains(key)
            &&& !c.parts.dom().contains(id)
            &&& !c.period_parts.dom().contains(key)
            &&& !c.period_deltas.dom().contains(key)
            &&& !c.period_state.dom().contains(key)
            &&& !c.compaction_log.dom().contains(id)
            &&& !c.dict_fwd.dom().contains(key)
            &&& !c.dict_rev.dom().contains(id)
            &&& c.next_part_id is None
            &&& c.dict_next_id is None
        }),
{
}

/// Lists of parts and configurations are seen place by place.
pub proof fn law_catalog_views(
    parts: Seq<Part>,
    views: Seq<PartView>,
    configs: Seq<EventConfig>,
    i: int,
)
    ensures
        part_views(parts).len() == parts.len(),
        0 <= i < parts.len() ==> part_views(parts)[i] == parts[i]@,
        ids_of(views).len() == views.len(),
        0 <= i < views.len() ==> ids_of(views)[i] == views[i].part_id,
        event_rows(configs).len() == configs.len(),
        0 <= i < configs.len() ==> event_rows(configs)[i] == configs[i]@,
        0 <= i < parts.len() ==> part_option(Some(parts[i])) == Some(parts[i]@),
        part_option(None) is None,
        0 <= i < configs.len() ==> event_option(Some(configs[i])) == Some(configs[i]@),
        event_option(None) is None,
{
}

/// What is said of a period whose state cannot be read.
pub proof fn law_state_messages(rows: Rows, key: Seq<char>)
    ensures
        rows.dom().contains(key) && rows[key].len() == 0 ==> state_of(rows, key) == Err::<
            Option<PeriodState>,
            Seq<char>,
        >("period_state '"@ + key + "': empty value"@),
        rows.dom().contains(key) && rows[key].len() > 0 && rows[key][0] > 3 ==> state_of(rows, key)
            == Err::<Option<PeriodState>, Seq<char>>(
            "period_state '"@ + key + "': unknown state byte "@ + decimal(rows[key][0] as nat),
        ),
{
}

/// What is said of a counter that would pass its range.
pub proof fn law_counter_message(counter: Option<u64>, count: u64)
    ensures
        ids_allocated(counter, count) matches Err(m) ==> m == "part ID counter overflow: start="@
            + decimal(
            if counter is Some {
                counter->0 as nat
            } else {
                1
            },
        ) + ", count="@ + decimal(count as nat),
{
}

/// The lists of several keys are read one behind the other; those of the first keys
/// come first.
pub proof fn law_lists_in_order(rows: Rows, a: Seq<Seq<char>>, b: Seq<Seq<char>>)
    ensures
        lists_of(rows, a + b) is Ok <==> lists_of(rows, a) is Ok && lists_of(rows, b) is Ok,
        lists_of(rows, a + b) is Ok ==> lists_of(rows, a + b)->Ok_0 == lists_of(rows, a)->Ok_0
            + lists_of(rows, b)->Ok_0,
        a.len() == 0 ==> lists_of(rows, a) == Ok::<Seq<u64>, Seq<char>>(Seq::empty()),
        a.len() == 1 ==> (lists_of(rows, a) is Ok <==> list_of(rows, a[0]) is Ok),
        a.len() == 1 && list_of(rows, a[0]) is Ok ==> lists_of(rows, a)->Ok_0 == list_of(
            rows,
            a[0],
        )->Ok_0,
    decreases b.len(),
{
    if a.len() == 1 {
        assert(a.drop_last() =~= Seq::empty());
        assert(lists_of(rows, a.drop_last()) == Ok::<Seq<u64>, Seq<char>>(Seq::empty()));
        if list_of(rows, a[0]) is Ok {
            assert(Seq::<u64>::empty() + list_of(rows, a[0])->Ok_0 =~= list_of(rows, a[0])->Ok_0);
        }
    }
    if b.len() == 0 {
        assert(a + b =~= a);
        if lists_of(rows, a) is Ok {
            assert(lists_of(rows, a)->Ok_0 + Seq::<u64>::empty() =~= lists_of(rows, a)->Ok_0);
        }
    } else {
        law_lists_in_order(rows, a, b.drop_last());
        assert((a + b).drop_last() =~= a + b.drop_last());
        assert((a + b).last() == b.last());
        if lists_of(rows, a + b) is Ok {
            assert(lists_of(rows, a + b)->Ok_0 =~= lists_of(rows, a)->Ok_0 + lists_of(
                rows,
                b,
            )->Ok_0);
        }
    }
}

/// The parts of a deleted period, or of a deleted event, are handed back data parts
/// first, then delta parts, in the order of their lists and, for an event, of the
/// keys of its periods.
pub proof fn law_deleted_parts_in_order(c: CatalogView, name: Seq<char>, key: Seq<char>)
    requires
        c.period_parts.dom().finite(),
        c.period_deltas.dom().finite(),
    ensures
        period_removed(c, key) is Ok ==> parts_taken(
            c.parts,
            list_of(c.period_parts, key)->Ok_0 + list_of(c.period_deltas, key)->Ok_0,
        ) == Ok::<Seq<PartView>, Seq<char>>((period_removed(c, key)->Ok_0).0),
        event_removed(c, name) is Ok ==> exists|a: Seq<Seq<char>>, b: Seq<Seq<char>>|
            #![trigger lists_of(c.period_parts, a), lists_of(c.period_deltas, b)]
            crate::order::lists(a, c.period_parts.dom(), name + "/"@) && crate::order::lists(
                b,
                c.period_deltas.dom(),
                name + "/"@,
            ) && parts_taken(
                c.parts,
                lists_of(c.period_parts, a)->Ok_0 + lists_of(c.period_deltas, b)->Ok_0,
            ) == Ok::<Seq<PartView>, Seq<char>>((event_removed(c, name)->Ok_0).0),
{
    let a = listing(c.period_parts.dom(), name + "/"@);
    let b = listing(c.period_deltas.dom(), name + "/"@);
    crate::order::law_listing_exists(c.period_parts.dom(), name + "/"@);
    crate::order::law_listing_exists(c.period_deltas.dom(), name + "/"@);
    assert(lists_of(c.period_parts, a) == lists_of(c.period_parts, a));
    assert(lists_of(c.period_deltas, b) == lists_of(c.period_deltas, b));
}

/// Deleting an event or a period fails exactly where one of the lists, or one of
/// the parts that they name, cannot be decoded.
pub proof fn law_deleting_fails(c: CatalogView, name: Seq<char>, key: Seq<char>)
    requires
        c.period_parts.dom().finite(),
        c.period_deltas.dom().finite(),
    ensures
        period_removed(c, key) is Err <==> list_of(c.period_parts, key) is Err || list_of(
            c.period_deltas,
            key,
        ) is Err || exists|id: u64| #[trigger]
            c.parts.dom().contains(id) && (lists_id(c.period_parts, key, id) || lists_id(
                c.period_deltas,
                key,
                id,
            )) && part_in(part_context(id), c.parts[id]) is Err,
        event_removed(c, name) is Err <==> (exists|k: Seq<char>|
            #![trigger has_prefix(k, name + "/"@)]
            has_prefix(k, name + "/"@) && (list_of(c.period_parts, k) is Err || list_of(
                c.period_deltas,
                k,
            ) is Err)) || exists|k: Seq<char>, id: u64|
            #![trigger lists_id(c.period_parts, k, id)]
            #![trigger lists_id(c.period_deltas, k, id)]
            has_prefix(k, name + "/"@) && c.parts.dom().contains(id) && (lists_id(
                c.period_parts,
                k,
                id,
            ) || lists_id(c.period_deltas, k, id)) && part_in(part_context(id), c.parts[id]) is Err,
{
    lemma_period_fails(c, key);
    lemma_event_fails(c, name);
}

proof fn lemma_period_fails(c: CatalogView, key: Seq<char>)
    ensures
        period_removed(c, key) is Err <==> list_of(c.period_parts, key) is Err || list_of(
            c.period_deltas,
            key,
        ) is Err || exists|id: u64| #[trigger]
            c.parts.dom().contains(id) && (lists_id(c.period_parts, key, id) || lists_id(
                c.period_deltas,
                key,
                id,
            )) && part_in(part_context(id), c.parts[id]) is Err,
{
    if list_of(c.period_parts, key) is Ok && list_of(c.period_deltas, key) is Ok {
        let data = list_of(c.period_parts, key)->Ok_0;
        let deltas = list_of(c.period_deltas, key)->Ok_0;
        let all = data + deltas;
        law_taking_parts_fails(c.parts, all);
        if parts_taken(c.parts, all) is Err {
            let i = choose|i: int|
                0 <= i < all.len() && c.parts.dom().contains(#[trigger] all[i]) && part_in(
                    part_context(all[i]),
                    c.parts[all[i]],
                ) is Err;
            assert(all.to_set().contains(all[i]));
            lemma_joined_contains(data, deltas, all[i]);
            assert(c.parts.dom().contains(all[i]));
        }
        if exists|id: u64| #[trigger]
            c.parts.dom().contains(id) && (lists_id(c.period_parts, key, id) || lists_id(
                c.period_deltas,
                key,
                id,
            )) && part_in(part_context(id), c.parts[id]) is Err {
            let id = choose|id: u64| #[trigger]
                c.parts.dom().contains(id) && (lists_id(c.period_parts, key, id) || lists_id(
                    c.period_deltas,
                    key,
                    id,
                )) && part_in(part_context(id), c.parts[id]) is Err;
            lemma_joined_contains(data, deltas, id);
            assert(all.to_set().contains(id));
            let i = choose|i: int| 0 <= i < all.len() && all[i] == id;
            assert(c.parts.dom().contains(all[i]));
        }
    }
}

proof fn lemma_lists_fail(rows: Rows, keys: Seq<Seq<char>>)
    ensures
        lists_of(rows, keys) is Err <==> exists|i: int|
            0 <= i < keys.len() && list_of(rows, #[trigger] keys[i]) is Err,
    decreases keys.len(),
{
    if keys.len() > 0 {
        let init = keys.drop_last();
        lemma_lists_fail(rows, init);
        assert(keys[keys.len() - 1] == keys.last());
        if lists_of(rows, init) is Err {
            let i = choose|i: int| 0 <= i < init.len() && list_of(rows, #[trigger] init[i]) is Err;
            assert(keys[i] == init[i]);
        }
        if exists|i: int| 0 <= i < keys.len() && list_of(rows, #[trigger] keys[i]) is Err {
            let i = choose|i: int| 0 <= i < keys.len() && list_of(rows, #[trigger] keys[i]) is Err;
            if i < init.len() {
                assert(init[i] == keys[i]);
            }
        }
    }
}

proof fn lemma_listing_fails(rows: Rows, prefix: Seq<char>)
    requires
        rows.dom().finite(),
    ensures
        lists_of(rows, listing(rows.dom(), prefix)) is Err <==> exists|k: Seq<char>|
            #![trigger has_prefix(k, prefix)]
            has_prefix(k, prefix) && list_of(rows, k) is Err,
{
    let keys = listing(rows.dom(), prefix);
    crate::order::law_listing_exists(rows.dom(), prefix);
    lemma_lists_fail(rows, keys);
    if lists_of(rows, keys) is Err {
        let i = choose|i: int| 0 <= i < keys.len() && list_of(rows, #[trigger] keys[i]) is Err;
        assert(keys.contains(keys[i]));
        assert(has_prefix(keys[i], prefix));
    }
    if exists|k: Seq<char>|
        #![trigger has_prefix(k, prefix)]
        has_prefix(k, prefix) && list_of(rows, k) is Err {
        let k = choose|k: Seq<char>|
            #![trigger has_prefix(k, prefix)]
            has_prefix(k, prefix) && list_of(rows, k) is Err;
        assert(rows.dom().contains(k));
        assert(keys.contains(k));
        let i = choose|i: int| 0 <= i < keys.len() && keys[i] == k;
        assert(list_of(rows, keys[i]) is Err);
    }
}

proof fn lemma_event_fails(c: CatalogView, name: Seq<char>)
    requires
        c.period_parts.dom().finite(),
        c.period_deltas.dom().finite(),
    ensures
        event_removed(c, name) is Err <==> (exists|k: Seq<char>|
            #![trigger has_prefix(k, name + "/"@)]
            has_prefix(k, name + "/"@) && (list_of(c.period_parts, k) is Err || list_of(
                c.period_deltas,
                k,
            ) is Err)) || exists|k: Seq<char>, id: u64|
            #![trigger lists_id(c.period_parts, k, id)]
            #![trigger lists_id(c.period_deltas, k, id)]
            has_prefix(k, name + "/"@) && c.parts.dom().contains(id) && (lists_id(
                c.period_parts,
                k,
                id,
            ) || lists_id(c.period_deltas, k, id)) && part_in(part_context(id), c.parts[id]) is Err,
{
    let prefix = name + "/"@;
    let first = lists_of(c.period_parts, listing(c.period_parts.dom(), prefix));
    let second = lists_of(c.period_deltas, listing(c.period_deltas.dom(), prefix));
    lemma_listing_fails(c.period_parts, prefix);
    lemma_listing_fails(c.period_deltas, prefix);
    if first is Err {
        let k = choose|k: Seq<char>|
            #![trigger has_prefix(k, prefix)]
            has_prefix(k, prefix) && list_of(c.period_parts, k) is Err;
        assert(has_prefix(k, prefix));
    } else if second is Err {
        let k = choose|k: Seq<char>|
            #![trigger has_prefix(k, prefix)]
            has_prefix(k, prefix) && list_of(c.period_deltas, k) is Err;
        assert(has_prefix(k, prefix));
    } else {
        let data = first->Ok_0;
        let deltas = second->Ok_0;
        let all = data + deltas;
        law_taking_parts_fails(c.parts, all);
        if parts_taken(c.parts, all) is Err {
            let i = choose|i: int|
                0 <= i < all.len() && c.parts.dom().contains(#[trigger] all[i]) && part_in(
                    part_context(all[i]),
                    c.parts[all[i]],
                ) is Err;
            let id = all[i];
            assert(all.to_set().contains(id));
            lemma_joined_contains(data, deltas, id);
            lemma_listed_under(c.period_parts, prefix, id);
            lemma_listed_under(c.period_deltas, prefix, id);
            if listed_under(c.period_parts, prefix, id) {
                let k = choose|k: Seq<char>|
                    has_prefix(k, prefix) && #[trigger] lists_id(c.period_parts, k, id);
                assert(lists_id(c.period_parts, k, id));
            } else {
                let k = choose|k: Seq<char>|
                    has_prefix(k, prefix) && #[trigger] lists_id(c.period_deltas, k, id);
                assert(lists_id(c.period_deltas, k, id));
            }
        }
        if exists|k: Seq<char>, id: u64|
            #![trigger lists_id(c.period_parts, k, id)]
            #![trigger lists_id(c.period_deltas, k, id)]
            has_prefix(k, prefix) && c.parts.dom().contains(id) && (lists_id(c.period_parts, k, id)
                || lists_id(c.period_deltas, k, id)) && part_in(
                part_context(id),
                c.parts[id],
            ) is Err {
            let (k, id) = choose|k: Seq<char>, id: u64|
                #![trigger lists_id(c.period_parts, k, id)]
                #![trigger lists_id(c.period_deltas, k, id)]
                has_prefix(k, prefix) && c.parts.dom().contains(id) && (lists_id(
                    c.period_parts,
                    k,
                    id,
                ) || lists_id(c.period_deltas, k, id)) && part_in(
                    part_context(id),
                    c.parts[id],
                ) is Err;
            lemma_listed_under(c.period_parts, prefix, id);
            lemma_listed_under(c.period_deltas, prefix, id);
            lemma_joined_contains(data, deltas, id);
            assert(all.to_set().contains(id));
            let i = choose|i: int| 0 <= i < all.len() && all[i] == id;
            assert(c.parts.dom().contains(all[i]));
        }
    }
}

/// An identifier is listed under a prefix exactly if the row of some key with that
/// prefix lists it.
pub proof fn law_listed_under(rows: Rows, prefix: Seq<char>, id: u64)
    ensures
        listed_under(rows, prefix, id) <==> exists|key: Seq<char>| #[trigger]
            rows.dom().contains(key) && has_prefix(key, prefix) && (list_in(key, rows[key]) matches
            Ok(ids) && ids.contains(id)),
{
    if listed_under(rows, prefix, id) {
        let key = choose|key: Seq<char>|
            has_prefix(key, prefix) && #[trigger] lists_id(rows, key, id);
        assert(rows.dom().contains(key));
    }
    if exists|key: Seq<char>| #[trigger]
        rows.dom().contains(key) && has_prefix(key, prefix) && (list_in(key, rows[key]) matches Ok(
            ids,
        ) && ids.contains(id)) {
        let key = choose|key: Seq<char>| #[trigger]
            rows.dom().contains(key) && has_prefix(key, prefix) && (list_in(key, rows[key]) matches
            Ok(ids) && ids.contains(id));
        assert(lists_id(rows, key, id));
    }
}

/// Listing events fails exactly where the row of one cannot be decoded, with what is
/// said of the first such row in the order of names.
pub proof fn law_listing_events_fails(rows: Rows, names: Seq<Seq<char>>)
    ensures
        events_of(rows, names) is Err <==> exists|i: int|
            0 <= i < names.len() && event_in(#[trigger] names[i], rows[names[i]]) is Err,
        events_of(rows, names) matches Err(m) ==> exists|i: int|
            0 <= i < names.len() && event_in(#[trigger] names[i], rows[names[i]]) == Err::<
                (Granularity, Rollup),
                Seq<char>,
            >(m) && forall|k: int|
                0 <= k < i ==> event_in(#[trigger] names[k], rows[names[k]]) is Ok,
    decreases names.len(),
{
    if names.len() > 0 {
        let init = names.drop_last();
        law_listing_events_fails(rows, init);
        assert(names[names.len() - 1] == names.last());
        if let Err(m) = events_of(rows, init) {
            let i = choose|i: int|
                0 <= i < init.len() && event_in(#[trigger] init[i], rows[init[i]]) == Err::<
                    (Granularity, Rollup),
                    Seq<char>,
                >(m) && forall|k: int|
                    0 <= k < i ==> event_in(#[trigger] init[k], rows[init[k]]) is Ok;
            assert(names[i] == init[i]);
            assert forall|k: int| 0 <= k < i implies event_in(
                #[trigger] names[k],
                rows[names[k]],
            ) is Ok by {
                assert(init[k] == names[k]);
            }
        } else {
            assert forall|k: int| 0 <= k < init.len() implies event_in(
                #[trigger] names[k],
                rows[names[k]],
            ) is Ok by {
                assert(init[k] == names[k]);
            }
        }
    }
}

/// Reading lists fails with what is said of the first that cannot be decoded.
pub proof fn law_reading_lists_fails(rows: Rows, keys: Seq<Seq<char>>)
    ensures
        lists_of(rows, keys) is Err <==> exists|i: int|
            0 <= i < keys.len() && list_of(rows, #[trigger] keys[i]) is Err,
        lists_of(rows, keys) matches Err(m) ==> exists|i: int|
            0 <= i < keys.len() && list_of(rows, #[trigger] keys[i]) == Err::<Seq<u64>, Seq<char>>(
                m,
            ) && forall|k: int| 0 <= k < i ==> list_of(rows, #[trigger] keys[k]) is Ok,
    decreases keys.len(),
{
    lemma_lists_fail(rows, keys);
    if keys.len() > 0 {
        let init = keys.drop_last();
        law_reading_lists_fails(rows, init);
        assert(keys[keys.len() - 1] == keys.last());
        if let Err(m) = lists_of(rows, init) {
            let i = choose|i: int|
                0 <= i < init.len() && list_of(rows, #[trigger] init[i]) == Err::<
                    Seq<u64>,
                    Seq<char>,
                >(m) && forall|k: int| 0 <= k < i ==> list_of(rows, #[trigger] init[k]) is Ok;
            assert(keys[i] == init[i]);
            assert forall|k: int| 0 <= k < i implies list_of(rows, #[trigger] keys[k]) is Ok by {
                assert(init[k] == keys[k]);
            }
        } else {
            assert forall|k: int| 0 <= k < init.len() implies list_of(
                rows,
                #[trigger] keys[k],
            ) is Ok by {
                assert(init[k] == keys[k]);
            }
        }
    }
}

/// Removing listed parts fails with what is said of the first that cannot be
/// decoded.
pub proof fn law_first_bad_part(parts: IdRows, ids: Seq<u64>)
    requires
        parts_taken(parts, ids) is Err,
    ensures
        exists|i: int|
            0 <= i < ids.len() && parts.dom().contains(#[trigger] ids[i]) && part_in(
                part_context(ids[i]),
                parts[ids[i]],
            ) == Err::<PartView, Seq<char>>(parts_taken(parts, ids)->Err_0) && forall|k: int|
                0 <= k < i && parts.dom().contains(#[trigger] ids[k]) ==> part_in(
                    part_context(ids[k]),
                    parts[ids[k]],
                ) is Ok,
    decreases ids.len(),
{
    let init = ids.drop_last();
    assert(ids[ids.len() - 1] == ids.last());
    law_taking_parts_fails(parts, init);
    if parts_taken(parts, init) is Err {
        law_first_bad_part(parts, init);
        let i = choose|i: int|
            0 <= i < init.len() && parts.dom().contains(#[trigger] init[i]) && part_in(
                part_context(init[i]),
                parts[init[i]],
            ) == Err::<PartView, Seq<char>>(parts_taken(parts, init)->Err_0) && forall|k: int|
                0 <= k < i && parts.dom().contains(#[trigger] init[k]) ==> part_in(
                    part_context(init[k]),
                    parts[init[k]],
                ) is Ok;
        assert(ids[i] == init[i]);
        assert forall|k: int| 0 <= k < i && parts.dom().contains(#[trigger] ids[k]) implies part_in(
            part_context(ids[k]),
            parts[ids[k]],
        ) is Ok by {
            assert(init[k] == ids[k]);
        }
    } else {
        assert forall|k: int|
            0 <= k < init.len() && parts.dom().contains(#[trigger] ids[k]) implies part_in(
            part_context(ids[k]),
            parts[ids[k]],
        ) is Ok by {
            assert(init[k] == ids[k]);
        }
    }
}

} // verus!
