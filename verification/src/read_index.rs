//! The read index: where the parts of every period are, and what they merge to.
//!
//! It is built from the catalog in two steps. [`ReadIndex::scan`] collects the
//! part locations; then, with the contents of those files at hand,
//! [`ReadIndex::fill_cache`] merges the parts of each period.

use vstd::prelude::*;
use vstd::string::*;
use std::sync::Arc;

use roaring::RoaringBitmap;

use crate::bitmap::{
    canonical, deserialized, keys_ascend, members, ordered, without_runs,
};
use crate::catalog::{
    byte_rows, event_rows, events_of, list_of, part_context, part_of, period_keys_of, read_list,
    Catalog, CatalogView, IdRows,
};
use crate::codec::{corrupt, decodes_as, list_in, part_in};
use crate::error::{ErrorView, InoxSetError};
use crate::mempart::EntryKey;
use crate::merge::{applied, lemma_order_members, order_of, Merge, Step};
use crate::order::{listing, texts};
use crate::part_store::corrupted;
use crate::period::{
    catalog_key_text, key_text, law_key_round_trip, lemma_dir_text, no_slash, parse_key,
    parse_period_key, valid_period, year_of,
};
use crate::table::{Key, Table};
use crate::types::{ConfigView, Granularity, Period};

verus! {

/// Where a part is.
pub struct PartLoc {
    /// Identifier, increasing in write order.
    pub part_id: u64,
    /// Path of the part file.
    pub file_path: String,
}

/// The parts of a period.
pub struct PeriodEntry {
    /// Data parts.
    pub data_parts: Vec<PartLoc>,
    /// Delta parts.
    pub delta_parts: Vec<PartLoc>,
}

/// A location as a value.
pub type LocView = (u64, Seq<char>);

/// Locations as values.
pub open spec fn loc_views(v: Seq<PartLoc>) -> Seq<LocView> {
    Seq::new(v.len(), |i: int| (v[i].part_id, v[i].file_path@))
}

/// The contents of a [`PeriodEntry`].
pub struct EntryView {
    pub data: Seq<LocView>,
    pub deltas: Seq<LocView>,
}

impl View for PeriodEntry {
    type V = EntryView;

    open spec fn view(&self) -> EntryView {
        EntryView { data: loc_views(self.data_parts@), deltas: loc_views(self.delta_parts@) }
    }
}

/// The read index.
pub struct ReadIndex {
    /// Part locations by event and period.
    pub periods: Table<(String, Period), PeriodEntry>,
    /// Names of all events.
    pub event_names: Vec<String>,
    /// Merged members by event and period.
    pub bitmap_cache: Table<(String, Period), Arc<RoaringBitmap>>,
}

/// Entries by event and period.
pub type PeriodMap = Map<EntryKey, EntryView>;

/// The entries of a table.
pub open spec fn entry_views(t: Map<EntryKey, PeriodEntry>) -> PeriodMap {
    t.map_values(|e: PeriodEntry| e@)
}

// ---------------------------------------------------------------------------
// What the catalog says
// ---------------------------------------------------------------------------

/// What stands behind the first slash of a text.
pub open spec fn after_slash(text: Seq<char>) -> Option<Seq<char>>
    decreases text.len(),
{
    if text.len() == 0 {
        None
    } else if text[0] == '/' {
        Some(text.drop_first())
    } else {
        after_slash(text.drop_first())
    }
}

/// The period that a catalog key `event/granularity/period` names.
pub open spec fn period_in_key(key: Seq<char>) -> Option<Period> {
    match after_slash(key) {
        None => None,
        Some(rest) => match after_slash(rest) {
            None => None,
            Some(last) => parse_key(last),
        },
    }
}

/// The locations of parts, in order; identifiers without a part are left out.
pub open spec fn locations(parts: IdRows, ids: Seq<u64>) -> Result<Seq<LocView>, Seq<char>>
    decreases ids.len(),
{
    if ids.len() == 0 {
        Ok(Seq::empty())
    } else {
        match locations(parts, ids.drop_last()) {
            Err(m) => Err(m),
            Ok(front) => match part_of(parts, ids.last()) {
                Err(m) => Err(m),
                Ok(Some(p)) => Ok(front.push((ids.last(), p.file_path))),
                Ok(None) => Ok(front),
            },
        }
    }
}

/// The parts of a catalog key.
pub open spec fn entry_of(c: CatalogView, key: Seq<char>) -> Result<EntryView, Seq<char>> {
    match list_of(c.period_parts, key) {
        Err(m) => Err(m),
        Ok(data_ids) => match locations(c.parts, data_ids) {
            Err(m) => Err(m),
            Ok(data) => match list_of(c.period_deltas, key) {
                Err(m) => Err(m),
                Ok(delta_ids) => match locations(c.parts, delta_ids) {
                    Err(m) => Err(m),
                    Ok(deltas) => Ok(EntryView { data, deltas }),
                },
            },
        },
    }
}

/// Entries with those of some keys of an event added; keys that name no period
/// are skipped.
pub open spec fn with_keys(
    c: CatalogView,
    start: PeriodMap,
    event: Seq<char>,
    keys: Seq<Seq<char>>,
) -> Result<PeriodMap, Seq<char>>
    decreases keys.len(),
{
    if keys.len() == 0 {
        Ok(start)
    } else {
        match with_keys(c, start, event, keys.drop_last()) {
            Err(m) => Err(m),
            Ok(map) => match period_in_key(keys.last()) {
                None => Ok(map),
                Some(p) => match entry_of(c, keys.last()) {
                    Err(m) => Err(m),
                    Ok(e) => Ok(map.insert((event, p), e)),
                },
            },
        }
    }
}

/// The entries of some events.
pub open spec fn with_events(c: CatalogView, names: Seq<Seq<char>>) -> Result<PeriodMap, Seq<char>>
    decreases names.len(),
{
    if names.len() == 0 {
        Ok(Map::empty())
    } else {
        match with_events(c, names.drop_last()) {
            Err(m) => Err(m),
            Ok(map) => with_keys(c, map, names.last(), period_keys_of(c, names.last())),
        }
    }
}

/// The names of event rows.
pub open spec fn names_of(rows: Seq<ConfigView>) -> Seq<Seq<char>> {
    Seq::new(rows.len(), |i: int| rows[i].name)
}

/// What a scan of the catalog gives: the names of all events and the entries of
/// their periods.
pub open spec fn scanned(c: CatalogView) -> Result<(Seq<Seq<char>>, PeriodMap), Seq<char>> {
    match events_of(c.events, listing(c.events.dom(), Seq::empty())) {
        Err(m) => Err(m),
        Ok(rows) => match with_events(c, names_of(rows)) {
            Err(m) => Err(m),
            Ok(map) => Ok((names_of(rows), map)),
        },
    }
}

fn split_after_slash(text: &str) -> (r: Option<&str>)
    ensures
        match r {
            Some(s) => after_slash(text@) == Some(s@),
            None => after_slash(text@) is None,
        },
{
    let n: usize = text.unicode_len();
    let mut i: usize = 0;
    assert(text@.subrange(0, n as int) =~= text@);
    while i < n
        invariant
            i <= n,
            n == text@.len(),
            after_slash(text@) == after_slash(text@.subrange(i as int, n as int)),
        decreases n - i,
    {
        let ghost rest = text@.subrange(i as int, n as int);
        assert(rest.drop_first() =~= text@.subrange(i + 1, n as int));
        if text.get_char(i) == '/' {
            return Some(text.substring_char(i + 1, n));
        }
        i = i + 1;
    }
    None
}

fn parse_catalog_key(key: &str) -> (r: Option<Period>)
    ensures
        r == period_in_key(key@),
{
    match split_after_slash(key) {
        None => None,
        Some(rest) => match split_after_slash(rest) {
            None => None,
            Some(last) => parse_period_key(last),
        },
    }
}

fn locate(catalog: &Catalog, ids: &Vec<u64>) -> (r: Result<Vec<PartLoc>, InoxSetError>)
    requires
        catalog.wf(),
    ensures
        decodes_as(r, |v: Vec<PartLoc>| loc_views(v@), locations(catalog@.parts, ids@)),
{
    let mut out: Vec<PartLoc> = Vec::new();
    let ghost rows = catalog@.parts;
    let mut i: usize = 0;
    assert(ids@.subrange(0, 0) =~= Seq::empty());
    assert(loc_views(out@) =~= Seq::empty());
    while i < ids.len()
        invariant
            i <= ids@.len(),
            catalog.wf(),
            rows == catalog@.parts,
            locations(rows, ids@.subrange(0, i as int)) == Ok::<Seq<LocView>, Seq<char>>(
                loc_views(out@),
            ),
        decreases ids@.len() - i,
    {
        proof {
            let upto = ids@.subrange(0, i + 1);
            assert(upto.drop_last() =~= ids@.subrange(0, i as int));
            assert(upto.last() == ids@[i as int]);
        }
        let ghost front = loc_views(out@);
        match catalog.get_part(ids[i]) {
            Ok(Some(part)) => {
                out.push(PartLoc { part_id: ids[i], file_path: part.file_path });
                assert(loc_views(out@) =~= front.push((ids@[i as int], part.file_path@)));
            },
            Ok(None) => {},
            Err(e) => {
                proof {
                    lemma_locations_error(rows, ids@, i + 1);
                }
                return Err(e);
            },
        }
        i = i + 1;
    }
    assert(ids@.subrange(0, i as int) =~= ids@);
    Ok(out)
}

proof fn lemma_locations_error(rows: IdRows, ids: Seq<u64>, n: int)
    requires
        0 <= n <= ids.len(),
        locations(rows, ids.subrange(0, n)) is Err,
    ensures
        locations(rows, ids) == locations(rows, ids.subrange(0, n)),
    decreases ids.len() - n,
{
    if n < ids.len() {
        assert(ids.subrange(0, n + 1).drop_last() =~= ids.subrange(0, n));
        lemma_locations_error(rows, ids, n + 1);
    } else {
        assert(ids.subrange(0, n) =~= ids);
    }
}

fn read_entry(catalog: &Catalog, key: &str) -> (r: Result<PeriodEntry, InoxSetError>)
    requires
        catalog.wf(),
    ensures
        decodes_as(r, |e: PeriodEntry| e@, entry_of(catalog@, key@)),
{
    let data_ids = match read_list(&catalog.period_parts, key) {
        Ok(ids) => ids,
        Err(e) => {
            return Err(e);
        },
    };
    let data_parts = match locate(catalog, &data_ids) {
        Ok(locs) => locs,
        Err(e) => {
            return Err(e);
        },
    };
    let delta_ids = match read_list(&catalog.period_deltas, key) {
        Ok(ids) => ids,
        Err(e) => {
            return Err(e);
        },
    };
    let delta_parts = match locate(catalog, &delta_ids) {
        Ok(locs) => locs,
        Err(e) => {
            return Err(e);
        },
    };
    Ok(PeriodEntry { data_parts, delta_parts })
}

fn add_event(
    catalog: &Catalog,
    periods: &mut Table<(String, Period), PeriodEntry>,
    event: &str,
) -> (r: Result<(), InoxSetError>)
    requires
        catalog.wf(),
        old(periods).wf(),
    ensures
        final(periods).wf(),
        match (
            r,
            with_keys(
                catalog@,
                entry_views(old(periods)@),
                event@,
                period_keys_of(catalog@, event@),
            ),
        ) {
            (Ok(()), Ok(map)) => entry_views(final(periods)@) == map,
            (Err(e), Err(m)) => e@ == corrupt(m),
            _ => false,
        },
{
    let keys = catalog.period_keys_for_event(event);
    let ghost c = catalog@;
    let ghost start = entry_views(periods@);
    let ghost all = texts(keys@);
    let mut i: usize = 0;
    assert(all.subrange(0, 0) =~= Seq::empty());
    while i < keys.len()
        invariant
            i <= keys@.len(),
            catalog.wf(),
            c == catalog@,
            periods.wf(),
            start == entry_views(old(periods)@),
            all == texts(keys@),
            all == period_keys_of(c, event@),
            with_keys(c, start, event@, all.subrange(0, i as int)) == Ok::<PeriodMap, Seq<char>>(
                entry_views(periods@),
            ),
        decreases keys@.len() - i,
    {
        proof {
            let upto = all.subrange(0, i + 1);
            assert(upto.drop_last() =~= all.subrange(0, i as int));
            assert(upto.last() == keys@[i as int]@);
        }
        let key = keys[i].as_str();
        match parse_catalog_key(key) {
            Some(period) => match read_entry(catalog, key) {
                Ok(entry) => {
                    let ghost before = periods@;
                    periods.insert((event.to_owned(), period), entry);
                    assert(entry_views(periods@) =~= entry_views(before).insert(
                        (event@, period),
                        entry@,
                    ));
                },
                Err(e) => {
                    proof {
                        lemma_with_keys_error(c, start, event@, all, i + 1);
                    }
                    return Err(e);
                },
            },
            None => {},
        }
        i = i + 1;
    }
    assert(all.subrange(0, i as int) =~= all);
    Ok(())
}

proof fn lemma_with_keys_error(
    c: CatalogView,
    start: PeriodMap,
    event: Seq<char>,
    keys: Seq<Seq<char>>,
    n: int,
)
    requires
        0 <= n <= keys.len(),
        with_keys(c, start, event, keys.subrange(0, n)) is Err,
    ensures
        with_keys(c, start, event, keys) == with_keys(c, start, event, keys.subrange(0, n)),
    decreases keys.len() - n,
{
    if n < keys.len() {
        assert(keys.subrange(0, n + 1).drop_last() =~= keys.subrange(0, n));
        lemma_with_keys_error(c, start, event, keys, n + 1);
    } else {
        assert(keys.subrange(0, n) =~= keys);
    }
}

proof fn lemma_with_events_error(c: CatalogView, names: Seq<Seq<char>>, n: int)
    requires
        0 <= n <= names.len(),
        with_events(c, names.subrange(0, n)) is Err,
    ensures
        with_events(c, names) == with_events(c, names.subrange(0, n)),
    decreases names.len() - n,
{
    if n < names.len() {
        assert(names.subrange(0, n + 1).drop_last() =~= names.subrange(0, n));
        lemma_with_events_error(c, names, n + 1);
    } else {
        assert(names.subrange(0, n) =~= names);
    }
}

// ---------------------------------------------------------------------------
// File contents
// ---------------------------------------------------------------------------

/// Whether the contents of every file of an entry are at hand.
pub open spec fn files_at_hand(locs: Seq<LocView>, files: Map<Seq<char>, Seq<u8>>) -> bool {
    forall|i: int| 0 <= i < locs.len() ==> files.dom().contains((#[trigger] locs[i]).1)
}

/// Whether every file of a list is a bitmap.
pub open spec fn files_readable(locs: Seq<LocView>, files: Map<Seq<char>, Seq<u8>>) -> bool {
    forall|i: int|
        0 <= i < locs.len() ==> deserialized(files[(#[trigger] locs[i]).1]) is Some
}

/// Whether the container keys of every file of a list ascend.
pub open spec fn files_ascend(locs: Seq<LocView>, files: Map<Seq<char>, Seq<u8>>) -> bool {
    forall|i: int|
        0 <= i < locs.len() ==> keys_ascend(files[(#[trigger] locs[i]).1])
}

/// Whether no file of a list has run containers.
pub open spec fn files_plain(locs: Seq<LocView>, files: Map<Seq<char>, Seq<u8>>) -> bool {
    forall|i: int|
        0 <= i < locs.len() ==> without_runs(files[(#[trigger] locs[i]).1])
}

/// The order in which the parts of an entry are read and applied.
pub open spec fn entry_order(e: EntryView) -> Seq<Step> {
    order_of(loc_ids(e.data), loc_ids(e.deltas))
}

/// The identifiers of locations.
pub open spec fn loc_ids(locs: Seq<LocView>) -> Seq<u64> {
    Seq::new(locs.len(), |i: int| locs[i].0)
}

/// The path of the part of a step.
pub open spec fn step_path(e: EntryView, s: Step) -> Seq<char> {
    if s.is_delta {
        e.deltas[s.index as int].1
    } else {
        e.data[s.index as int].1
    }
}

/// Whether an entry has no more parts than memory can hold.
pub open spec fn entry_fits(e: EntryView) -> bool {
    e.data.len() <= usize::MAX && e.deltas.len() <= usize::MAX
}

/// Whether a step names a part of an entry.
pub open spec fn is_step_of(e: EntryView, s: Step) -> bool {
    s.index < if s.is_delta {
        e.deltas.len()
    } else {
        e.data.len()
    }
}

/// What the parts of an entry merge to.
pub open spec fn entry_set(e: EntryView, files: Map<Seq<char>, Seq<u8>>) -> Set<u32> {
    applied(entry_order(e), |s: Step| deserialized(files[step_path(e, s)])->0)
}

/// What is wrong with the file of a path: it is not at hand, or is no bitmap.
pub open spec fn file_fault(path: Seq<char>, files: Map<Seq<char>, Seq<u8>>) -> Option<ErrorView> {
    if !files.dom().contains(path) {
        Some(missing_file(path))
    } else if deserialized(files[path]) is None {
        Some(corrupted())
    } else {
        None
    }
}

/// The fault of the first of `steps` that has one.
pub open spec fn first_fault(
    e: EntryView,
    files: Map<Seq<char>, Seq<u8>>,
    steps: Seq<Step>,
) -> Option<ErrorView>
    decreases steps.len(),
{
    if steps.len() == 0 {
        None
    } else {
        match first_fault(e, files, steps.drop_last()) {
            Some(f) => Some(f),
            None => file_fault(step_path(e, steps.last()), files),
        }
    }
}

/// The fault that merging an entry meets first; `None` where all of its files
/// are at hand and are bitmaps.
pub open spec fn entry_fault(e: EntryView, files: Map<Seq<char>, Seq<u8>>) -> Option<ErrorView> {
    first_fault(e, files, entry_order(e))
}

proof fn lemma_first_fault_prefix(
    e: EntryView,
    files: Map<Seq<char>, Seq<u8>>,
    steps: Seq<Step>,
    n: int,
)
    requires
        0 <= n <= steps.len(),
        first_fault(e, files, steps.subrange(0, n)) is Some,
    ensures
        first_fault(e, files, steps) == first_fault(e, files, steps.subrange(0, n)),
    decreases steps.len() - n,
{
    if n < steps.len() {
        assert(steps.subrange(0, n + 1).drop_last() =~= steps.subrange(0, n));
        lemma_first_fault_prefix(e, files, steps, n + 1);
    } else {
        assert(steps.subrange(0, n) =~= steps);
    }
}

proof fn lemma_first_fault(e: EntryView, files: Map<Seq<char>, Seq<u8>>, steps: Seq<Step>)
    ensures
        match first_fault(e, files, steps) {
            None => forall|k: int|
                0 <= k < steps.len() ==> file_fault(step_path(e, #[trigger] steps[k]), files) is None,
            Some(f) => exists|k: int|
                0 <= k < steps.len() && file_fault(step_path(e, #[trigger] steps[k]), files)
                    == Some(f),
        },
    decreases steps.len(),
{
    if steps.len() > 0 {
        let init = steps.drop_last();
        lemma_first_fault(e, files, init);
        assert(steps[steps.len() - 1] == steps.last());
        if first_fault(e, files, init) is Some {
            let f = first_fault(e, files, init)->0;
            let k = choose|k: int|
                0 <= k < init.len() && file_fault(step_path(e, #[trigger] init[k]), files) == Some(
                    f,
                );
            assert(steps[k] == init[k]);
        } else {
            assert forall|k: int| 0 <= k < steps.len() - 1 implies file_fault(
                step_path(e, #[trigger] steps[k]),
                files,
            ) is None by {
                assert(init[k] == steps[k]);
            }
        }
    }
}

impl PeriodEntry {
    /// Starts the merge of this entry. Its steps name the parts to read, one
    /// after the other.
    pub fn start_merge(&self) -> (r: Merge)
        ensures
            r.wf(),
            r.order() == entry_order(self@),
            r.done() == 0,
            r.is_ascending(),
            r.is_plain(),
            r.set() == Set::<u32>::empty(),
            forall|k: int|
                0 <= k < r.order().len() ==> is_step_of(self@, #[trigger] r.order()[k]),
            entry_fits(self@),
    {
        let data_ids = ids_of_locs(&self.data_parts);
        let delta_ids = ids_of_locs(&self.delta_parts);
        let r = Merge::new(&data_ids, &delta_ids);
        proof {
            assert(data_ids@ =~= loc_ids(self@.data));
            assert(delta_ids@ =~= loc_ids(self@.deltas));
            assert forall|k: int| 0 <= k < r.order().len() implies is_step_of(
                self@,
                #[trigger] r.order()[k],
            ) by {
                assert(r.order().contains(r.order()[k]));
                lemma_order_members(data_ids@, delta_ids@, r.order()[k]);
            }
        }
        r
    }

    /// Returns the path of the part of a step.
    pub fn path_of(&self, step: &Step) -> (r: &str)
        requires
            is_step_of(self@, *step),
        ensures
            r@ == step_path(self@, *step),
    {
        if step.is_delta {
            self.delta_parts[step.index].file_path.as_str()
        } else {
            self.data_parts[step.index].file_path.as_str()
        }
    }
}

fn ids_of_locs(locs: &Vec<PartLoc>) -> (r: Vec<u64>)
    ensures
        r@ == loc_ids(loc_views(locs@)),
        r@.len() <= usize::MAX,
{
    let mut ids: Vec<u64> = Vec::new();
    let mut i: usize = 0;
    while i < locs.len()
        invariant
            i <= locs@.len(),
            ids@ =~= loc_ids(loc_views(locs@)).subrange(0, i as int),
        decreases locs@.len() - i,
    {
        ids.push(locs[i].part_id);
        i = i + 1;
    }
    assert(ids@ =~= loc_ids(loc_views(locs@)));
    ids
}

/// The error for a part file whose contents are not at hand.
pub open spec fn missing_file(path: Seq<char>) -> ErrorView {
    ErrorView::BitmapIo { path, source: "part file was not read"@ }
}

/// Whether a cached bitmap is what the parts of an entry merge to.
pub open spec fn cached_right(
    b: RoaringBitmap,
    e: EntryView,
    files: Map<Seq<char>, Seq<u8>>,
) -> bool {
    files_ascend(e.data, files) && files_ascend(e.deltas, files) ==> {
        &&& ordered(b)
        &&& members(b) == entry_set(e, files)
        &&& files_plain(e.data, files) && files_plain(e.deltas, files) ==> canonical(b)
    }
}

/// Whether all files of an entry are at hand and are bitmaps.
pub open spec fn entry_ready(e: EntryView, files: Map<Seq<char>, Seq<u8>>) -> bool {
    &&& files_at_hand(e.data, files)
    &&& files_at_hand(e.deltas, files)
    &&& files_readable(e.data, files)
    &&& files_readable(e.deltas, files)
}

/// Whether the entry of a row is ready and what it merges to is cached.
spec fn row_cached(
    row: ((String, Period), PeriodEntry),
    cache: Map<EntryKey, Arc<RoaringBitmap>>,
    files: Map<Seq<char>, Seq<u8>>,
) -> bool {
    &&& entry_ready(row.1@, files)
    &&& cached_right(*cache[row.0.model()], row.1@, files)
}

/// Merges the parts of an entry from the contents of their files. The first part
/// in the order of identifiers whose file is not at hand or is no bitmap ends it.
fn merge_entry(entry: &PeriodEntry, files: &Table<String, Vec<u8>>) -> (r: Result<
    RoaringBitmap,
    InoxSetError,
>)
    requires
        files.wf(),
    ensures
        r is Ok <==> entry_ready(entry@, byte_rows(files@)),
        match r {
            Ok(b) => entry_fault(entry@, byte_rows(files@)) is None && cached_right(
                b,
                entry@,
                byte_rows(files@),
            ),
            Err(e) => entry_fault(entry@, byte_rows(files@)) == Some(e@),
        },
{
    let ghost map = byte_rows(files@);
    let ghost view = entry@;
    let ghost order = entry_order(view);
    let ghost content = |s: Step| deserialized(map[step_path(view, s)])->0;
    let ghost ascend = files_ascend(view.data, map) && files_ascend(view.deltas, map);
    let ghost plain = files_plain(view.data, map) && files_plain(view.deltas, map);
    let mut merge = entry.start_merge();
    proof {
        lemma_entry_fault(view, map);
    }
    assert(order.subrange(0, 0) =~= Seq::empty());
    loop
        invariant
            files.wf(),
            map == byte_rows(files@),
            view == entry@,
            order == entry_order(view),
            content == |s: Step| deserialized(map[step_path(view, s)])->0,
            ascend == (files_ascend(view.data, map) && files_ascend(view.deltas, map)),
            plain == (files_plain(view.data, map) && files_plain(view.deltas, map)),
            merge.wf(),
            merge.order() == order,
            0 <= merge.done() <= order.len(),
            forall|k: int| 0 <= k < order.len() ==> is_step_of(view, #[trigger] order[k]),
            first_fault(view, map, order.subrange(0, merge.done())) is None,
            ascend ==> merge.is_ascending() && merge.set() == applied(
                order.subrange(0, merge.done()),
                content,
            ),
            plain ==> merge.is_plain(),
        ensures
            merge.done() == order.len(),
        decreases order.len() - merge.done(),
    {
        let step = match merge.next_step() {
            Some(step) => step,
            None => {
                break;
            },
        };
        let ghost n = merge.done();
        proof {
            assert(is_step_of(view, order[n]));
            let upto = order.subrange(0, n + 1);
            assert(upto.drop_last() =~= order.subrange(0, n));
            assert(upto.last() == step);
        }
        let path = entry.path_of(&step);
        match files.get(&path.to_owned()) {
            Some(bytes) => {
                assert(bytes@ == map[step_path(view, step)]);
                match merge.apply(bytes.as_slice()) {
                    Ok(()) => {},
                    Err(e) => {
                        proof {
                            lemma_first_fault_prefix(view, map, order, n + 1);
                        }
                        return Err(e);
                    },
                }
            },
            None => {
                proof {
                    lemma_first_fault_prefix(view, map, order, n + 1);
                }
                return Err(
                    InoxSetError::BitmapIo {
                        path: path.to_owned(),
                        source: "part file was not read".to_owned(),
                    },
                );
            },
        }
    }
    assert(order.subrange(0, merge.done()) =~= order);
    Ok(merge.into_bitmap())
}

impl ReadIndex {
    /// No key occurs twice.
    pub open spec fn wf(self) -> bool {
        self.periods.wf() && self.bitmap_cache.wf()
    }

    /// Collects the names of all events and the part locations of their
    /// periods. The cache is left empty.
    pub fn scan(catalog: &Catalog) -> (r: Result<ReadIndex, InoxSetError>)
        requires
            catalog.wf(),
        ensures
            match (r, scanned(catalog@)) {
                (Ok(index), Ok((names, map))) => {
                    &&& index.wf()
                    &&& texts(index.event_names@) == names
                    &&& entry_views(index.periods@) == map
                    &&& index.bitmap_cache@ == Map::<EntryKey, Arc<RoaringBitmap>>::empty()
                },
                (Err(e), Err(m)) => e@ == corrupt(m),
                _ => false,
            },
    {
        let events = match catalog.list_events() {
            Ok(events) => events,
            Err(e) => {
                return Err(e);
            },
        };
        let ghost c = catalog@;
        let ghost names = names_of(event_rows(events@));
        let mut event_names: Vec<String> = Vec::new();
        let mut periods: Table<(String, Period), PeriodEntry> = Table::new();
        let mut i: usize = 0;
        assert(names.subrange(0, 0) =~= Seq::empty());
        assert(entry_views(periods@) =~= Map::empty());
        assert(texts(event_names@) =~= names.subrange(0, 0));
        while i < events.len()
            invariant
                i <= events@.len(),
                catalog.wf(),
                c == catalog@,
                periods.wf(),
                names == names_of(event_rows(events@)),
                scanned(c) == match with_events(c, names) {
                    Err(m) => Err::<(Seq<Seq<char>>, PeriodMap), Seq<char>>(m),
                    Ok(map) => Ok((names, map)),
                },
                texts(event_names@) == names.subrange(0, i as int),
                with_events(c, names.subrange(0, i as int)) == Ok::<PeriodMap, Seq<char>>(
                    entry_views(periods@),
                ),
            decreases events@.len() - i,
        {
            proof {
                let upto = names.subrange(0, i + 1);
                assert(upto.drop_last() =~= names.subrange(0, i as int));
                assert(upto.last() == events@[i as int].name@);
            }
            event_names.push(events[i].name.clone());
            assert(texts(event_names@) =~= names.subrange(0, i + 1));
            match add_event(catalog, &mut periods, events[i].name.as_str()) {
                Ok(()) => {},
                Err(e) => {
                    proof {
                        lemma_with_events_error(c, names, i + 1);
                    }
                    return Err(e);
                },
            }
            i = i + 1;
        }
        assert(names.subrange(0, i as int) =~= names);
        Ok(ReadIndex { periods, event_names, bitmap_cache: Table::new() })
    }

    /// Merges the parts of every period from the contents of their files, given
    /// by path. A period with a file that is missing or is no bitmap fails the
    /// whole step with the fault that its merge meets first. Which of several such
    /// periods is reported is left open.
    pub fn fill_cache(&mut self, files: &Table<String, Vec<u8>>) -> (r: Result<(), InoxSetError>)
        requires
            old(self).wf(),
            files.wf(),
        ensures
            final(self).wf(),
            final(self).periods == old(self).periods,
            final(self).event_names == old(self).event_names,
            ({
                let entries = entry_views(old(self).periods@);
                let map = byte_rows(files@);
                &&& r is Ok <==> forall|k: EntryKey| #[trigger]
                    entries.dom().contains(k) ==> entry_ready(entries[k], map)
                &&& match r {
                    Ok(()) => {
                        &&& final(self).bitmap_cache@.dom() == entries.dom()
                        &&& forall|k: EntryKey| #[trigger]
                            entries.dom().contains(k) ==> cached_right(
                                *final(self).bitmap_cache@[k],
                                entries[k],
                                map,
                            )
                    },
                    Err(e) => final(self).bitmap_cache == old(self).bitmap_cache && exists|
                        k: EntryKey,
                    | #[trigger]
                        entries.dom().contains(k) && entry_fault(entries[k], map) == Some(e@),
                }
            }),
    {
        let mut cache: Table<(String, Period), Arc<RoaringBitmap>> = Table::new();
        let n: usize = self.periods.len();
        let ghost rows = self.periods.rows();
        let ghost entries = entry_views(self.periods@);
        let ghost map = byte_rows(files@);
        let mut i: usize = 0;
        while i < n
            invariant
                i <= n,
                *self == *old(self),
                self.wf(),
                rows == self.periods.rows(),
                n == rows.len(),
                entries == entry_views(self.periods@),
                files.wf(),
                map == byte_rows(files@),
                cache.wf(),
                forall|k: EntryKey| #[trigger]
                    cache@.dom().contains(k) <==> exists|m: int|
                        0 <= m < i && #[trigger] rows[m].0.model() == k,
                forall|m: int| 0 <= m < i ==> row_cached(#[trigger] rows[m], cache@, map),
            decreases n - i,
        {
            let row = self.periods.row(i);
            let ghost key = rows[i as int].0.model();
            proof {
                crate::table::lemma_rows_map_get(rows, i as int);
                assert(entries.dom().contains(key));
                assert(entries[key] == rows[i as int].1@);
            }
            match merge_entry(&row.1, files) {
                Ok(b) => {
                    let ghost before = cache@;
                    cache.insert((row.0.0.clone(), row.0.1), Arc::new(b));
                    proof {
                        assert(cache@ == before.insert(key, Arc::new(b)));
                        assert forall|k: EntryKey| #[trigger]
                            cache@.dom().contains(k) <==> exists|m: int|
                                0 <= m < i + 1 && #[trigger] rows[m].0.model() == k by {
                            assert(before.dom().contains(k) <==> exists|m: int|
                                0 <= m < i && #[trigger] rows[m].0.model() == k);
                            if k == key {
                                assert(rows[i as int].0.model() == k);
                            }
                            if exists|m: int| 0 <= m < i + 1 && #[trigger] rows[m].0.model() == k {
                                let m = choose|m: int|
                                    0 <= m < i + 1 && #[trigger] rows[m].0.model() == k;
                                if m < i {
                                    assert(rows[m].0.model() == k);
                                }
                            }
                        }
                        assert forall|m: int| 0 <= m < i + 1 implies row_cached(
                            #[trigger] rows[m],
                            cache@,
                            map,
                        ) by {
                            if m < i {
                                assert(rows[m].0.model() != rows[i as int].0.model());
                            }
                        }
                    }
                },
                Err(e) => {
                    return Err(e);
                },
            }
            i = i + 1;
        }
        proof {
            assert forall|k: EntryKey| #[trigger] entries.dom().contains(k) implies entry_ready(
                entries[k],
                map,
            ) && cache@.dom().contains(k) && cached_right(*cache@[k], entries[k], map) by {
                crate::table::lemma_rows_map_dom(rows, k);
                let m = choose|m: int| 0 <= m < rows.len() && #[trigger] rows[m].0.model() == k;
                crate::table::lemma_rows_map_get(rows, m);
                assert(entries[k] == rows[m].1@);
                assert(row_cached(rows[m], cache@, map));
            }
            assert forall|k: EntryKey| cache@.dom().contains(k) implies entries.dom().contains(
                k,
            ) by {
                let m = choose|m: int| 0 <= m < n && #[trigger] rows[m].0.model() == k;
                crate::table::lemma_rows_map_get(rows, m);
            }
            assert(cache@.dom() =~= entries.dom());
        }
        self.bitmap_cache = cache;
        Ok(())
    }

    /// Builds the whole index from the catalog and the contents of the part
    /// files.
    pub fn build(catalog: &Catalog, files: &Table<String, Vec<u8>>) -> (r: Result<
        ReadIndex,
        InoxSetError,
    >)
        requires
            catalog.wf(),
            files.wf(),
        ensures
            match (r, scanned(catalog@)) {
                (Ok(index), Ok((names, entries))) => {
                    &&& index.wf()
                    &&& texts(index.event_names@) == names
                    &&& entry_views(index.periods@) == entries
                    &&& index.bitmap_cache@.dom() == entries.dom()
                    &&& forall|k: EntryKey| #[trigger]
                        entries.dom().contains(k) ==> entry_ready(entries[k], byte_rows(files@))
                            && cached_right(
                            *index.bitmap_cache@[k],
                            entries[k],
                            byte_rows(files@),
                        )
                },
                (Err(e), Ok((_, entries))) => {
                    exists|k: EntryKey| #[trigger]
                        entries.dom().contains(k) && entry_fault(entries[k], byte_rows(files@))
                            == Some(e@)
                },
                (Err(e), Err(m)) => e@ == corrupt(m),
                (Ok(_), Err(_)) => false,
            },
    {
        let mut index = match ReadIndex::scan(catalog) {
            Ok(index) => index,
            Err(e) => {
                return Err(e);
            },
        };
        match index.fill_cache(files) {
            Ok(()) => Ok(index),
            Err(e) => Err(e),
        }
    }
}

// ---------------------------------------------------------------------------
// Laws
// ---------------------------------------------------------------------------

proof fn lemma_after_slash(front: Seq<char>, rest: Seq<char>)
    requires
        no_slash(front),
    ensures
        after_slash(front + "/"@ + rest) == Some(rest),
    decreases front.len(),
{
    reveal_strlit("/");
    let text = front + "/"@ + rest;
    if front.len() == 0 {
        assert(text[0] == '/');
        assert(text.drop_first() =~= rest);
    } else {
        assert(text[0] == front[0]);
        assert(text.drop_first() =~= front.drop_first() + "/"@ + rest);
        assert forall|i: int| 0 <= i < front.drop_first().len() implies #[trigger] front.drop_first()[i]
            != '/' by {
            assert(front[i + 1] != '/');
        }
        lemma_after_slash(front.drop_first(), rest);
    }
}

/// Every key that is written for a legal event name and a valid period with a
/// year of four digits is recognised by a scan, under the same period.
pub proof fn law_written_key_is_indexed(event: Seq<char>, gran: Granularity, period: Period)
    requires
        no_slash(event),
        valid_period(period),
        year_of(period) <= 9999,
    ensures
        period_in_key(catalog_key_text(event, gran, period)) == Some(period),
{
    let inner = gran.dir_text() + "/"@ + key_text(period);
    assert(catalog_key_text(event, gran, period) =~= event + "/"@ + inner);
    lemma_after_slash(event, inner);
    lemma_dir_text(gran, gran);
    lemma_after_slash(gran.dir_text(), key_text(period));
    law_key_round_trip(period);
}

/// Merging an entry meets no fault exactly if all of its files are at hand and
/// are bitmaps.
proof fn lemma_entry_fault(e: EntryView, files: Map<Seq<char>, Seq<u8>>)
    requires
        entry_fits(e),
    ensures
        entry_fault(e, files) is None <==> entry_ready(e, files),
{
    let order = entry_order(e);
    let data_ids = loc_ids(e.data);
    let delta_ids = loc_ids(e.deltas);
    lemma_first_fault(e, files, order);
    if entry_fault(e, files) is None {
        assert forall|i: int| 0 <= i < e.data.len() implies file_fault(
            (#[trigger] e.data[i]).1,
            files,
        ) is None by {
            let s = Step { id: data_ids[i], is_delta: false, index: i as usize };
            lemma_order_members(data_ids, delta_ids, s);
            let k = choose|k: int| 0 <= k < order.len() && order[k] == s;
            assert(file_fault(step_path(e, order[k]), files) is None);
        }
        assert forall|i: int| 0 <= i < e.deltas.len() implies file_fault(
            (#[trigger] e.deltas[i]).1,
            files,
        ) is None by {
            let s = Step { id: delta_ids[i], is_delta: true, index: i as usize };
            lemma_order_members(data_ids, delta_ids, s);
            let k = choose|k: int| 0 <= k < order.len() && order[k] == s;
            assert(file_fault(step_path(e, order[k]), files) is None);
        }
    } else {
        let k = choose|k: int|
            0 <= k < order.len() && file_fault(step_path(e, #[trigger] order[k]), files)
                == entry_fault(e, files);
        let s = order[k];
        assert(order.contains(s));
        lemma_order_members(data_ids, delta_ids, s);
        if s.is_delta {
            assert(e.deltas[s.index as int].1 == step_path(e, s));
        } else {
            assert(e.data[s.index as int].1 == step_path(e, s));
        }
    }
}

/// Whether `path` is that of a part of an entry.
pub open spec fn is_part_path(e: EntryView, path: Seq<char>) -> bool {
    ||| exists|i: int| 0 <= i < e.data.len() && (#[trigger] e.data[i]).1 == path
    ||| exists|i: int| 0 <= i < e.deltas.len() && (#[trigger] e.deltas[i]).1 == path
}

/// An entry merges without fault exactly if all of its files are at hand and are
/// bitmaps. A fault is that of one of its parts: its file is missing, and the
/// fault names it, or it is no bitmap.
pub proof fn law_fault_is_that_of_a_part(e: EntryView, files: Map<Seq<char>, Seq<u8>>)
    requires
        entry_fits(e),
    ensures
        entry_fault(e, files) is None <==> entry_ready(e, files),
        entry_fault(e, files) matches Some(f) ==> exists|path: Seq<char>|
            #![trigger is_part_path(e, path)]
            is_part_path(e, path) && if files.dom().contains(path) {
                deserialized(files[path]) is None && f == corrupted()
            } else {
                f == missing_file(path)
            },
{
    lemma_entry_fault(e, files);
    let order = entry_order(e);
    lemma_first_fault(e, files, order);
    if let Some(f) = entry_fault(e, files) {
        let k = choose|k: int|
            0 <= k < order.len() && file_fault(step_path(e, #[trigger] order[k]), files) == Some(f);
        let s = order[k];
        assert(order.contains(s));
        lemma_order_members(loc_ids(e.data), loc_ids(e.deltas), s);
        if s.is_delta {
            assert(e.deltas[s.index as int].1 == step_path(e, s));
        } else {
            assert(e.data[s.index as int].1 == step_path(e, s));
        }
        assert(is_part_path(e, step_path(e, s)));
    }
}

/// A period with one data part and no deletions reads as what that part holds:
/// what was flushed is what is read.
pub proof fn law_one_part_reads_as_written(e: EntryView, files: Map<Seq<char>, Seq<u8>>)
    requires
        e.data.len() == 1,
        e.deltas.len() == 0,
        deserialized(files[e.data[0].1]) is Some,
    ensures
        entry_set(e, files) == deserialized(files[e.data[0].1])->0,
{
    let data_ids = loc_ids(e.data);
    let delta_ids = loc_ids(e.deltas);
    let content = |s: Step| deserialized(files[step_path(e, s)])->0;
    assert(delta_ids =~= Seq::empty());
    let set = entry_set(e, files);
    let held = deserialized(files[e.data[0].1])->0;
    assert forall|v: u32| set.contains(v) <==> held.contains(v) by {
        crate::merge::law_without_deletions_union(data_ids, content, v);
        let s = Step { id: data_ids[0], is_delta: false, index: 0 };
        assert(content(s) == held);
        if held.contains(v) {
            assert(data_ids[0] == e.data[0].0);
        }
    }
    assert(set =~= held);
}

proof fn lemma_locations(parts: IdRows, ids: Seq<u64>, id: u64, path: Seq<char>)
    requires
        locations(parts, ids) is Ok,
    ensures
        locations(parts, ids)->Ok_0.contains((id, path)) <==> ids.contains(id)
            && parts.dom().contains(id) && (part_in(part_context(id), parts[id]) matches Ok(p)
            && p.file_path == path),
        locations(parts, ids)->Ok_0.map_values(|l: LocView| l.0) == ids.filter(
            |i: u64| parts.dom().contains(i),
        ),
    decreases ids.len(),
{
    reveal(Seq::filter);
    let held = |i: u64| parts.dom().contains(i);
    let whole = locations(parts, ids)->Ok_0;
    let only = |l: LocView| l.0;
    if ids.len() == 0 {
        assert(whole.map_values(only) =~= ids.filter(held));
    } else {
        let init = ids.drop_last();
        let front = locations(parts, init)->Ok_0;
        lemma_locations(parts, init, id, path);
        let last = ids.last();
        assert(ids[ids.len() - 1] == last);
        if ids.contains(id) {
            let k = choose|k: int| 0 <= k < ids.len() && ids[k] == id;
            if k < init.len() {
                assert(init[k] == id);
            }
        }
        if init.contains(id) {
            let k = choose|k: int| 0 <= k < init.len() && init[k] == id;
            assert(ids[k] == id);
        }
        if parts.dom().contains(last) {
            let x = (last, whole.last().1);
            assert(whole == front.push(x));
            assert(whole.map_values(only) =~= front.map_values(only).push(last));
            if front.contains((id, path)) {
                let k = choose|k: int| 0 <= k < front.len() && front[k] == (id, path);
                assert(whole[k] == (id, path));
            }
            if whole.contains((id, path)) {
                let k = choose|k: int| 0 <= k < whole.len() && whole[k] == (id, path);
                if k < front.len() {
                    assert(front[k] == (id, path));
                }
            }
            assert(whole[whole.len() - 1] == x);
        }
    }
}

/// The locations of listed parts are exactly those that the catalog holds: an
/// identifier stands there, with the path of its part, as often as it is listed,
/// and in that order. Listed identifiers fail only where a part cannot be decoded.
pub proof fn law_every_listed_part_is_located(
    parts: IdRows,
    ids: Seq<u64>,
    id: u64,
    path: Seq<char>,
)
    ensures
        locations(parts, ids) is Err <==> exists|i: int|
            0 <= i < ids.len() && parts.dom().contains(#[trigger] ids[i]) && part_in(
                part_context(ids[i]),
                parts[ids[i]],
            ) is Err,
        locations(parts, ids) matches Ok(locs) ==> {
            &&& locs.contains((id, path)) <==> ids.contains(id) && parts.dom().contains(id) && (
            part_in(part_context(id), parts[id]) matches Ok(p) && p.file_path == path)
            &&& locs.map_values(|l: LocView| l.0) == ids.filter(|i: u64| parts.dom().contains(i))
        },
    decreases ids.len(),
{
    if locations(parts, ids) is Ok {
        lemma_locations(parts, ids, id, path);
    }
    if ids.len() > 0 {
        let init = ids.drop_last();
        law_every_listed_part_is_located(parts, init, id, path);
        assert(ids[ids.len() - 1] == ids.last());
        if locations(parts, init) is Err {
            let i = choose|i: int|
                0 <= i < init.len() && parts.dom().contains(#[trigger] init[i]) && part_in(
                    part_context(init[i]),
                    parts[init[i]],
                ) is Err;
            assert(ids[i] == init[i]);
        }
        if exists|i: int|
            0 <= i < ids.len() && parts.dom().contains(#[trigger] ids[i]) && part_in(
                part_context(ids[i]),
                parts[ids[i]],
            ) is Err {
            let i = choose|i: int|
                0 <= i < ids.len() && parts.dom().contains(#[trigger] ids[i]) && part_in(
                    part_context(ids[i]),
                    parts[ids[i]],
                ) is Err;
            if i < init.len() {
                assert(init[i] == ids[i]);
            }
        }
    }
}

/// The entry of a catalog key holds exactly the parts that its two lists name and
/// the catalog has: data parts from the list of data parts, delta parts from the
/// list of delta parts, each with its path.
pub proof fn law_entry_holds_its_parts(c: CatalogView, key: Seq<char>, id: u64, path: Seq<char>)
    requires
        entry_of(c, key) is Ok,
    ensures
        ({
            let e = entry_of(c, key)->Ok_0;
            let has = c.parts.dom().contains(id) && (part_in(part_context(id), c.parts[id]) matches
            Ok(p) && p.file_path == path);
            &&& e.data.contains((id, path)) <==> has && c.period_parts.dom().contains(key) && (
            list_in(key, c.period_parts[key]) matches Ok(ids) && ids.contains(id))
            &&& e.deltas.contains((id, path)) <==> has && c.period_deltas.dom().contains(key) && (
            list_in(key, c.period_deltas[key]) matches Ok(ids) && ids.contains(id))
            &&& e.data.len() == if c.period_parts.dom().contains(key) {
                list_in(key, c.period_parts[key])->Ok_0.filter(
                    |i: u64| c.parts.dom().contains(i),
                ).len()
            } else {
                0
            }
            &&& e.deltas.len() == if c.period_deltas.dom().contains(key) {
                list_in(key, c.period_deltas[key])->Ok_0.filter(
                    |i: u64| c.parts.dom().contains(i),
                ).len()
            } else {
                0
            }
        }),
{
    reveal(Seq::filter);
    let data_ids = list_of(c.period_parts, key)->Ok_0;
    let delta_ids = list_of(c.period_deltas, key)->Ok_0;
    lemma_locations(c.parts, data_ids, id, path);
    lemma_locations(c.parts, delta_ids, id, path);
    let e = entry_of(c, key)->Ok_0;
    assert(e.data.map_values(|l: LocView| l.0).len() == e.data.len());
    assert(e.deltas.map_values(|l: LocView| l.0).len() == e.deltas.len());
}

/// Whether a catalog key of an event lists parts and names a period.
pub open spec fn lists_period(
    c: CatalogView,
    event: Seq<char>,
    period: Period,
    key: Seq<char>,
) -> bool {
    &&& c.period_parts.dom().contains(key) || c.period_deltas.dom().contains(key)
    &&& crate::order::has_prefix(key, event + "/"@)
    &&& period_in_key(key) == Some(period)
}

proof fn lemma_with_keys(
    c: CatalogView,
    start: PeriodMap,
    event: Seq<char>,
    keys: Seq<Seq<char>>,
    k: EntryKey,
)
    requires
        with_keys(c, start, event, keys) is Ok,
    ensures
        ({
            let map = with_keys(c, start, event, keys)->Ok_0;
            &&& map.dom().contains(k) <==> start.dom().contains(k) || (k.0 == event && exists|
                i: int,
            |
                0 <= i < keys.len() && period_in_key(#[trigger] keys[i]) == Some(k.1))
            &&& map.dom().contains(k) ==> (start.dom().contains(k) && map[k] == start[k]) || (k.0
                == event && exists|i: int|
                0 <= i < keys.len() && period_in_key(#[trigger] keys[i]) == Some(k.1) && entry_of(
                    c,
                    keys[i],
                ) == Ok::<EntryView, Seq<char>>(map[k]))
            &&& k.0 != event && start.dom().contains(k) ==> map[k] == start[k]
            &&& k.0 == event && (exists|i: int|
                0 <= i < keys.len() && period_in_key(#[trigger] keys[i]) == Some(k.1)) ==> exists|
                i: int,
            |
                0 <= i < keys.len() && period_in_key(#[trigger] keys[i]) == Some(k.1) && entry_of(
                    c,
                    keys[i],
                ) == Ok::<EntryView, Seq<char>>(map[k])
        }),
    decreases keys.len(),
{
    if keys.len() > 0 {
        let init = keys.drop_last();
        lemma_with_keys(c, start, event, init, k);
        let map = with_keys(c, start, event, keys)->Ok_0;
        let last = keys[keys.len() - 1];
        assert(last == keys.last());
        assert forall|i: int| 0 <= i < init.len() implies keys[i] == #[trigger] init[i] by {}
        if exists|i: int| 0 <= i < init.len() && period_in_key(#[trigger] init[i]) == Some(k.1) {
            let i = choose|i: int|
                0 <= i < init.len() && period_in_key(#[trigger] init[i]) == Some(k.1);
            assert(period_in_key(keys[i]) == Some(k.1));
        }
        if exists|i: int| 0 <= i < keys.len() && period_in_key(#[trigger] keys[i]) == Some(k.1) {
            let i = choose|i: int|
                0 <= i < keys.len() && period_in_key(#[trigger] keys[i]) == Some(k.1);
            if i < init.len() {
                assert(period_in_key(init[i]) == Some(k.1));
            }
        }
        let front = with_keys(c, start, event, init)->Ok_0;
        if k.0 == event && period_in_key(last) == Some(k.1) {
            assert(entry_of(c, last) == Ok::<EntryView, Seq<char>>(map[k]));
        } else {
            assert(map.dom().contains(k) <==> front.dom().contains(k));
            if front.dom().contains(k) {
                assert(map[k] == front[k]);
                if exists|i: int|
                    0 <= i < init.len() && period_in_key(#[trigger] init[i]) == Some(k.1)
                        && entry_of(c, init[i]) == Ok::<EntryView, Seq<char>>(front[k]) {
                    let i = choose|i: int|
                        0 <= i < init.len() && period_in_key(#[trigger] init[i]) == Some(k.1)
                            && entry_of(c, init[i]) == Ok::<EntryView, Seq<char>>(front[k]);
                    assert(entry_of(c, keys[i]) == Ok::<EntryView, Seq<char>>(map[k]));
                }
            }
        }
    }
}

proof fn lemma_with_events(c: CatalogView, names: Seq<Seq<char>>, k: EntryKey)
    requires
        with_events(c, names) is Ok,
        c.period_parts.dom().finite(),
        c.period_deltas.dom().finite(),
        names.no_duplicates(),
    ensures
        ({
            let map = with_events(c, names)->Ok_0;
            &&& map.dom().contains(k) <==> names.contains(k.0) && exists|key: Seq<char>|
                #[trigger] lists_period(c, k.0, k.1, key)
            &&& map.dom().contains(k) ==> exists|key: Seq<char>| #[trigger]
                lists_period(c, k.0, k.1, key) && entry_of(c, key) == Ok::<EntryView, Seq<char>>(
                    map[k],
                )
        }),
    decreases names.len(),
{
    if names.len() > 0 {
        let init = names.drop_last();
        let last = names.last();
        assert(init.no_duplicates()) by {
            assert forall|i: int, j: int|
                0 <= i < init.len() && 0 <= j < init.len() && i != j implies init[i] != init[j] by {
                assert(names[i] != names[j]);
            }
        }
        lemma_with_events(c, init, k);
        let start = with_events(c, init)->Ok_0;
        let keys = period_keys_of(c, last);
        lemma_with_keys(c, start, last, keys, k);
        let all = c.period_parts.dom().union(c.period_deltas.dom());
        crate::order::law_listing_exists(all, last + "/"@);
        assert(names[names.len() - 1] == last);
        assert(!init.contains(last)) by {
            if init.contains(last) {
                let i = choose|i: int| 0 <= i < init.len() && init[i] == last;
                assert(names[i] != names[names.len() - 1]);
            }
        }
        assert(names.contains(k.0) <==> init.contains(k.0) || k.0 == last) by {
            if names.contains(k.0) {
                let i = choose|i: int| 0 <= i < names.len() && names[i] == k.0;
                if i < init.len() {
                    assert(init[i] == k.0);
                }
            }
            if init.contains(k.0) {
                let i = choose|i: int| 0 <= i < init.len() && init[i] == k.0;
                assert(names[i] == k.0);
            }
        }
        let map = with_events(c, names)->Ok_0;
        if k.0 == last {
            if exists|key: Seq<char>| #[trigger] lists_period(c, k.0, k.1, key) {
                let key = choose|key: Seq<char>| #[trigger] lists_period(c, k.0, k.1, key);
                assert(keys.contains(key));
                let i = choose|i: int| 0 <= i < keys.len() && keys[i] == key;
                assert(period_in_key(keys[i]) == Some(k.1));
            }
            if exists|i: int| 0 <= i < keys.len() && period_in_key(#[trigger] keys[i]) == Some(k.1) {
                let i = choose|i: int|
                    0 <= i < keys.len() && period_in_key(#[trigger] keys[i]) == Some(k.1)
                        && entry_of(c, keys[i]) == Ok::<EntryView, Seq<char>>(map[k]);
                assert(keys.contains(keys[i]));
                assert(lists_period(c, k.0, k.1, keys[i]));
            }
        }
    }
}

/// A scan gives the names of all registered events in order, and an entry for
/// exactly those events and periods for which the catalog has a list: the entry
/// of a key of that event that names that period.
pub proof fn law_scan_finds_every_period(c: CatalogView, event: Seq<char>, period: Period)
    requires
        scanned(c) is Ok,
        c.events.dom().finite(),
        c.period_parts.dom().finite(),
        c.period_deltas.dom().finite(),
    ensures
        ({
            let (names, map) = scanned(c)->Ok_0;
            &&& crate::order::ascending(names)
            &&& names.contains(event) <==> c.events.dom().contains(event)
            &&& map.dom().contains((event, period)) <==> c.events.dom().contains(event) && exists|
                key: Seq<char>,
            |
                (c.period_parts.dom().contains(key) || c.period_deltas.dom().contains(key))
                    && crate::order::has_prefix(key, event + "/"@) && #[trigger] period_in_key(key)
                    == Some(period)
            &&& map.dom().contains((event, period)) ==> exists|key: Seq<char>|
                (c.period_parts.dom().contains(key) || c.period_deltas.dom().contains(key))
                    && crate::order::has_prefix(key, event + "/"@) && #[trigger] period_in_key(key)
                    == Some(period) && entry_of(c, key) == Ok::<EntryView, Seq<char>>(
                    map[(event, period)],
                )
        }),
{
    let rows = events_of(c.events, listing(c.events.dom(), Seq::empty()))->Ok_0;
    let listed = listing(c.events.dom(), Seq::<char>::empty());
    crate::order::law_listing_exists(c.events.dom(), Seq::empty());
    crate::catalog::lemma_events_of(c.events, listed);
    let names = names_of(rows);
    assert(names =~= listed);
    assert(names.no_duplicates()) by {
        assert forall|i: int, j: int|
            0 <= i < names.len() && 0 <= j < names.len() && i != j implies names[i] != names[j] by {
            if i < j {
                assert(crate::order::before(names[i], names[j]));
            } else {
                assert(crate::order::before(names[j], names[i]));
            }
            crate::order::law_order_total(names[i], names[j]);
        }
    }
    let k = (event, period);
    lemma_with_events(c, names, k);
    assert(crate::order::has_prefix(event, Seq::empty())) by {
        assert(event.subrange(0, 0) =~= Seq::empty());
    }
    let (_, map) = scanned(c)->Ok_0;
    if exists|key: Seq<char>|
        (c.period_parts.dom().contains(key) || c.period_deltas.dom().contains(key))
            && crate::order::has_prefix(key, event + "/"@) && #[trigger] period_in_key(key) == Some(
            period,
        ) {
        let key = choose|key: Seq<char>|
            (c.period_parts.dom().contains(key) || c.period_deltas.dom().contains(key))
                && crate::order::has_prefix(key, event + "/"@) && #[trigger] period_in_key(key)
                == Some(period);
        assert(lists_period(c, event, period, key));
    }
    if exists|key: Seq<char>| #[trigger] lists_period(c, event, period, key) {
        let key = choose|key: Seq<char>| #[trigger] lists_period(c, event, period, key);
        assert(period_in_key(key) == Some(period));
    }
    if map.dom().contains(k) {
        let key = choose|key: Seq<char>| #[trigger]
            lists_period(c, k.0, k.1, key) && entry_of(c, key) == Ok::<EntryView, Seq<char>>(
                map[k],
            );
        assert(period_in_key(key) == Some(period));
    }
}

/// The set of an entry holds a value exactly if the file of some data part does,
/// and that of no delta part with a larger identifier.
pub proof fn law_entry_reads_by_age(e: EntryView, files: Map<Seq<char>, Seq<u8>>, v: u32)
    requires
        entry_fits(e),
        forall|i: int, j: int|
            0 <= i < j < e.data.len() ==> (#[trigger] e.data[i]).0 != (#[trigger] e.data[j]).0,
        forall|i: int, j: int|
            0 <= i < j < e.deltas.len() ==> (#[trigger] e.deltas[i]).0 != (
            #[trigger] e.deltas[j]).0,
        forall|i: int, j: int|
            0 <= i < e.data.len() && 0 <= j < e.deltas.len() ==> (#[trigger] e.data[i]).0 != (
            #[trigger] e.deltas[j]).0,
    ensures
        entry_set(e, files).contains(v) <==> exists|i: int|
            #![trigger e.data[i]]
            0 <= i < e.data.len() && deserialized(files[e.data[i].1])->0.contains(v) && forall|
                j: int,
            |
                0 <= j < e.deltas.len() && (#[trigger] e.deltas[j]).0 > e.data[i].0
                    ==> !deserialized(files[e.deltas[j].1])->0.contains(v),
{
    let data_ids = loc_ids(e.data);
    let delta_ids = loc_ids(e.deltas);
    let content = |s: Step| deserialized(files[step_path(e, s)])->0;
    let ids = data_ids + delta_ids;
    assert forall|a: int, b: int| 0 <= a < ids.len() && 0 <= b < ids.len() && a != b implies ids[a]
        != ids[b] by {
        let n = data_ids.len() as int;
        let (lo, hi) = if a < b {
            (a, b)
        } else {
            (b, a)
        };
        if hi < n {
            assert(e.data[lo].0 != e.data[hi].0);
        } else if lo >= n {
            assert(e.deltas[lo - n].0 != e.deltas[hi - n].0);
        } else {
            assert(e.data[lo].0 != e.deltas[hi - n].0);
        }
    }
    crate::merge::law_merge_by_age(data_ids, delta_ids, content, v);
    if entry_set(e, files).contains(v) {
        let i = choose|i: int|
            #![trigger data_ids[i]]
            0 <= i < data_ids.len() && content(
                Step { id: data_ids[i], is_delta: false, index: i as usize },
            ).contains(v) && forall|j: int|
                0 <= j < delta_ids.len() && #[trigger] delta_ids[j] > data_ids[i] ==> !content(
                    Step { id: delta_ids[j], is_delta: true, index: j as usize },
                ).contains(v);
        assert(deserialized(files[e.data[i].1])->0.contains(v));
        assert forall|j: int|
            0 <= j < e.deltas.len() && (#[trigger] e.deltas[j]).0
                > e.data[i].0 implies !deserialized(files[e.deltas[j].1])->0.contains(v) by {
            assert(delta_ids[j] > data_ids[i]);
        }
    }
    if exists|i: int|
        #![trigger e.data[i]]
        0 <= i < e.data.len() && deserialized(files[e.data[i].1])->0.contains(v) && forall|j: int|
            0 <= j < e.deltas.len() && (#[trigger] e.deltas[j]).0 > e.data[i].0 ==> !deserialized(
                files[e.deltas[j].1],
            )->0.contains(v) {
        let i = choose|i: int|
            #![trigger e.data[i]]
            0 <= i < e.data.len() && deserialized(files[e.data[i].1])->0.contains(v) && forall|
                j: int,
            |
                0 <= j < e.deltas.len() && (#[trigger] e.deltas[j]).0 > e.data[i].0
                    ==> !deserialized(files[e.deltas[j].1])->0.contains(v);
        assert(content(Step { id: data_ids[i], is_delta: false, index: i as usize }).contains(v));
        assert forall|j: int| 0 <= j < delta_ids.len() && #[trigger] delta_ids[j]
            > data_ids[i] implies !content(
            Step { id: delta_ids[j], is_delta: true, index: j as usize },
        ).contains(v) by {
            assert(e.deltas[j].0 > e.data[i].0);
        }
    }
}

/// What is cached for an entry whose files have their container keys in order
/// holds exactly the values that some data part has and no newer delta part
/// deletes.
pub proof fn law_cached_set_is_by_age(
    b: RoaringBitmap,
    e: EntryView,
    files: Map<Seq<char>, Seq<u8>>,
    v: u32,
)
    requires
        entry_fits(e),
        cached_right(b, e, files),
        forall|i: int| 0 <= i < e.data.len() ==> keys_ascend(files[(#[trigger] e.data[i]).1]),
        forall|i: int| 0 <= i < e.deltas.len() ==> keys_ascend(files[(#[trigger] e.deltas[i]).1]),
        forall|i: int, j: int|
            0 <= i < j < e.data.len() ==> (#[trigger] e.data[i]).0 != (#[trigger] e.data[j]).0,
        forall|i: int, j: int|
            0 <= i < j < e.deltas.len() ==> (#[trigger] e.deltas[i]).0 != (
            #[trigger] e.deltas[j]).0,
        forall|i: int, j: int|
            0 <= i < e.data.len() && 0 <= j < e.deltas.len() ==> (#[trigger] e.data[i]).0 != (
            #[trigger] e.deltas[j]).0,
    ensures
        members(b).contains(v) <==> exists|i: int|
            #![trigger e.data[i]]
            0 <= i < e.data.len() && deserialized(files[e.data[i].1])->0.contains(v) && forall|
                j: int,
            |
                0 <= j < e.deltas.len() && (#[trigger] e.deltas[j]).0 > e.data[i].0
                    ==> !deserialized(files[e.deltas[j].1])->0.contains(v),
{
    law_entry_reads_by_age(e, files, v);
}

/// An entry is ready exactly if the file of every one of its parts is at hand and
/// is a bitmap.
pub proof fn law_entry_ready(e: EntryView, files: Map<Seq<char>, Seq<u8>>)
    ensures
        entry_ready(e, files) <==> (forall|i: int|
            0 <= i < e.data.len() ==> files.dom().contains((#[trigger] e.data[i]).1)
                && deserialized(files[e.data[i].1]) is Some) && (forall|i: int|
            0 <= i < e.deltas.len() ==> files.dom().contains((#[trigger] e.deltas[i]).1)
                && deserialized(files[e.deltas[i].1]) is Some),
{
}

/// The fault that is reported is that of the oldest faulty part: no part with a
/// smaller identifier is missing or unreadable.
pub proof fn law_oldest_fault_is_reported(e: EntryView, files: Map<Seq<char>, Seq<u8>>)
    requires
        entry_fits(e),
        !entry_ready(e, files),
    ensures
        exists|id: u64, path: Seq<char>|
            #![trigger e.data.contains((id, path))]
            #![trigger e.deltas.contains((id, path))]
            {
                &&& e.data.contains((id, path)) || e.deltas.contains((id, path))
                &&& entry_fault(e, files) == Some(
                    if files.dom().contains(path) {
                        corrupted()
                    } else {
                        missing_file(path)
                    },
                )
                &&& files.dom().contains(path) ==> deserialized(files[path]) is None
                &&& forall|i: int|
                    0 <= i < e.data.len() && (#[trigger] e.data[i]).0 < id ==> files.dom().contains(
                        e.data[i].1,
                    ) && deserialized(files[e.data[i].1]) is Some
                &&& forall|i: int|
                    0 <= i < e.deltas.len() && (#[trigger] e.deltas[i]).0 < id
                        ==> files.dom().contains(e.deltas[i].1) && deserialized(
                        files[e.deltas[i].1],
                    ) is Some
            },
{
    lemma_entry_fault(e, files);
    let order = entry_order(e);
    let data_ids = loc_ids(e.data);
    let delta_ids = loc_ids(e.deltas);
    let k = lemma_fault_position(e, files, order);
    let s = order[k];
    assert(order.contains(s));
    lemma_order_members(data_ids, delta_ids, s);
    crate::merge::law_order_takes_every_part_once(data_ids, delta_ids);
    let path = step_path(e, s);
    if s.is_delta {
        assert(e.deltas[s.index as int] == (s.id, path));
    } else {
        assert(e.data[s.index as int] == (s.id, path));
    }
    assert forall|i: int| 0 <= i < e.data.len() && (#[trigger] e.data[i]).0
        < s.id implies files.dom().contains(e.data[i].1) && deserialized(
        files[e.data[i].1],
    ) is Some by {
        let t = Step { id: data_ids[i], is_delta: false, index: i as usize };
        assert(order.contains(t));
        let m = choose|m: int| 0 <= m < order.len() && order[m] == t;
        if k < m {
            assert(order[k].id <= order[m].id);
        }
        assert(file_fault(step_path(e, order[m]), files) is None);
    }
    assert forall|i: int| 0 <= i < e.deltas.len() && (#[trigger] e.deltas[i]).0
        < s.id implies files.dom().contains(e.deltas[i].1) && deserialized(
        files[e.deltas[i].1],
    ) is Some by {
        let t = Step { id: delta_ids[i], is_delta: true, index: i as usize };
        assert(order.contains(t));
        let m = choose|m: int| 0 <= m < order.len() && order[m] == t;
        if k < m {
            assert(order[k].id <= order[m].id);
        }
        assert(file_fault(step_path(e, order[m]), files) is None);
    }
    assert(e.data.contains((s.id, path)) || e.deltas.contains((s.id, path)));
}

proof fn lemma_fault_position(
    e: EntryView,
    files: Map<Seq<char>, Seq<u8>>,
    steps: Seq<Step>,
) -> (k: int)
    requires
        first_fault(e, files, steps) is Some,
    ensures
        0 <= k < steps.len(),
        file_fault(step_path(e, steps[k]), files) == first_fault(e, files, steps),
        forall|m: int|
            0 <= m < k ==> file_fault(step_path(e, #[trigger] steps[m]), files) is None,
    decreases steps.len(),
{
    let init = steps.drop_last();
    if first_fault(e, files, init) is Some {
        let k = lemma_fault_position(e, files, init);
        assert(steps[k] == init[k]);
        assert forall|m: int| 0 <= m < k implies file_fault(
            step_path(e, #[trigger] steps[m]),
            files,
        ) is None by {
            assert(init[m] == steps[m]);
        }
        k
    } else {
        lemma_first_fault(e, files, init);
        assert forall|m: int| 0 <= m < steps.len() - 1 implies file_fault(
            step_path(e, #[trigger] steps[m]),
            files,
        ) is None by {
            assert(init[m] == steps[m]);
        }
        steps.len() - 1
    }
}

proof fn lemma_after_slash_splits(text: Seq<char>)
    ensures
        after_slash(text) matches Some(rest) ==> exists|front: Seq<char>|
            #![trigger no_slash(front)]
            no_slash(front) && text == front + "/"@ + rest,
    decreases text.len(),
{
    reveal_strlit("/");
    if text.len() > 0 {
        let tail = text.drop_first();
        if text[0] == '/' {
            let none = Seq::<char>::empty();
            assert(no_slash(none));
            assert(text =~= none + "/"@ + tail);
        } else {
            lemma_after_slash_splits(tail);
            if let Some(rest) = after_slash(tail) {
                let front = choose|front: Seq<char>|
                    #![trigger no_slash(front)]
                    no_slash(front) && tail == front + "/"@ + rest;
                let longer = seq![text[0]] + front;
                assert(no_slash(longer)) by {
                    assert forall|i: int| 0 <= i < longer.len() implies #[trigger] longer[i]
                        != '/' by {
                        if i > 0 {
                            assert(longer[i] == front[i - 1]);
                        }
                    }
                }
                assert(text =~= seq![text[0]] + tail);
                assert(seq![text[0]] + (front + "/"@ + rest) =~= longer + "/"@ + rest);
            }
        }
    }
}

/// A catalog key names a period only behind its second slash, as that period is
/// written.
pub proof fn law_indexed_key_ends_in_its_period(key: Seq<char>, period: Period)
    requires
        period_in_key(key) == Some(period),
    ensures
        valid_period(period),
        exists|first: Seq<char>, second: Seq<char>|
            #![trigger no_slash(first), no_slash(second)]
            no_slash(first) && no_slash(second) && key == first + "/"@ + second + "/"@ + key_text(
                period,
            ),
{
    lemma_after_slash_splits(key);
    let rest = after_slash(key)->0;
    lemma_after_slash_splits(rest);
    let last = after_slash(rest)->0;
    crate::period::law_parse_inverts_key(last, period);
    let first = choose|front: Seq<char>|
        #![trigger no_slash(front)]
        no_slash(front) && key == front + "/"@ + rest;
    let second = choose|front: Seq<char>|
        #![trigger no_slash(front)]
        no_slash(front) && rest == front + "/"@ + last;
    assert(no_slash(first) && no_slash(second));
    assert(key =~= first + "/"@ + second + "/"@ + key_text(period));
}

/// Entries and locations are seen place by place.
pub proof fn law_index_views(
    e: PeriodEntry,
    t: Map<EntryKey, PeriodEntry>,
    key: EntryKey,
    rows: Seq<ConfigView>,
    i: int,
)
    ensures
        e@.data.len() == e.data_parts@.len(),
        0 <= i < e.data_parts@.len() ==> e@.data[i] == (
            e.data_parts@[i].part_id,
            e.data_parts@[i].file_path@,
        ),
        e@.deltas.len() == e.delta_parts@.len(),
        0 <= i < e.delta_parts@.len() ==> e@.deltas[i] == (
            e.delta_parts@[i].part_id,
            e.delta_parts@[i].file_path@,
        ),
        entry_views(t).dom().contains(key) <==> t.dom().contains(key),
        t.dom().contains(key) ==> entry_views(t)[key] == t[key]@,
        names_of(rows).len() == rows.len(),
        0 <= i < rows.len() ==> names_of(rows)[i] == rows[i].name,
{
}

/// The steps of an entry name its parts, and each is read from the path of its
/// part.
pub proof fn law_steps_of_entry(e: EntryView, k: int)
    requires
        entry_fits(e),
        0 <= k < entry_order(e).len(),
    ensures
        ({
            let s = entry_order(e)[k];
            &&& s.is_delta ==> s.index < e.deltas.len() && e.deltas[s.index as int] == (
                s.id,
                step_path(e, s),
            )
            &&& !s.is_delta ==> s.index < e.data.len() && e.data[s.index as int] == (
                s.id,
                step_path(e, s),
            )
            &&& is_step_of(e, s)
        }),
        entry_order(e).len() == e.data.len() + e.deltas.len(),
{
    let s = entry_order(e)[k];
    assert(entry_order(e).contains(s));
    lemma_order_members(loc_ids(e.data), loc_ids(e.deltas), s);
    crate::merge::law_order_takes_every_part_once(loc_ids(e.data), loc_ids(e.deltas));
}

/// What is said of a file that is not at hand.
pub proof fn law_missing_file(path: Seq<char>)
    ensures
        missing_file(path) == (ErrorView::BitmapIo { path, source: "part file was not read"@ }),
{
}

/// The entry of a key can be read exactly if both of its lists can, and every part
/// that they name and the catalog holds.
pub proof fn law_entry_can_be_read(c: CatalogView, key: Seq<char>)
    ensures
        entry_of(c, key) is Ok <==> {
            &&& c.period_parts.dom().contains(key) ==> list_in(key, c.period_parts[key]) is Ok
            &&& c.period_deltas.dom().contains(key) ==> list_in(key, c.period_deltas[key]) is Ok
            &&& forall|id: u64| #[trigger]
                c.parts.dom().contains(id) && (crate::catalog::lists_id(c.period_parts, key, id)
                    || crate::catalog::lists_id(c.period_deltas, key, id)) ==> part_in(
                    part_context(id),
                    c.parts[id],
                ) is Ok
        },
{
    let no_path = Seq::<char>::empty();
    if list_of(c.period_parts, key) is Ok && list_of(c.period_deltas, key) is Ok {
        let data = list_of(c.period_parts, key)->Ok_0;
        let deltas = list_of(c.period_deltas, key)->Ok_0;
        law_every_listed_part_is_located(c.parts, data, 0, no_path);
        law_every_listed_part_is_located(c.parts, deltas, 0, no_path);
        if entry_of(c, key) is Ok {
            assert forall|id: u64| #[trigger]
                c.parts.dom().contains(id) && (crate::catalog::lists_id(c.period_parts, key, id)
                    || crate::catalog::lists_id(c.period_deltas, key, id)) implies part_in(
                part_context(id),
                c.parts[id],
            ) is Ok by {
                if crate::catalog::lists_id(c.period_parts, key, id) {
                    let i = choose|i: int| 0 <= i < data.len() && data[i] == id;
                    assert(c.parts.dom().contains(data[i]));
                } else {
                    let i = choose|i: int| 0 <= i < deltas.len() && deltas[i] == id;
                    assert(c.parts.dom().contains(deltas[i]));
                }
            }
        }
        if locations(c.parts, data) is Err {
            let i = choose|i: int|
                0 <= i < data.len() && c.parts.dom().contains(#[trigger] data[i]) && part_in(
                    part_context(data[i]),
                    c.parts[data[i]],
                ) is Err;
            assert(data.contains(data[i]));
            assert(crate::catalog::lists_id(c.period_parts, key, data[i]));
        }
        if locations(c.parts, deltas) is Err {
            let i = choose|i: int|
                0 <= i < deltas.len() && c.parts.dom().contains(#[trigger] deltas[i]) && part_in(
                    part_context(deltas[i]),
                    c.parts[deltas[i]],
                ) is Err;
            assert(deltas.contains(deltas[i]));
            assert(crate::catalog::lists_id(c.period_deltas, key, deltas[i]));
        }
    }
}

proof fn lemma_with_keys_ok(
    c: CatalogView,
    start: PeriodMap,
    event: Seq<char>,
    keys: Seq<Seq<char>>,
)
    ensures
        with_keys(c, start, event, keys) is Ok <==> forall|i: int|
            0 <= i < keys.len() && period_in_key(#[trigger] keys[i]) is Some ==> entry_of(
                c,
                keys[i],
            ) is Ok,
    decreases keys.len(),
{
    if keys.len() > 0 {
        let init = keys.drop_last();
        lemma_with_keys_ok(c, start, event, init);
        assert(keys[keys.len() - 1] == keys.last());
        if with_keys(c, start, event, keys) is Ok {
            assert forall|i: int|
                0 <= i < keys.len() && period_in_key(#[trigger] keys[i]) is Some implies entry_of(
                c,
                keys[i],
            ) is Ok by {
                if i < init.len() {
                    assert(init[i] == keys[i]);
                }
            }
        }
        if forall|i: int|
            0 <= i < keys.len() && period_in_key(#[trigger] keys[i]) is Some ==> entry_of(
                c,
                keys[i],
            ) is Ok {
            assert forall|i: int|
                0 <= i < init.len() && period_in_key(#[trigger] init[i]) is Some implies entry_of(
                c,
                init[i],
            ) is Ok by {
                assert(init[i] == keys[i]);
            }
        }
    }
}

proof fn lemma_with_events_ok(c: CatalogView, names: Seq<Seq<char>>)
    requires
        c.period_parts.dom().finite(),
        c.period_deltas.dom().finite(),
    ensures
        with_events(c, names) is Ok <==> forall|i: int, key: Seq<char>|
            0 <= i < names.len() && (c.period_parts.dom().contains(key)
                || c.period_deltas.dom().contains(key)) && #[trigger] crate::order::has_prefix(
                key,
                names[i] + "/"@,
            ) && period_in_key(key) is Some ==> entry_of(c, key) is Ok,
    decreases names.len(),
{
    if names.len() > 0 {
        let init = names.drop_last();
        let last = names.last();
        lemma_with_events_ok(c, init);
        assert(names[names.len() - 1] == last);
        let keys = period_keys_of(c, last);
        let all = c.period_parts.dom().union(c.period_deltas.dom());
        crate::order::law_listing_exists(all, last + "/"@);
        if with_events(c, init) is Ok {
            lemma_with_keys_ok(c, with_events(c, init)->Ok_0, last, keys);
        }
        if with_events(c, names) is Ok {
            assert forall|i: int, key: Seq<char>|
                0 <= i < names.len() && (c.period_parts.dom().contains(key)
                    || c.period_deltas.dom().contains(key)) && #[trigger] crate::order::has_prefix(
                    key,
                    names[i] + "/"@,
                ) && period_in_key(key) is Some implies entry_of(c, key) is Ok by {
                if i < init.len() {
                    assert(init[i] == names[i]);
                    assert(crate::order::has_prefix(key, init[i] + "/"@));
                } else {
                    assert(keys.contains(key));
                    let k = choose|k: int| 0 <= k < keys.len() && keys[k] == key;
                    assert(period_in_key(keys[k]) is Some);
                }
            }
        }
        if forall|i: int, key: Seq<char>|
            0 <= i < names.len() && (c.period_parts.dom().contains(key)
                || c.period_deltas.dom().contains(key)) && #[trigger] crate::order::has_prefix(
                key,
                names[i] + "/"@,
            ) && period_in_key(key) is Some ==> entry_of(c, key) is Ok {
            assert forall|i: int, key: Seq<char>|
                0 <= i < init.len() && (c.period_parts.dom().contains(key)
                    || c.period_deltas.dom().contains(key)) && #[trigger] crate::order::has_prefix(
                    key,
                    init[i] + "/"@,
                ) && period_in_key(key) is Some implies entry_of(c, key) is Ok by {
                assert(crate::order::has_prefix(key, names[i] + "/"@));
            }
            assert forall|k: int|
                0 <= k < keys.len() && period_in_key(#[trigger] keys[k]) is Some implies entry_of(
                c,
                keys[k],
            ) is Ok by {
                assert(keys.contains(keys[k]));
                assert(crate::order::has_prefix(keys[k], names[names.len() - 1] + "/"@));
            }
        }
    }
}

/// A scan succeeds exactly if the rows of all events can be decoded, and the entry
/// of every key of a registered event that names a period can be read.
pub proof fn law_scan_succeeds(c: CatalogView)
    requires
        c.events.dom().finite(),
        c.period_parts.dom().finite(),
        c.period_deltas.dom().finite(),
    ensures
        scanned(c) is Ok <==> {
            &&& forall|name: Seq<char>| #[trigger]
                c.events.dom().contains(name) ==> crate::codec::event_in(
                    name,
                    c.events[name],
                ) is Ok
            &&& forall|name: Seq<char>, key: Seq<char>|
                #![trigger crate::order::has_prefix(key, name + "/"@)]
                c.events.dom().contains(name) && (c.period_parts.dom().contains(key)
                    || c.period_deltas.dom().contains(key)) && crate::order::has_prefix(
                    key,
                    name + "/"@,
                ) && period_in_key(key) is Some ==> entry_of(c, key) is Ok
        },
{
    let listed = listing(c.events.dom(), Seq::<char>::empty());
    crate::order::law_listing_exists(c.events.dom(), Seq::empty());
    crate::catalog::law_listing_events_fails(c.events, listed);
    assert forall|name: Seq<char>| #[trigger]
        listed.contains(name) <==> c.events.dom().contains(name) by {
        assert(name.subrange(0, 0) =~= Seq::empty());
        assert(crate::order::has_prefix(name, Seq::empty()));
    }
    if events_of(c.events, listed) is Err {
        let i = choose|i: int|
            0 <= i < listed.len() && crate::codec::event_in(
                #[trigger] listed[i],
                c.events[listed[i]],
            ) is Err;
        assert(listed.contains(listed[i]));
        assert(c.events.dom().contains(listed[i]));
    } else {
        assert forall|name: Seq<char>| #[trigger]
            c.events.dom().contains(name) implies crate::codec::event_in(
            name,
            c.events[name],
        ) is Ok by {
            assert(listed.contains(name));
            let i = choose|i: int| 0 <= i < listed.len() && listed[i] == name;
            assert(crate::codec::event_in(listed[i], c.events[listed[i]]) is Ok);
        }
        crate::catalog::lemma_events_of(c.events, listed);
        let names = names_of(events_of(c.events, listed)->Ok_0);
        assert(names =~= listed);
        lemma_with_events_ok(c, names);
        if with_events(c, names) is Ok {
            assert forall|name: Seq<char>, key: Seq<char>|
                #![trigger crate::order::has_prefix(key, name + "/"@)]
                c.events.dom().contains(name) && (c.period_parts.dom().contains(key)
                    || c.period_deltas.dom().contains(key)) && crate::order::has_prefix(
                    key,
                    name + "/"@,
                ) && period_in_key(key) is Some implies entry_of(c, key) is Ok by {
                assert(listed.contains(name));
                let i = choose|i: int| 0 <= i < listed.len() && listed[i] == name;
                assert(crate::order::has_prefix(key, names[i] + "/"@));
            }
        }
        if forall|name: Seq<char>, key: Seq<char>|
            #![trigger crate::order::has_prefix(key, name + "/"@)]
            c.events.dom().contains(name) && (c.period_parts.dom().contains(key)
                || c.period_deltas.dom().contains(key)) && crate::order::has_prefix(
                key,
                name + "/"@,
            ) && period_in_key(key) is Some ==> entry_of(c, key) is Ok {
            assert forall|i: int, key: Seq<char>|
                0 <= i < names.len() && (c.period_parts.dom().contains(key)
                    || c.period_deltas.dom().contains(key)) && #[trigger] crate::order::has_prefix(
                    key,
                    names[i] + "/"@,
                ) && period_in_key(key) is Some implies entry_of(c, key) is Ok by {
                assert(listed.contains(names[i]));
                assert(c.events.dom().contains(names[i]));
            }
        }
    }
}

} // verus!
