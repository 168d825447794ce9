//! The settings of a store and what opening it decides.

use vstd::prelude::*;
use vstd::string::*;
use std::collections::HashSet;

use crate::error::{ErrorView, InoxSetError};
use crate::part_store::{join, orphan_paths, path_join, scan_orphans, FoundFile};
use crate::types::{Granularity, IndexFreshness, Rollup};

verus! {

/// Size of the write buffer at which it is flushed: 16 MiB.
pub const DEFAULT_FLUSH_THRESHOLD: u64 = 16777216;

/// Size of the catalog's memory map where files can be sparse: 256 MiB.
pub const MAP_SIZE_SPARSE: usize = 268435456;

/// Size of the catalog's memory map where files take all their space at once:
/// 64 MiB.
pub const MAP_SIZE_DENSE: usize = 67108864;

/// Returns the default size of the catalog's memory map. On macOS files are not
/// sparse, so it is smaller there.
pub fn default_map_size(macos: bool) -> (r: usize)
    ensures
        r == if macos {
            MAP_SIZE_DENSE
        } else {
            MAP_SIZE_SPARSE
        },
{
    if macos {
        MAP_SIZE_DENSE
    } else {
        MAP_SIZE_SPARSE
    }
}

/// The settings of a store.
pub struct InoxSetBuilder {
    path: Option<String>,
    default_granularity: Granularity,
    default_rollup: Rollup,
    flush_threshold: u64,
    max_events: usize,
    read_only: bool,
    index_freshness: IndexFreshness,
    map_size: Option<usize>,
}

/// The contents of an [`InoxSetBuilder`].
pub struct Settings {
    pub path: Option<Seq<char>>,
    pub default_granularity: Granularity,
    pub default_rollup: Rollup,
    pub flush_threshold: u64,
    pub max_events: usize,
    pub read_only: bool,
    pub index_freshness: IndexFreshness,
    pub map_size: Option<usize>,
}

impl Settings {
    /// The settings with another `path`.
    pub open spec fn with_path(self, p: Seq<char>) -> Settings {
        Settings { path: Some(p), ..self }
    }

    /// The settings with another `default_granularity`.
    pub open spec fn with_granularity(self, g: Granularity) -> Settings {
        Settings { default_granularity: g, ..self }
    }

    /// The settings with another `default_rollup`.
    pub open spec fn with_rollup(self, r: Rollup) -> Settings {
        Settings { default_rollup: r, ..self }
    }

    /// The settings with another `flush_threshold`.
    pub open spec fn with_flush_threshold(self, bytes: u64) -> Settings {
        Settings { flush_threshold: bytes, ..self }
    }

    /// The settings with another `max_events`.
    pub open spec fn with_max_events(self, max: usize) -> Settings {
        Settings { max_events: max, ..self }
    }

    /// The settings with another `read_only`.
    pub open spec fn with_read_only(self, ro: bool) -> Settings {
        Settings { read_only: ro, ..self }
    }

    /// The settings with another `map_size`.
    pub open spec fn with_map_size(self, bytes: usize) -> Settings {
        Settings { map_size: Some(bytes), ..self }
    }

    /// The settings with another `index_freshness`.
    pub open spec fn with_index_freshness(self, freshness: IndexFreshness) -> Settings {
        Settings { index_freshness: freshness, ..self }
    }
}

/// The settings that a builder starts with.
pub open spec fn default_settings() -> Settings {
    Settings {
        path: None,
        default_granularity: Granularity::Day,
        default_rollup: Rollup::Off,
        flush_threshold: DEFAULT_FLUSH_THRESHOLD,
        max_events: 0,
        read_only: false,
        index_freshness: IndexFreshness::Disabled,
        map_size: None,
    }
}

impl View for InoxSetBuilder {
    type V = Settings;

    closed spec fn view(&self) -> Settings {
        Settings {
            path: match self.path {
                Some(p) => Some(p@),
                None => None,
            },
            default_granularity: self.default_granularity,
            default_rollup: self.default_rollup,
            flush_threshold: self.flush_threshold,
            max_events: self.max_events,
            read_only: self.read_only,
            index_freshness: self.index_freshness,
            map_size: self.map_size,
        }
    }
}

/// Whether a store keeps an inverted index.
#[derive(Debug, Clone, Copy, PartialEq, Eq, Structural)]
pub enum IndexPlan {
    /// No inverted index.
    Without,
    /// A frozen index, built when the store is opened and rebuilt later.
    Frozen,
}

/// One step of opening a store.
#[derive(Debug, Clone, Copy, PartialEq, Eq, Structural)]
pub enum OpenStep {
    /// Nothing is done yet.
    Start,
    /// The directory of the part files is created.
    CreateParts,
    /// The catalog is opened.
    OpenCatalog,
    /// Part files that the catalog does not know are deleted.
    RemoveOrphans,
    /// The read index is built from the catalog and the part files.
    LoadReadIndex,
    /// The inverted index is built from the read index.
    BuildInverted,
    /// The store is open.
    Finished,
}

/// What opening a store works with.
pub struct OpenPlan {
    /// The directory of the store.
    pub path: String,
    /// The directory of the part files.
    pub parts_root: String,
    /// The directory of the catalog.
    pub catalog_path: String,
    /// Size of the catalog's memory map.
    pub map_size: usize,
    /// Granularity of events that do not specify their own.
    pub default_granularity: Granularity,
    /// Rollup of events that do not specify their own.
    pub default_rollup: Rollup,
    /// Size of the write buffer at which it is flushed.
    pub flush_threshold: u64,
    /// Largest number of events; 0 is unlimited.
    pub max_events: usize,
    /// Whether mutating operations are refused.
    pub read_only: bool,
    /// When the inverted index is rebuilt.
    pub index_freshness: IndexFreshness,
}

impl InoxSetBuilder {
    /// Creates a builder with the default settings.
    pub fn new() -> (r: InoxSetBuilder)
        ensures
            r@ == default_settings(),
    {
        InoxSetBuilder {
            path: None,
            default_granularity: Granularity::Day,
            default_rollup: Rollup::Off,
            flush_threshold: DEFAULT_FLUSH_THRESHOLD,
            max_events: 0,
            read_only: false,
            index_freshness: IndexFreshness::Disabled,
            map_size: None,
        }
    }

    /// Sets the directory of the store.
    pub fn path(self, p: String) -> (r: InoxSetBuilder)
        ensures
            r@ == (Settings { path: Some(p@), ..self@ }),
            r@ == self@.with_path(p@),
    {
        InoxSetBuilder { path: Some(p), ..self }
    }

    /// Sets the granularity of events that do not specify their own.
    pub fn default_granularity(self, g: Granularity) -> (r: InoxSetBuilder)
        ensures
            r@ == (Settings { default_granularity: g, ..self@ }),
            r@ == self@.with_granularity(g),
    {
        InoxSetBuilder { default_granularity: g, ..self }
    }

    /// Sets the rollup of events that do not specify their own.
    pub fn default_rollup(self, r: Rollup) -> (b: InoxSetBuilder)
        ensures
            b@ == (Settings { default_rollup: r, ..self@ }),
            b@ == self@.with_rollup(r),
    {
        InoxSetBuilder { default_rollup: r, ..self }
    }

    /// Sets the size of the write buffer at which it is flushed.
    pub fn mempart_flush_threshold(self, bytes: u64) -> (r: InoxSetBuilder)
        ensures
            r@ == (Settings { flush_threshold: bytes, ..self@ }),
            r@ == self@.with_flush_threshold(bytes),
    {
        InoxSetBuilder { flush_threshold: bytes, ..self }
    }

    /// Sets the largest number of events; 0 is unlimited.
    pub fn max_events(self, max: usize) -> (r: InoxSetBuilder)
        ensures
            r@ == (Settings { max_events: max, ..self@ }),
            r@ == self@.with_max_events(max),
    {
        InoxSetBuilder { max_events: max, ..self }
    }

    /// Sets whether the store is read-only.
    pub fn read_only(self, ro: bool) -> (r: InoxSetBuilder)
        ensures
            r@ == (Settings { read_only: ro, ..self@ }),
            r@ == self@.with_read_only(ro),
    {
        InoxSetBuilder { read_only: ro, ..self }
    }

    /// Sets the size of the catalog's memory map.
    pub fn map_size(self, bytes: usize) -> (r: InoxSetBuilder)
        ensures
            r@ == (Settings { map_size: Some(bytes), ..self@ }),
            r@ == self@.with_map_size(bytes),
    {
        InoxSetBuilder { map_size: Some(bytes), ..self }
    }

    /// Sets when the inverted index is rebuilt.
    pub fn index_freshness(self, freshness: IndexFreshness) -> (r: InoxSetBuilder)
        ensures
            r@ == (Settings { index_freshness: freshness, ..self@ }),
            r@ == self@.with_index_freshness(freshness),
    {
        InoxSetBuilder { index_freshness: freshness, ..self }
    }

    /// Returns what opening the store works with; a path is required.
    pub fn prepare(self, macos: bool) -> (r: Result<OpenPlan, InoxSetError>)
        ensures
            match (r, self@.path) {
                (Ok(plan), Some(path)) => {
                    &&& plan.path@ == path
                    &&& plan.parts_root@ == path_join(path, "parts"@)
                    &&& plan.catalog_path@ == path_join(path, "catalog.mdb"@)
                    &&& plan.map_size == match self@.map_size {
                        Some(bytes) => bytes,
                        None => if macos {
                            MAP_SIZE_DENSE
                        } else {
                            MAP_SIZE_SPARSE
                        },
                    }
                    &&& plan.default_granularity == self@.default_granularity
                    &&& plan.default_rollup == self@.default_rollup
                    &&& plan.flush_threshold == self@.flush_threshold
                    &&& plan.max_events == self@.max_events
                    &&& plan.read_only == self@.read_only
                    &&& plan.index_freshness == self@.index_freshness
                },
                (Err(e), None) => e@ == ErrorView::Configuration("path is required"@),
                _ => false,
            },
            r matches Ok(plan) ==> plans(plan, self@, macos),
    {
        let path = match self.path {
            Some(path) => path,
            None => {
                return Err(InoxSetError::Configuration("path is required".to_owned()));
            },
        };
        let map_size: usize = match self.map_size {
            Some(bytes) => bytes,
            None => default_map_size(macos),
        };
        Ok(
            OpenPlan {
                parts_root: join(path.as_str(), "parts"),
                catalog_path: join(path.as_str(), "catalog.mdb"),
                path,
                map_size,
                default_granularity: self.default_granularity,
                default_rollup: self.default_rollup,
                flush_threshold: self.flush_threshold,
                max_events: self.max_events,
                read_only: self.read_only,
                index_freshness: self.index_freshness,
            },
        )
    }
}

impl Default for InoxSetBuilder {
    fn default() -> (r: InoxSetBuilder)
        ensures
            r@ == default_settings(),
    {
        InoxSetBuilder::new()
    }
}

/// Whether a plan is that of some settings.
pub open spec fn plans(plan: OpenPlan, s: Settings, macos: bool) -> bool {
    &&& s.path == Some(plan.path@)
    &&& plan.parts_root@ == path_join(plan.path@, "parts"@)
    &&& plan.catalog_path@ == path_join(plan.path@, "catalog.mdb"@)
    &&& plan.map_size == match s.map_size {
        Some(bytes) => bytes,
        None => if macos {
            MAP_SIZE_DENSE
        } else {
            MAP_SIZE_SPARSE
        },
    }
    &&& plan.default_granularity == s.default_granularity
    &&& plan.default_rollup == s.default_rollup
    &&& plan.flush_threshold == s.flush_threshold
    &&& plan.max_events == s.max_events
    &&& plan.read_only == s.read_only
    &&& plan.index_freshness == s.index_freshness
}

/// The error for an inverted index that is always up to date.
pub open spec fn immediate_error() -> ErrorView {
    ErrorView::Configuration(
        "IndexFreshness::Immediate is not implemented yet; use OnFlush, OnCompact, or Disabled"@,
    )
}

/// The step that follows a step; `None` where opening fails.
pub open spec fn following(read_only: bool, freshness: IndexFreshness, done: OpenStep) -> Option<
    OpenStep,
> {
    match done {
        OpenStep::Start => Some(OpenStep::CreateParts),
        OpenStep::CreateParts => Some(OpenStep::OpenCatalog),
        OpenStep::OpenCatalog => Some(
            if read_only {
                OpenStep::LoadReadIndex
            } else {
                OpenStep::RemoveOrphans
            },
        ),
        OpenStep::RemoveOrphans => Some(OpenStep::LoadReadIndex),
        OpenStep::LoadReadIndex => match freshness {
            IndexFreshness::Disabled => Some(OpenStep::Finished),
            IndexFreshness::OnFlush => Some(OpenStep::BuildInverted),
            IndexFreshness::OnCompact => Some(OpenStep::BuildInverted),
            IndexFreshness::Immediate => None,
        },
        OpenStep::BuildInverted => Some(OpenStep::Finished),
        OpenStep::Finished => Some(OpenStep::Finished),
    }
}

/// The steps of opening, from the start on, as far as `n` steps.
pub open spec fn steps_taken(read_only: bool, freshness: IndexFreshness, n: nat) -> Option<OpenStep>
    decreases n,
{
    if n == 0 {
        Some(OpenStep::Start)
    } else {
        match steps_taken(read_only, freshness, (n - 1) as nat) {
            Some(s) => following(read_only, freshness, s),
            None => None,
        }
    }
}

/// Opening ends after at most six steps, with an open store unless an index is
/// asked for that is always up to date. A read-only store never removes
/// orphans, and an inverted index is built exactly where one is kept.
pub proof fn law_opening_ends(read_only: bool, freshness: IndexFreshness, n: nat)
    ensures
        freshness == IndexFreshness::Immediate ==> steps_taken(read_only, freshness, 6) is None,
        freshness != IndexFreshness::Immediate ==> steps_taken(read_only, freshness, 6) == Some(
            OpenStep::Finished,
        ),
        read_only ==> steps_taken(read_only, freshness, n) != Some(OpenStep::RemoveOrphans),
        steps_taken(read_only, freshness, n) == Some(OpenStep::BuildInverted) ==> freshness
            == IndexFreshness::OnFlush || freshness == IndexFreshness::OnCompact,
    decreases n,
{
    reveal_with_fuel(steps_taken, 7);
    if n > 0 {
        law_opening_ends(read_only, freshness, (n - 1) as nat);
    }
}

impl OpenPlan {
    /// Returns the part files to delete on opening: those that the catalog does
    /// not know. A read-only store deletes nothing.
    pub fn orphans_to_delete(&self, files: &Vec<FoundFile>, known_ids: &HashSet<u64>) -> (r: Vec<
        String,
    >)
        ensures
            r@.map_values(|p: String| p@) == if self.read_only {
                Seq::empty()
            } else {
                orphan_paths(files@, known_ids@)
            },
    {
        if self.read_only {
            let none: Vec<String> = Vec::new();
            assert(none@.map_values(|p: String| p@) =~= Seq::empty());
            return none;
        }
        scan_orphans(files, known_ids)
    }

    /// Returns the step that follows a step that succeeded. A read-only store
    /// skips the removal of orphans; the inverted index is decided on last.
    pub fn next_step(&self, done: OpenStep) -> (r: Result<OpenStep, InoxSetError>)
        ensures
            match (r, following(self.read_only, self.index_freshness, done)) {
                (Ok(step), Some(s)) => step == s,
                (Err(e), None) => e@ == immediate_error(),
                _ => false,
            },
    {
        match done {
            OpenStep::Start => Ok(OpenStep::CreateParts),
            OpenStep::CreateParts => Ok(OpenStep::OpenCatalog),
            OpenStep::OpenCatalog => {
                if self.read_only {
                    Ok(OpenStep::LoadReadIndex)
                } else {
                    Ok(OpenStep::RemoveOrphans)
                }
            },
            OpenStep::RemoveOrphans => Ok(OpenStep::LoadReadIndex),
            OpenStep::LoadReadIndex => match self.index_plan() {
                Ok(IndexPlan::Without) => Ok(OpenStep::Finished),
                Ok(IndexPlan::Frozen) => Ok(OpenStep::BuildInverted),
                Err(e) => Err(e),
            },
            OpenStep::BuildInverted => Ok(OpenStep::Finished),
            OpenStep::Finished => Ok(OpenStep::Finished),
        }
    }

    /// Returns whether the store keeps an inverted index. An index that is
    /// always up to date is refused.
    pub fn index_plan(&self) -> (r: Result<IndexPlan, InoxSetError>)
        ensures
            match self.index_freshness {
                IndexFreshness::Disabled => r == Ok::<IndexPlan, InoxSetError>(IndexPlan::Without),
                IndexFreshness::OnFlush => r == Ok::<IndexPlan, InoxSetError>(IndexPlan::Frozen),
                IndexFreshness::OnCompact => r == Ok::<IndexPlan, InoxSetError>(IndexPlan::Frozen),
                IndexFreshness::Immediate => r matches Err(e) && e@ == immediate_error(),
            },
    {
        match self.index_freshness {
            IndexFreshness::Disabled => Ok(IndexPlan::Without),
            IndexFreshness::OnFlush | IndexFreshness::OnCompact => Ok(IndexPlan::Frozen),
            IndexFreshness::Immediate => Err(
                InoxSetError::Configuration(
                    "IndexFreshness::Immediate is not implemented yet; use OnFlush, OnCompact, or Disabled".to_owned(),
                ),
            ),
        }
    }
}

/// Each setting is kept as it was given and changes no other.
pub proof fn law_settings_are_kept(
    s: Settings,
    p: Seq<char>,
    g: Granularity,
    r: Rollup,
    bytes: u64,
    max: usize,
    ro: bool,
    size: usize,
    freshness: IndexFreshness,
)
    ensures
        s.with_path(p).path == Some(p),
        s.with_path(p).default_granularity == s.default_granularity,
        s.with_path(p).default_rollup == s.default_rollup,
        s.with_path(p).flush_threshold == s.flush_threshold,
        s.with_path(p).max_events == s.max_events,
        s.with_path(p).read_only == s.read_only,
        s.with_path(p).index_freshness == s.index_freshness,
        s.with_path(p).map_size == s.map_size,
        s.with_granularity(g).default_granularity == g,
        s.with_granularity(g).path == s.path,
        s.with_granularity(g).default_rollup == s.default_rollup,
        s.with_granularity(g).flush_threshold == s.flush_threshold,
        s.with_granularity(g).max_events == s.max_events,
        s.with_granularity(g).read_only == s.read_only,
        s.with_granularity(g).index_freshness == s.index_freshness,
        s.with_granularity(g).map_size == s.map_size,
        s.with_rollup(r).default_rollup == r,
        s.with_rollup(r).path == s.path,
        s.with_rollup(r).default_granularity == s.default_granularity,
        s.with_rollup(r).flush_threshold == s.flush_threshold,
        s.with_rollup(r).max_events == s.max_events,
        s.with_rollup(r).read_only == s.read_only,
        s.with_rollup(r).index_freshness == s.index_freshness,
        s.with_rollup(r).map_size == s.map_size,
        s.with_flush_threshold(bytes).flush_threshold == bytes,
        s.with_flush_threshold(bytes).path == s.path,
        s.with_flush_threshold(bytes).default_granularity == s.default_granularity,
        s.with_flush_threshold(bytes).default_rollup == s.default_rollup,
        s.with_flush_threshold(bytes).max_events == s.max_events,
        s.with_flush_threshold(bytes).read_only == s.read_only,
        s.with_flush_threshold(bytes).index_freshness == s.index_freshness,
        s.with_flush_threshold(bytes).map_size == s.map_size,
        s.with_max_events(max).max_events == max,
        s.with_max_events(max).path == s.path,
        s.with_max_events(max).default_granularity == s.default_granularity,
        s.with_max_events(max).default_rollup == s.default_rollup,
        s.with_max_events(max).flush_threshold == s.flush_threshold,
        s.with_max_events(max).read_only == s.read_only,
        s.with_max_events(max).index_freshness == s.index_freshness,
        s.with_max_events(max).map_size == s.map_size,
        s.with_read_only(ro).read_only == ro,
        s.with_read_only(ro).path == s.path,
        s.with_read_only(ro).default_granularity == s.default_granularity,
        s.with_read_only(ro).default_rollup == s.default_rollup,
        s.with_read_only(ro).flush_threshold == s.flush_threshold,
        s.with_read_only(ro).max_events == s.max_events,
        s.with_read_only(ro).index_freshness == s.index_freshness,
        s.with_read_only(ro).map_size == s.map_size,
        s.with_map_size(size).map_size == Some(size),
        s.with_map_size(size).path == s.path,
        s.with_map_size(size).default_granularity == s.default_granularity,
        s.with_map_size(size).default_rollup == s.default_rollup,
        s.with_map_size(size).flush_threshold == s.flush_threshold,
        s.with_map_size(size).max_events == s.max_events,
        s.with_map_size(size).read_only == s.read_only,
        s.with_map_size(size).index_freshness == s.index_freshness,
        s.with_index_freshness(freshness).index_freshness == freshness,
        s.with_index_freshness(freshness).path == s.path,
        s.with_index_freshness(freshness).default_granularity == s.default_granularity,
        s.with_index_freshness(freshness).default_rollup == s.default_rollup,
        s.with_index_freshness(freshness).flush_threshold == s.flush_threshold,
        s.with_index_freshness(freshness).max_events == s.max_events,
        s.with_index_freshness(freshness).read_only == s.read_only,
        s.with_index_freshness(freshness).map_size == s.map_size,
{
}

/// A plan has the settings of its builder, with the parts and the catalog below
/// the path of the store.
pub proof fn law_plan_has_the_settings(plan: OpenPlan, s: Settings, macos: bool)
    requires
        plans(plan, s, macos),
    ensures
        s.path == Some(plan.path@),
        plan.path@.len() > 0 && plan.path@.last() != '/' ==> plan.parts_root@ == plan.path@
            + "/parts"@ && plan.catalog_path@ == plan.path@ + "/catalog.mdb"@,
        s.map_size matches Some(bytes) ==> plan.map_size == bytes,
        s.map_size is None && macos ==> plan.map_size == 64 * 1024 * 1024,
        s.map_size is None && !macos ==> plan.map_size == 256 * 1024 * 1024,
        plan.default_granularity == s.default_granularity,
        plan.default_rollup == s.default_rollup,
        plan.flush_threshold == s.flush_threshold,
        plan.max_events == s.max_events,
        plan.read_only == s.read_only,
        plan.index_freshness == s.index_freshness,
{
    reveal_strlit("/");
    reveal_strlit("parts");
    reveal_strlit("/parts");
    reveal_strlit("catalog.mdb");
    reveal_strlit("/catalog.mdb");
    if plan.path@.len() > 0 && plan.path@.last() != '/' {
        assert(plan.parts_root@ =~= plan.path@ + "/parts"@);
        assert(plan.catalog_path@ =~= plan.path@ + "/catalog.mdb"@);
    }
}

/// What a builder starts with.
pub proof fn law_default_settings()
    ensures
        default_settings().path is None,
        default_settings().default_granularity == Granularity::Day,
        default_settings().default_rollup == Rollup::Off,
        default_settings().flush_threshold == 16 * 1024 * 1024,
        default_settings().max_events == 0,
        !default_settings().read_only,
        default_settings().index_freshness == IndexFreshness::Disabled,
        default_settings().map_size is None,
{
}

/// Opening a store creates the directory of the parts, opens the catalog, removes
/// orphans unless it is read-only, loads the read index and builds an inverted
/// index where one is kept, in this order and nothing else.
pub proof fn law_order_of_opening(read_only: bool, freshness: IndexFreshness, done: OpenStep)
    ensures
        ({
            let next = following(read_only, freshness, done);
            &&& next is None <==> done == OpenStep::LoadReadIndex && freshness
                == IndexFreshness::Immediate
            &&& next == Some(OpenStep::CreateParts) <==> done == OpenStep::Start
            &&& next == Some(OpenStep::OpenCatalog) <==> done == OpenStep::CreateParts
            &&& next == Some(OpenStep::RemoveOrphans) <==> done == OpenStep::OpenCatalog
                && !read_only
            &&& next == Some(OpenStep::LoadReadIndex) <==> (done == OpenStep::OpenCatalog
                && read_only) || done == OpenStep::RemoveOrphans
            &&& next == Some(OpenStep::BuildInverted) <==> done == OpenStep::LoadReadIndex && (
            freshness == IndexFreshness::OnFlush || freshness == IndexFreshness::OnCompact)
            &&& next == Some(OpenStep::Finished) <==> (done == OpenStep::LoadReadIndex && freshness
                == IndexFreshness::Disabled) || done == OpenStep::BuildInverted || done
                == OpenStep::Finished
        }),
{
}

/// What is said of an inverted index that would always be up to date.
pub proof fn law_immediate_error()
    ensures
        immediate_error() == ErrorView::Configuration(
            "IndexFreshness::Immediate is not implemented yet; use OnFlush, OnCompact, or Disabled"@,
        ),
{
}

} // verus!
