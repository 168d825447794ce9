//! The data model: granularities, periods, rollup strategies, part metadata
//! and operational snapshots.

use vstd::prelude::*;
use core::cmp::Ordering;

verus! {

/// Time granularity of a set.
///
/// The order is that of declaration: `Static < Hour < Day < Month < Year`.
#[derive(Debug, Clone, Copy, PartialEq, Eq, Ord, Hash, Structural)]
pub enum Granularity {
    /// Static set without a time dimension.
    Static,
    /// Hourly bucket.
    Hour,
    /// Daily bucket.
    Day,
    /// Monthly bucket.
    Month,
    /// Yearly bucket.
    Year,
}

impl Granularity {
    /// The stable byte of a granularity.
    pub open spec fn code(self) -> u8 {
        match self {
            Granularity::Static => 0,
            Granularity::Hour => 1,
            Granularity::Day => 2,
            Granularity::Month => 3,
            Granularity::Year => 4,
        }
    }

    /// The path segment of a granularity.
    pub open spec fn dir_text(self) -> Seq<char> {
        match self {
            Granularity::Static => "none"@,
            Granularity::Hour => "hour"@,
            Granularity::Day => "day"@,
            Granularity::Month => "month"@,
            Granularity::Year => "year"@,
        }
    }

    /// Returns the byte that stands for this granularity on disk.
    pub fn as_u8(self) -> (r: u8)
        ensures
            r == self.code(),
    {
        match self {
            Granularity::Static => 0,
            Granularity::Hour => 1,
            Granularity::Day => 2,
            Granularity::Month => 3,
            Granularity::Year => 4,
        }
    }

    /// Returns the granularity that a byte of [`as_u8`](Self::as_u8) stands
    /// for, or `None` for any other byte.
    pub fn from_u8(v: u8) -> (r: Option<Granularity>)
        ensures
            r is None <==> v > 4,
            r matches Some(g) ==> g.code() == v,
            forall|g: Granularity| r == Some(g) <==> #[trigger] g.code() == v,
    {
        match v {
            0 => Some(Granularity::Static),
            1 => Some(Granularity::Hour),
            2 => Some(Granularity::Day),
            3 => Some(Granularity::Month),
            4 => Some(Granularity::Year),
            _ => None,
        }
    }

    /// Returns the directory name used in the disk layout.
    pub fn dir_name(self) -> (r: &'static str)
        ensures
            r@ == self.dir_text(),
    {
        match self {
            Granularity::Static => "none",
            Granularity::Hour => "hour",
            Granularity::Day => "day",
            Granularity::Month => "month",
            Granularity::Year => "year",
        }
    }
}

/// Different granularities have different bytes, so `from_u8` undoes `as_u8`.
pub proof fn law_granularity_code_injective(a: Granularity, b: Granularity)
    ensures
        a.code() <= 4,
        a.code() == b.code() ==> a == b,
{
}

impl PartialOrd for Granularity {
    fn partial_cmp(&self, other: &Granularity) -> (r: Option<Ordering>) {
        let a: u8 = self.as_u8();
        let b: u8 = other.as_u8();
        if a < b {
            Some(Ordering::Less)
        } else if a == b {
            Some(Ordering::Equal)
        } else {
            Some(Ordering::Greater)
        }
    }
}

impl vstd::std_specs::cmp::PartialOrdSpecImpl for Granularity {
    open spec fn obeys_partial_cmp_spec() -> bool {
        true
    }

    open spec fn partial_cmp_spec(&self, other: &Granularity) -> Option<Ordering> {
        if self.code() < other.code() {
            Some(Ordering::Less)
        } else if self.code() == other.code() {
            Some(Ordering::Equal)
        } else {
            Some(Ordering::Greater)
        }
    }
}

/// The order of granularities is the order of their bytes, and the bytes tell
/// them apart.
pub proof fn law_granularity_order(a: Granularity, b: Granularity)
    ensures
        vstd::std_specs::cmp::PartialOrdSpec::partial_cmp_spec(&a, &b) == Some(Ordering::Less)
            <==> a.code() < b.code(),
        vstd::std_specs::cmp::PartialOrdSpec::partial_cmp_spec(&a, &b) == Some(Ordering::Equal)
            <==> a == b,
{
}

/// A time period, the bucket in which members are stored.
#[derive(Debug, Clone, Copy, PartialEq, Eq, Ord, Hash, Structural)]
pub enum Period {
    /// Time-independent set.
    Static,
    /// `(year, month, day, hour)`.
    Hour(u16, u8, u8, u8),
    /// `(year, month, day)`.
    Day(u16, u8, u8),
    /// `(year, month)`.
    Month(u16, u8),
    /// `(year)`.
    Year(u16),
}

impl Period {
    /// The place of a period's kind in the order of declaration.
    pub open spec fn rank(self) -> int {
        match self {
            Period::Static => 0,
            Period::Hour(..) => 1,
            Period::Day(..) => 2,
            Period::Month(..) => 3,
            Period::Year(_) => 4,
        }
    }

    /// Whether a period comes before another: by kind, then by year, month, day
    /// and hour.
    pub open spec fn earlier(self, other: Period) -> bool {
        match (self, other) {
            (Period::Hour(y, m, d, h), Period::Hour(y2, m2, d2, h2)) => y < y2 || y == y2 && (m < m2
                || m == m2 && (d < d2 || d == d2 && h < h2)),
            (Period::Day(y, m, d), Period::Day(y2, m2, d2)) => y < y2 || y == y2 && (m < m2 || m
                == m2 && d < d2),
            (Period::Month(y, m), Period::Month(y2, m2)) => y < y2 || y == y2 && m < m2,
            (Period::Year(y), Period::Year(y2)) => y < y2,
            _ => self.rank() < other.rank(),
        }
    }

    fn place(&self) -> (r: u8)
        ensures
            r == self.rank(),
    {
        match self {
            Period::Static => 0,
            Period::Hour(..) => 1,
            Period::Day(..) => 2,
            Period::Month(..) => 3,
            Period::Year(_) => 4,
        }
    }

    fn is_earlier(&self, other: &Period) -> (r: bool)
        ensures
            r == self.earlier(*other),
    {
        match (*self, *other) {
            (Period::Hour(y, m, d, h), Period::Hour(y2, m2, d2, h2)) => y < y2 || y == y2 && (m < m2
                || m == m2 && (d < d2 || d == d2 && h < h2)),
            (Period::Day(y, m, d), Period::Day(y2, m2, d2)) => y < y2 || y == y2 && (m < m2 || m
                == m2 && d < d2),
            (Period::Month(y, m), Period::Month(y2, m2)) => y < y2 || y == y2 && m < m2,
            (Period::Year(y), Period::Year(y2)) => y < y2,
            _ => self.place() < other.place(),
        }
    }
}

impl PartialOrd for Period {
    fn partial_cmp(&self, other: &Period) -> (r: Option<Ordering>) {
        if *self == *other {
            Some(Ordering::Equal)
        } else if self.is_earlier(other) {
            Some(Ordering::Less)
        } else {
            Some(Ordering::Greater)
        }
    }
}

impl vstd::std_specs::cmp::PartialOrdSpecImpl for Period {
    open spec fn obeys_partial_cmp_spec() -> bool {
        true
    }

    open spec fn partial_cmp_spec(&self, other: &Period) -> Option<Ordering> {
        if *self == *other {
            Some(Ordering::Equal)
        } else if self.earlier(*other) {
            Some(Ordering::Less)
        } else {
            Some(Ordering::Greater)
        }
    }
}

/// Of two different periods exactly one is earlier, and the order is
/// transitive. It is the order of `<`.
pub proof fn law_period_order(a: Period, b: Period, c: Period)
    ensures
        vstd::std_specs::cmp::PartialOrdSpec::partial_cmp_spec(&a, &b) == Some(Ordering::Less)
            <==> a.earlier(b),
        a == b || a.earlier(b) || b.earlier(a),
        !(a.earlier(b) && b.earlier(a)),
        !a.earlier(a),
        a.earlier(b) && b.earlier(c) ==> a.earlier(c),
{
}

/// Rollup strategy of an event.
#[derive(Debug, Clone, Copy, PartialEq, Eq, Structural)]
pub enum Rollup {
    /// Writes are also ORed into every coarser period.
    Auto,
    /// Writes stay at the finest granularity.
    Off,
}

/// Whether a part holds members or deletions.
#[derive(Debug, Clone, Copy, PartialEq, Eq, Structural)]
pub enum PartKind {
    /// Additive members.
    Data,
    /// Deletions, subtracted by compaction.
    Delta,
}

/// Lifecycle state of a period: open, closed, compacted, dropped.
#[derive(Debug, Clone, Copy, PartialEq, Eq, Structural)]
pub enum PeriodState {
    /// Accepting writes.
    Open,
    /// Closed to writes; eligible for compaction.
    Closed,
    /// Parts merged and deltas applied.
    Compacted,
    /// All data evicted.
    Dropped,
}

impl PeriodState {
    /// The stable byte of a state.
    pub open spec fn code(self) -> u8 {
        match self {
            PeriodState::Open => 0,
            PeriodState::Closed => 1,
            PeriodState::Compacted => 2,
            PeriodState::Dropped => 3,
        }
    }

    /// Returns the byte that stands for this state in the catalog.
    pub fn as_u8(self) -> (r: u8)
        ensures
            r == self.code(),
    {
        match self {
            PeriodState::Open => 0,
            PeriodState::Closed => 1,
            PeriodState::Compacted => 2,
            PeriodState::Dropped => 3,
        }
    }

    /// Returns the state that a byte of [`as_u8`](Self::as_u8) stands for, or
    /// `None` for any other byte.
    pub fn from_u8(v: u8) -> (r: Option<PeriodState>)
        ensures
            r is None <==> v > 3,
            r matches Some(s) ==> s.code() == v,
            forall|s: PeriodState| r == Some(s) <==> #[trigger] s.code() == v,
    {
        match v {
            0 => Some(PeriodState::Open),
            1 => Some(PeriodState::Closed),
            2 => Some(PeriodState::Compacted),
            3 => Some(PeriodState::Dropped),
            _ => None,
        }
    }
}

/// Different states have different bytes, so `from_u8` undoes `as_u8`.
pub proof fn law_period_state_code_injective(a: PeriodState, b: PeriodState)
    ensures
        a.code() <= 3,
        a.code() == b.code() ==> a == b,
{
}

/// Configuration of a registered event.
#[derive(Debug, Clone)]
pub struct EventConfig {
    /// Name of the event.
    pub name: String,
    /// The finest granularity at which data is written.
    pub finest_granularity: Granularity,
    /// The rollup strategy in force.
    pub rollup: Rollup,
    /// The granularities that take part in rollup, from finest to coarsest.
    pub rollup_chain: Vec<Granularity>,
}

/// The strategy in force when `rollup` is asked for at granularity `finest`:
/// static sets are never rolled up.
pub open spec fn effective_rollup(finest: Granularity, rollup: Rollup) -> Rollup {
    if finest == Granularity::Static {
        Rollup::Off
    } else {
        rollup
    }
}

/// The granularities from `finest` up to the year.
pub open spec fn chain_from(finest: Granularity) -> Seq<Granularity> {
    match finest {
        Granularity::Static => Seq::empty(),
        Granularity::Hour => seq![
            Granularity::Hour,
            Granularity::Day,
            Granularity::Month,
            Granularity::Year,
        ],
        Granularity::Day => seq![Granularity::Day, Granularity::Month, Granularity::Year],
        Granularity::Month => seq![Granularity::Month, Granularity::Year],
        Granularity::Year => seq![Granularity::Year],
    }
}

/// The contents of an [`EventConfig`].
#[verifier::ext_equal]
pub struct ConfigView {
    pub name: Seq<char>,
    pub finest_granularity: Granularity,
    pub rollup: Rollup,
    pub rollup_chain: Seq<Granularity>,
}

impl View for EventConfig {
    type V = ConfigView;

    open spec fn view(&self) -> ConfigView {
        ConfigView {
            name: self.name@,
            finest_granularity: self.finest_granularity,
            rollup: self.rollup,
            rollup_chain: self.rollup_chain@,
        }
    }
}

/// The configuration of an event with a rollup that fits its granularity.
pub open spec fn configured(name: Seq<char>, finest: Granularity, rollup: Rollup) -> ConfigView {
    ConfigView {
        name,
        finest_granularity: finest,
        rollup,
        rollup_chain: if rollup == Rollup::Auto {
            chain_from(finest)
        } else {
            Seq::empty()
        },
    }
}

impl EventConfig {
    /// The configuration that [`new`](Self::new) builds: the chain runs from
    /// the finest granularity to the year when rollup is automatic, and is
    /// empty otherwise; a static set has no rollup.
    pub open spec fn wf(self) -> bool {
        &&& self.finest_granularity == Granularity::Static ==> self.rollup == Rollup::Off
        &&& self@ == configured(self.name@, self.finest_granularity, self.rollup)
    }

    /// Creates a configuration. `Granularity::Static` forces `Rollup::Off`.
    pub fn new(name: String, finest_granularity: Granularity, rollup: Rollup) -> (r: EventConfig)
        ensures
            r.name == name,
            r.finest_granularity == finest_granularity,
            r.rollup == effective_rollup(finest_granularity, rollup),
            r.wf(),
    {
        let rollup = if finest_granularity == Granularity::Static {
            Rollup::Off
        } else {
            rollup
        };
        let rollup_chain = if rollup == Rollup::Auto {
            match finest_granularity {
                Granularity::Static => Vec::new(),
                Granularity::Hour => vec![
                    Granularity::Hour,
                    Granularity::Day,
                    Granularity::Month,
                    Granularity::Year,
                ],
                Granularity::Day => vec![Granularity::Day, Granularity::Month, Granularity::Year],
                Granularity::Month => vec![Granularity::Month, Granularity::Year],
                Granularity::Year => vec![Granularity::Year],
            }
        } else {
            Vec::new()
        };
        assert(rollup_chain@ =~= if rollup == Rollup::Auto {
            chain_from(finest_granularity)
        } else {
            Seq::empty()
        });
        EventConfig { name, finest_granularity, rollup, rollup_chain }
    }
}

/// A rollup chain is ordered from finest to coarsest and ends with the year.
pub proof fn law_chain_ascends(finest: Granularity)
    ensures
        forall|i: int, j: int|
            0 <= i < j < chain_from(finest).len() ==> (#[trigger] chain_from(finest)[i]).code()
                < (#[trigger] chain_from(finest)[j]).code(),
        finest != Granularity::Static ==> chain_from(finest).first() == finest
            && chain_from(finest).last() == Granularity::Year,
{
}

/// Metadata of an immutable part file.
#[derive(Debug, Clone)]
pub struct Part {
    /// Identifier, increasing in write order.
    pub part_id: u64,
    /// Members or deletions.
    pub kind: PartKind,
    /// The event the part belongs to.
    pub event: String,
    /// The period the part covers.
    pub period: Period,
    /// Path of the part file.
    pub file_path: String,
    /// Size on disk in bytes.
    pub size_bytes: u64,
    /// Number of members in the bitmap.
    pub cardinality: u64,
    /// Unix time of writing, in seconds.
    pub created_at: u64,
    /// Compaction level; 0 is freshly flushed.
    pub level: u8,
}

/// The contents of a [`Part`].
pub struct PartView {
    pub part_id: u64,
    pub kind: PartKind,
    pub event: Seq<char>,
    pub period: Period,
    pub file_path: Seq<char>,
    pub size_bytes: u64,
    pub cardinality: u64,
    pub created_at: u64,
    pub level: u8,
}

impl View for Part {
    type V = PartView;

    open spec fn view(&self) -> PartView {
        PartView {
            part_id: self.part_id,
            kind: self.kind,
            event: self.event@,
            period: self.period,
            file_path: self.file_path@,
            size_bytes: self.size_bytes,
            cardinality: self.cardinality,
            created_at: self.created_at,
            level: self.level,
        }
    }
}

/// When the inverted index is rebuilt.
#[derive(Debug, Clone, Copy, PartialEq, Eq, Structural)]
pub enum IndexFreshness {
    /// No inverted index.
    Disabled,
    /// Rebuilt after every flush.
    OnFlush,
    /// Rebuilt after every compaction.
    OnCompact,
    /// Kept up to date on every write.
    Immediate,
}

/// One membership of the inverted index: positions in its decode tables.
#[derive(Debug, Clone, Copy, PartialEq, Eq, Structural)]
pub struct Membership {
    event: u16,
    period: u16,
}

impl Membership {
    /// Position of the event name.
    pub closed spec fn event_pos(self) -> u16 {
        self.event
    }

    /// Position of the period.
    pub closed spec fn period_pos(self) -> u16 {
        self.period
    }

    /// Packs two table positions.
    pub fn inline(event_id: u16, period_id: u16) -> (r: Membership)
        ensures
            r.event_pos() == event_id,
            r.period_pos() == period_id,
    {
        Membership { event: event_id, period: period_id }
    }

    /// Returns the position of the event name.
    pub fn event_id(&self) -> (r: u16)
        ensures
            r == self.event_pos(),
    {
        self.event
    }

    /// Returns the position of the period.
    pub fn period_id(&self) -> (r: u16)
        ensures
            r == self.period_pos(),
    {
        self.period
    }
}

/// One row of the inverted index: the memberships of all identifiers with one
/// hash are `memberships[offset .. offset + count]`.
#[derive(Debug, Clone, Copy, PartialEq, Eq, Structural)]
pub struct IndexEntry {
    /// 64-bit hash of the identifier.
    pub id_hash: u64,
    /// Position of the first membership.
    pub offset: u32,
    /// Number of memberships.
    pub count: u32,
}

/// Operational health snapshot.
#[derive(Debug, Clone)]
pub struct Health {
    /// Whether the catalog opened and responded.
    pub catalog_ok: bool,
    /// Size of the in-memory buffer in bytes.
    pub mempart_size_bytes: u64,
    /// Number of entries in the in-memory buffer.
    pub mempart_entries: u32,
    /// Number of registered events.
    pub total_events: u32,
    /// Number of data parts.
    pub total_data_parts: u64,
    /// Number of delta parts.
    pub total_delta_parts: u64,
    /// Number of open periods.
    pub open_periods: u32,
    /// Number of closed periods.
    pub closed_periods: u32,
    /// Number of compacted periods.
    pub compacted_periods: u32,
    /// Number of periods with enough parts to warrant compaction.
    pub periods_needing_compaction: u32,
    /// Disk usage over all part files, in bytes.
    pub disk_usage_bytes: u64,
}

/// Statistics of a compaction run.
#[derive(Debug, Clone)]
pub struct CompactStats {
    /// Number of periods compacted.
    pub periods_compacted: u32,
    /// Number of part files merged.
    pub parts_merged: u32,
    /// Number of delta parts applied and discarded.
    pub deltas_applied: u32,
    /// Bytes freed on disk.
    pub bytes_reclaimed: u64,
}

impl Default for CompactStats {
    fn default() -> (r: CompactStats)
        ensures
            r.periods_compacted == 0,
            r.parts_merged == 0,
            r.deltas_applied == 0,
            r.bytes_reclaimed == 0,
    {
        CompactStats { periods_compacted: 0, parts_merged: 0, deltas_applied: 0, bytes_reclaimed: 0 }
    }
}

/// The bytes of granularities count up from the static one, from the finest to
/// the coarsest, and their path segments are their lower-case names.
pub proof fn law_granularity_names(g: Granularity)
    ensures
        g.code() == 0 <==> g == Granularity::Static,
        g.code() == 1 <==> g == Granularity::Hour,
        g.code() == 2 <==> g == Granularity::Day,
        g.code() == 3 <==> g == Granularity::Month,
        g.code() == 4 <==> g == Granularity::Year,
        g.code() == 0 ==> g.dir_text() == "none"@,
        g.code() == 1 ==> g.dir_text() == "hour"@,
        g.code() == 2 ==> g.dir_text() == "day"@,
        g.code() == 3 ==> g.dir_text() == "month"@,
        g.code() == 4 ==> g.dir_text() == "year"@,
{
}

/// The bytes of period states count up along the life of a period.
pub proof fn law_period_state_bytes(s: PeriodState)
    ensures
        s.code() == 0 <==> s == PeriodState::Open,
        s.code() == 1 <==> s == PeriodState::Closed,
        s.code() == 2 <==> s == PeriodState::Compacted,
        s.code() == 3 <==> s == PeriodState::Dropped,
{
}

/// The granularities of a chain are exactly those of time that are no finer than
/// its first one, each once.
pub proof fn law_chain_members(finest: Granularity, g: Granularity)
    ensures
        chain_from(finest).contains(g) <==> finest != Granularity::Static && g
            != Granularity::Static && finest.code() <= g.code(),
        chain_from(finest).no_duplicates(),
        chain_from(finest).len() == if finest == Granularity::Static {
            0
        } else {
            5 - finest.code()
        },
{
    let chain = chain_from(finest);
    if finest != Granularity::Static && g != Granularity::Static && finest.code() <= g.code() {
        assert(chain[g.code() - finest.code()] == g);
    }
}

/// A static event is never rolled up; any other has the rollup that was asked
/// for. Automatic rollup takes in all granularities from the finest on, and
/// without it there are none.
pub proof fn law_rollup_in_force(name: Seq<char>, finest: Granularity, asked: Rollup)
    ensures
        finest == Granularity::Static ==> effective_rollup(finest, asked) == Rollup::Off,
        finest != Granularity::Static ==> effective_rollup(finest, asked) == asked,
        configured(name, finest, asked).name == name,
        configured(name, finest, asked).finest_granularity == finest,
        configured(name, finest, asked).rollup == asked,
        asked == Rollup::Auto ==> configured(name, finest, asked).rollup_chain == chain_from(
            finest,
        ),
        asked == Rollup::Off ==> configured(name, finest, asked).rollup_chain.len() == 0,
{
}

/// The view of a configuration is its fields.
pub proof fn law_config_view(c: EventConfig)
    ensures
        c@.name == c.name@,
        c@.finest_granularity == c.finest_granularity,
        c@.rollup == c.rollup,
        c@.rollup_chain == c.rollup_chain@,
{
}

/// Periods are ordered by granularity first, from the static one and the finest on,
/// and within one by their components from the year down.
pub proof fn law_period_order_by_components(a: Period, b: Period, k: int)
    ensures
        crate::period::granularity_of(a).code() < crate::period::granularity_of(b).code()
            ==> a.earlier(b),
        ({
            let x = crate::period::components(a);
            let y = crate::period::components(b);
            crate::period::granularity_of(a) == crate::period::granularity_of(b) && 0 <= k < x.len()
                && (forall|i: int| 0 <= i < k ==> #[trigger] x[i] == y[i]) && x[k] < y[k]
                ==> a.earlier(b) && !b.earlier(a)
        }),
{
    let x = crate::period::components(a);
    let y = crate::period::components(b);
    if crate::period::granularity_of(a) == crate::period::granularity_of(b) && 0 <= k < x.len() && (
    forall|i: int| 0 <= i < k ==> #[trigger] x[i] == y[i]) && x[k] < y[k] {
        assert(k == 0 || k == 1 || k == 2 || k == 3);
        if k > 0 {
            assert(x[0] == y[0]);
        }
        if k > 1 {
            assert(x[1] == y[1]);
        }
        if k > 2 {
            assert(x[2] == y[2]);
        }
    }
}

/// The view of a part is its fields.
pub proof fn law_part_view(p: Part)
    ensures
        p@.part_id == p.part_id,
        p@.kind == p.kind,
        p@.event == p.event@,
        p@.period == p.period,
        p@.file_path == p.file_path@,
        p@.size_bytes == p.size_bytes,
        p@.cardinality == p.cardinality,
        p@.created_at == p.created_at,
        p@.level == p.level,
{
}

} // verus!
