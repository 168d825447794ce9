//! Rollup: writes at a fine granularity are ORed into the coarser periods that
//! enclose them.

use vstd::prelude::*;
use std::sync::Arc;

use roaring::RoaringBitmap;

use crate::bitmap::{canonical, members, ordered};
use crate::mempart::{entries_of, entry_size, in_order, or_into, set_at, Entries, EntryKey, MemPart};
use crate::period::{ancestors_of, components, granularity_of};
use crate::types::{EventConfig, Granularity, Period, Rollup};

verus! {

/// Entries after `set` was added to each of `periods` whose granularity is in
/// `chain`.
pub open spec fn rolled(
    entries: Entries,
    event: Seq<char>,
    chain: Seq<Granularity>,
    periods: Seq<Period>,
    set: Set<u32>,
) -> Entries
    decreases periods.len(),
{
    if periods.len() == 0 {
        entries
    } else {
        let before = rolled(entries, event, chain, periods.drop_last(), set);
        if chain.contains(granularity_of(periods.last())) {
            or_into(before, (event, periods.last()), set)
        } else {
            before
        }
    }
}

/// Entries after a rollup of a write of `set` at `period`.
pub open spec fn rollup_effect(
    entries: Entries,
    config: EventConfig,
    period: Period,
    set: Set<u32>,
) -> Entries {
    if config.rollup == Rollup::Auto {
        rolled(entries, config.name@, config.rollup_chain@, ancestors_of(period), set)
    } else {
        entries
    }
}

fn in_chain(chain: &Vec<Granularity>, g: Granularity) -> (r: bool)
    ensures
        r == chain@.contains(g),
{
    let mut i: usize = 0;
    while i < chain.len()
        invariant
            i <= chain@.len(),
            forall|k: int| 0 <= k < i ==> chain@[k] != g,
        decreases chain@.len() - i,
    {
        if chain[i] == g {
            return true;
        }
        i = i + 1;
    }
    false
}

/// Whether a period of `periods` takes part in a rollup along `chain`.
pub open spec fn takes_part(chain: Seq<Granularity>, periods: Seq<Period>, p: Period) -> bool {
    periods.contains(p) && chain.contains(granularity_of(p))
}

/// What a rollup of `bitmap` to `periods` does to the bitmaps of a buffer,
/// whatever their shape. Each period that takes part has an entry afterwards;
/// where this entry and `bitmap` had their containers in order, it has them in
/// order and holds the union. All other entries stay as they are.
pub open spec fn rolled_entries(
    before: Map<EntryKey, Arc<RoaringBitmap>>,
    after: Map<EntryKey, Arc<RoaringBitmap>>,
    event: Seq<char>,
    chain: Seq<Granularity>,
    periods: Seq<Period>,
    bitmap: RoaringBitmap,
) -> bool {
    &&& forall|p: Period| #[trigger]
        takes_part(chain, periods, p) ==> {
            let key = (event, p);
            &&& after.dom().contains(key)
            &&& in_order(before, key) && ordered(bitmap) ==> in_order(after, key) && set_at(
                entries_of(after),
                key,
            ) == set_at(entries_of(before), key).union(members(bitmap))
        }
    &&& forall|key: EntryKey|
        key.0 != event || !takes_part(chain, periods, key.1) ==> {
            &&& #[trigger] after.dom().contains(key) <==> before.dom().contains(key)
            &&& before.dom().contains(key) ==> after[key] == before[key]
        }
}

/// By how much the serialized sizes of the entries that take part in a rollup
/// grew.
pub open spec fn rolled_growth(
    before: Map<EntryKey, Arc<RoaringBitmap>>,
    after: Map<EntryKey, Arc<RoaringBitmap>>,
    event: Seq<char>,
    chain: Seq<Granularity>,
    periods: Seq<Period>,
) -> int
    decreases periods.len(),
{
    if periods.len() == 0 {
        0
    } else {
        let key = (event, periods.last());
        rolled_growth(before, after, event, chain, periods.drop_last()) + if chain.contains(
            granularity_of(periods.last()),
        ) {
            entry_size(after, key) - entry_size(before, key)
        } else {
            0
        }
    }
}

proof fn lemma_growth_frame(
    start: Map<EntryKey, Arc<RoaringBitmap>>,
    a: Map<EntryKey, Arc<RoaringBitmap>>,
    b: Map<EntryKey, Arc<RoaringBitmap>>,
    event: Seq<char>,
    chain: Seq<Granularity>,
    periods: Seq<Period>,
    p: Period,
)
    requires
        a.remove((event, p)) == b.remove((event, p)),
        !periods.contains(p),
    ensures
        rolled_growth(start, a, event, chain, periods) == rolled_growth(
            start,
            b,
            event,
            chain,
            periods,
        ),
    decreases periods.len(),
{
    if periods.len() > 0 {
        let q = periods.last();
        assert(periods.contains(q));
        assert(!periods.drop_last().contains(p)) by {
            if periods.drop_last().contains(p) {
                let k = choose|k: int|
                    0 <= k < periods.drop_last().len() && periods.drop_last()[k] == p;
                assert(periods[k] == p);
            }
        }
        lemma_growth_frame(start, a, b, event, chain, periods.drop_last(), p);
        lemma_same_elsewhere(a, b, (event, p), (event, q));
    }
}

proof fn lemma_same_elsewhere(
    a: Map<EntryKey, Arc<RoaringBitmap>>,
    b: Map<EntryKey, Arc<RoaringBitmap>>,
    key: EntryKey,
    other: EntryKey,
)
    requires
        a.remove(key) == b.remove(key),
        other != key,
    ensures
        a.dom().contains(other) <==> b.dom().contains(other),
        a.dom().contains(other) ==> a[other] == b[other],
{
    assert(a.remove(key).dom().contains(other) <==> a.dom().contains(other));
    assert(b.remove(key).dom().contains(other) <==> b.dom().contains(other));
    if a.dom().contains(other) {
        assert(a.remove(key)[other] == a[other]);
        assert(b.remove(key)[other] == b[other]);
    }
}

proof fn lemma_takes_part_step(chain: Seq<Granularity>, periods: Seq<Period>, p: Period)
    requires
        periods.len() > 0,
    ensures
        takes_part(chain, periods, p) <==> takes_part(chain, periods.drop_last(), p) || (p
            == periods.last() && chain.contains(granularity_of(p))),
{
    let init = periods.drop_last();
    if periods.contains(p) && p != periods.last() {
        let k = choose|k: int| 0 <= k < periods.len() && periods[k] == p;
        assert(init[k] == p);
    }
    if init.contains(p) {
        let k = choose|k: int| 0 <= k < init.len() && init[k] == p;
        assert(periods[k] == p);
    }
    assert(periods.contains(periods.last()));
}

proof fn lemma_rolled_skip(
    start: Map<EntryKey, Arc<RoaringBitmap>>,
    before: Map<EntryKey, Arc<RoaringBitmap>>,
    event: Seq<char>,
    chain: Seq<Granularity>,
    periods: Seq<Period>,
    bitmap: RoaringBitmap,
)
    requires
        periods.len() > 0,
        rolled_entries(start, before, event, chain, periods.drop_last(), bitmap),
        !chain.contains(granularity_of(periods.last())),
    ensures
        rolled_entries(start, before, event, chain, periods, bitmap),
{
    assert forall|p: Period|
        takes_part(chain, periods, p) == #[trigger] takes_part(chain, periods.drop_last(), p) by {
        lemma_takes_part_step(chain, periods, p);
    }
    assert forall|p: Period| #[trigger] takes_part(chain, periods, p) implies takes_part(
        chain,
        periods.drop_last(),
        p,
    ) by {
        lemma_takes_part_step(chain, periods, p);
    }
}

proof fn lemma_rolled_step(
    start: Map<EntryKey, Arc<RoaringBitmap>>,
    before: Map<EntryKey, Arc<RoaringBitmap>>,
    after: Map<EntryKey, Arc<RoaringBitmap>>,
    event: Seq<char>,
    chain: Seq<Granularity>,
    periods: Seq<Period>,
    bitmap: RoaringBitmap,
)
    requires
        periods.len() > 0,
        !periods.drop_last().contains(periods.last()),
        rolled_entries(start, before, event, chain, periods.drop_last(), bitmap),
        chain.contains(granularity_of(periods.last())),
        after.dom() == before.dom().insert((event, periods.last())),
        after.remove((event, periods.last())) == before.remove((event, periods.last())),
        in_order(before, (event, periods.last())) && ordered(bitmap) ==> in_order(
            after,
            (event, periods.last()),
        ) && entries_of(after) == or_into(
            entries_of(before),
            (event, periods.last()),
            members(bitmap),
        ),
    ensures
        rolled_entries(start, after, event, chain, periods, bitmap),
        entry_size(before, (event, periods.last())) == entry_size(start, (event, periods.last())),
{
    let last = periods.last();
    let top = (event, last);
    let init = periods.drop_last();
    assert(!takes_part(chain, init, last));
    assert(before.dom().contains(top) <==> start.dom().contains(top));
    assert forall|p: Period| #[trigger] takes_part(chain, periods, p) implies {
        let key = (event, p);
        &&& after.dom().contains(key)
        &&& in_order(start, key) && ordered(bitmap) ==> in_order(after, key) && set_at(
            entries_of(after),
            key,
        ) == set_at(entries_of(start), key).union(members(bitmap))
    } by {
        let key = (event, p);
        lemma_takes_part_step(chain, periods, p);
        if p != last {
            assert(takes_part(chain, init, p));
            lemma_same_elsewhere(before, after, top, key);
        }
    }
    assert forall|key: EntryKey|
        key.0 != event || !takes_part(chain, periods, key.1) implies {
        &&& #[trigger] after.dom().contains(key) <==> start.dom().contains(key)
        &&& start.dom().contains(key) ==> after[key] == start[key]
    } by {
        lemma_takes_part_step(chain, periods, key.1);
        assert(key != top);
        lemma_same_elsewhere(before, after, top, key);
        assert(before.dom().contains(key) <==> start.dom().contains(key));
    }
}

proof fn lemma_ancestors_distinct(p: Period)
    ensures
        ancestors_of(p).no_duplicates(),
{
}

/// ORs `bitmap` into every ancestor of `period` whose granularity is in the
/// rollup chain of the event. The period itself is left to the caller. Without
/// automatic rollup nothing happens.
pub fn apply_rollup(
    mempart: &mut MemPart,
    config: &EventConfig,
    period: &Period,
    bitmap: &RoaringBitmap,
)
    requires
        old(mempart).wf(),
    ensures
        final(mempart).wf(),
        config.rollup != Rollup::Auto ==> *final(mempart) == *old(mempart),
        final(mempart).delta_map() == old(mempart).delta_map(),
        config.rollup == Rollup::Auto ==> {
            &&& rolled_entries(
                old(mempart).bitmap_map(),
                final(mempart).bitmap_map(),
                config.name@,
                config.rollup_chain@,
                ancestors_of(*period),
                *bitmap,
            )
            &&& final(mempart).size() == (old(mempart).size() + rolled_growth(
                old(mempart).bitmap_map(),
                final(mempart).bitmap_map(),
                config.name@,
                config.rollup_chain@,
                ancestors_of(*period),
            )) % 0x1_0000_0000_0000_0000
        },
        old(mempart).sound() && canonical(*bitmap) ==> final(mempart).sound()
            && final(mempart).data() == rollup_effect(
            old(mempart).data(),
            *config,
            *period,
            members(*bitmap),
        ),
{
    if config.rollup != Rollup::Auto {
        return;
    }
    let ancestors = period.ancestors().collect();
    let ghost good = mempart.sound() && canonical(*bitmap);
    let ghost start = mempart.bitmap_map();
    let ghost name = config.name@;
    let ghost chain = config.rollup_chain@;
    let mut i: usize = 0;
    assert(ancestors@.subrange(0, 0) =~= Seq::empty());
    proof {
        lemma_ancestors_distinct(*period);
    }
    while i < ancestors.len()
        invariant
            i <= ancestors@.len(),
            ancestors@ == ancestors_of(*period),
            ancestors@.no_duplicates(),
            name == config.name@,
            chain == config.rollup_chain@,
            start == old(mempart).bitmap_map(),
            mempart.wf(),
            mempart.delta_map() == old(mempart).delta_map(),
            rolled_entries(
                start,
                mempart.bitmap_map(),
                name,
                chain,
                ancestors@.subrange(0, i as int),
                *bitmap,
            ),
            mempart.size() == (old(mempart).size() + rolled_growth(
                start,
                mempart.bitmap_map(),
                name,
                chain,
                ancestors@.subrange(0, i as int),
            )) % 0x1_0000_0000_0000_0000,
            good ==> canonical(*bitmap) && mempart.sound() && mempart.data() == rolled(
                old(mempart).data(),
                name,
                chain,
                ancestors@.subrange(0, i as int),
                members(*bitmap),
            ),
        decreases ancestors@.len() - i,
    {
        let ancestor = ancestors[i];
        let ghost done = ancestors@.subrange(0, i as int);
        let ghost upto = ancestors@.subrange(0, i + 1);
        let ghost before = mempart.bitmap_map();
        assert(upto.drop_last() =~= done);
        if in_chain(&config.rollup_chain, ancestor.granularity()) {
            mempart.or_bitmap(config.name.as_str(), ancestor, bitmap);
            proof {
                let after = mempart.bitmap_map();
                assert(!done.contains(ancestor)) by {
                    if done.contains(ancestor) {
                        let k = choose|k: int| 0 <= k < done.len() && done[k] == ancestor;
                        assert(ancestors@[k] == ancestors@[i as int]);
                    }
                }
                lemma_growth_frame(start, before, after, name, chain, done, ancestor);
                lemma_rolled_step(start, before, after, name, chain, upto, *bitmap);
            }
        } else {
            proof {
                lemma_rolled_skip(start, before, name, chain, upto, *bitmap);
            }
        }
        i = i + 1;
    }
    assert(ancestors@.subrange(0, i as int) =~= ancestors@);
}

/// ORs the deletions `delta` into every ancestor of `period` whose granularity
/// is in the rollup chain of the event. Without automatic rollup nothing
/// happens.
pub fn apply_rollup_delta(
    mempart: &mut MemPart,
    config: &EventConfig,
    period: &Period,
    delta: &RoaringBitmap,
)
    requires
        old(mempart).wf(),
    ensures
        final(mempart).wf(),
        config.rollup != Rollup::Auto ==> *final(mempart) == *old(mempart),
        final(mempart).bitmap_map() == old(mempart).bitmap_map(),
        config.rollup == Rollup::Auto ==> {
            &&& rolled_entries(
                old(mempart).delta_map(),
                final(mempart).delta_map(),
                config.name@,
                config.rollup_chain@,
                ancestors_of(*period),
                *delta,
            )
            &&& final(mempart).size() == (old(mempart).size() + rolled_growth(
                old(mempart).delta_map(),
                final(mempart).delta_map(),
                config.name@,
                config.rollup_chain@,
                ancestors_of(*period),
            )) % 0x1_0000_0000_0000_0000
        },
        old(mempart).sound() && canonical(*delta) ==> final(mempart).sound()
            && final(mempart).tombstones() == rollup_effect(
            old(mempart).tombstones(),
            *config,
            *period,
            members(*delta),
        ),
{
    if config.rollup != Rollup::Auto {
        return;
    }
    let ancestors = period.ancestors().collect();
    let ghost good = mempart.sound() && canonical(*delta);
    let ghost start = mempart.delta_map();
    let ghost name = config.name@;
    let ghost chain = config.rollup_chain@;
    let mut i: usize = 0;
    assert(ancestors@.subrange(0, 0) =~= Seq::empty());
    proof {
        lemma_ancestors_distinct(*period);
    }
    while i < ancestors.len()
        invariant
            i <= ancestors@.len(),
            ancestors@ == ancestors_of(*period),
            ancestors@.no_duplicates(),
            name == config.name@,
            chain == config.rollup_chain@,
            start == old(mempart).delta_map(),
            mempart.wf(),
            mempart.bitmap_map() == old(mempart).bitmap_map(),
            rolled_entries(
                start,
                mempart.delta_map(),
                name,
                chain,
                ancestors@.subrange(0, i as int),
                *delta,
            ),
            mempart.size() == (old(mempart).size() + rolled_growth(
                start,
                mempart.delta_map(),
                name,
                chain,
                ancestors@.subrange(0, i as int),
            )) % 0x1_0000_0000_0000_0000,
            good ==> canonical(*delta) && mempart.sound() && mempart.tombstones() == rolled(
                old(mempart).tombstones(),
                name,
                chain,
                ancestors@.subrange(0, i as int),
                members(*delta),
            ),
        decreases ancestors@.len() - i,
    {
        let ancestor = ancestors[i];
        let ghost done = ancestors@.subrange(0, i as int);
        let ghost upto = ancestors@.subrange(0, i + 1);
        let ghost before = mempart.delta_map();
        assert(upto.drop_last() =~= done);
        if in_chain(&config.rollup_chain, ancestor.granularity()) {
            mempart.or_delta(config.name.as_str(), ancestor, delta);
            proof {
                let after = mempart.delta_map();
                assert(!done.contains(ancestor)) by {
                    if done.contains(ancestor) {
                        let k = choose|k: int| 0 <= k < done.len() && done[k] == ancestor;
                        assert(ancestors@[k] == ancestors@[i as int]);
                    }
                }
                lemma_growth_frame(start, before, after, name, chain, done, ancestor);
                lemma_rolled_step(start, before, after, name, chain, upto, *delta);
            }
        } else {
            proof {
                lemma_rolled_skip(start, before, name, chain, upto, *delta);
            }
        }
        i = i + 1;
    }
    assert(ancestors@.subrange(0, i as int) =~= ancestors@);
}

// ---------------------------------------------------------------------------
// Laws
// ---------------------------------------------------------------------------

/// A rollup adds the set to exactly the given periods of the event whose
/// granularity is in the chain.
pub proof fn law_rolled_reach(
    entries: Entries,
    event: Seq<char>,
    chain: Seq<Granularity>,
    periods: Seq<Period>,
    set: Set<u32>,
    name: Seq<char>,
    p: Period,
)
    ensures
        set_at(rolled(entries, event, chain, periods, set), (name, p)) == if name == event
            && periods.contains(p) && chain.contains(granularity_of(p)) {
            set_at(entries, (name, p)).union(set)
        } else {
            set_at(entries, (name, p))
        },
    decreases periods.len(),
{
    if periods.len() > 0 {
        let init = periods.drop_last();
        law_rolled_reach(entries, event, chain, init, set, name, p);
        if periods.contains(p) && p != periods.last() {
            let k = choose|k: int| 0 <= k < periods.len() && periods[k] == p;
            assert(init[k] == p);
        }
        if init.contains(p) {
            let k = choose|k: int| 0 <= k < init.len() && init[k] == p;
            assert(periods[k] == p);
        }
        if periods.last() == p {
            assert(periods[periods.len() - 1] == p);
        }
        let s = set_at(entries, (name, p));
        assert(s.union(set).union(set) =~= s.union(set));
    }
}

/// Entries after a whole write: `set` goes into `period` and is rolled up.
pub open spec fn put_effect(
    entries: Entries,
    config: EventConfig,
    period: Period,
    set: Set<u32>,
) -> Entries {
    rollup_effect(or_into(entries, (config.name@, period), set), config, period, set)
}

/// Whether every entry of an event is contained in the entries of the periods
/// that enclose it, at each granularity of the chain.
pub open spec fn coarser_covers(entries: Entries, config: EventConfig) -> bool {
    forall|p: Period, a: Period|
        #![trigger ancestors_of(p).contains(a)]
        ancestors_of(p).contains(a) && config.rollup_chain@.contains(granularity_of(a))
            ==> set_at(entries, (config.name@, p)).subset_of(set_at(entries, (config.name@, a)))
}

/// Whether every member of a coarser entry comes from an entry at the finest
/// granularity within it.
pub open spec fn comes_from_finest(entries: Entries, config: EventConfig) -> bool {
    forall|a: Period, v: u32|
        #![trigger set_at(entries, (config.name@, a)).contains(v)]
        granularity_of(a) != config.finest_granularity && set_at(
            entries,
            (config.name@, a),
        ).contains(v) ==> exists|p: Period|
            granularity_of(p) == config.finest_granularity && #[trigger] ancestors_of(p).contains(a)
                && set_at(entries, (config.name@, p)).contains(v)
}

proof fn lemma_put_reach(
    entries: Entries,
    config: EventConfig,
    period: Period,
    set: Set<u32>,
    p: Period,
)
    ensures
        set_at(put_effect(entries, config, period, set), (config.name@, p)) == if p == period || (
        config.rollup == Rollup::Auto && ancestors_of(period).contains(p)
            && config.rollup_chain@.contains(granularity_of(p))) {
            set_at(entries, (config.name@, p)).union(set)
        } else {
            set_at(entries, (config.name@, p))
        },
{
    let first = or_into(entries, (config.name@, period), set);
    law_rolled_reach(
        first,
        config.name@,
        config.rollup_chain@,
        ancestors_of(period),
        set,
        config.name@,
        p,
    );
    let s = set_at(entries, (config.name@, p));
    assert(s.union(set).union(set) =~= s.union(set));
}

/// Writes keep coarser periods complete: an hour stays within its day, a day
/// within its month, a month within its year.
pub proof fn law_rollup_keeps_coverage(
    entries: Entries,
    config: EventConfig,
    period: Period,
    set: Set<u32>,
)
    requires
        config.rollup == Rollup::Auto,
        coarser_covers(entries, config),
    ensures
        coarser_covers(put_effect(entries, config, period, set), config),
{
    let after = put_effect(entries, config, period, set);
    assert forall|p: Period, a: Period|
        #![trigger ancestors_of(p).contains(a)]
        ancestors_of(p).contains(a) && config.rollup_chain@.contains(
            granularity_of(a),
        ) implies set_at(after, (config.name@, p)).subset_of(
        set_at(after, (config.name@, a)),
    ) by {
        lemma_put_reach(entries, config, period, set, p);
        lemma_put_reach(entries, config, period, set, a);
        lemma_ancestors_transitive(period, p, a);
    }
}

proof fn lemma_ancestors_transitive(p: Period, q: Period, a: Period)
    requires
        ancestors_of(q).contains(a),
    ensures
        ancestors_of(p).contains(q) ==> ancestors_of(p).contains(a),
{
    if ancestors_of(p).contains(q) {
        let i = choose|i: int| 0 <= i < ancestors_of(p).len() && ancestors_of(p)[i] == q;
        let j = choose|j: int| 0 <= j < ancestors_of(q).len() && ancestors_of(q)[j] == a;
        assert(ancestors_of(p)[i + 1 + j] == a);
    }
}

/// Writes at the finest granularity add nothing else to coarser periods: every
/// member of a day, month or year is a member of one of its finest periods.
pub proof fn law_rollup_adds_nothing_else(
    entries: Entries,
    config: EventConfig,
    period: Period,
    set: Set<u32>,
)
    requires
        granularity_of(period) == config.finest_granularity,
        comes_from_finest(entries, config),
    ensures
        comes_from_finest(put_effect(entries, config, period, set), config),
{
    let after = put_effect(entries, config, period, set);
    let name = config.name@;
    assert forall|a: Period, v: u32|
        #![trigger set_at(after, (name, a)).contains(v)]
        granularity_of(a) != config.finest_granularity && set_at(after, (name, a)).contains(
            v,
        ) implies exists|p: Period|
        granularity_of(p) == config.finest_granularity && #[trigger] ancestors_of(p).contains(a)
            && set_at(after, (name, p)).contains(v) by {
        lemma_put_reach(entries, config, period, set, a);
        if set_at(entries, (name, a)).contains(v) {
            let p = choose|p: Period|
                granularity_of(p) == config.finest_granularity && #[trigger] ancestors_of(
                    p,
                ).contains(a) && set_at(entries, (name, p)).contains(v);
            lemma_put_reach(entries, config, period, set, p);
            assert(ancestors_of(p).contains(a) && set_at(after, (name, p)).contains(v));
        } else {
            lemma_put_reach(entries, config, period, set, period);
            assert(ancestors_of(period).contains(a) && set_at(after, (name, period)).contains(v));
        }
    }
}

proof fn lemma_rolled_dom(
    entries: Entries,
    event: Seq<char>,
    chain: Seq<Granularity>,
    periods: Seq<Period>,
    set: Set<u32>,
    name: Seq<char>,
    q: Period,
)
    ensures
        rolled(entries, event, chain, periods, set).dom().contains((name, q))
            <==> entries.dom().contains((name, q)) || (name == event && periods.contains(q)
            && chain.contains(granularity_of(q))),
    decreases periods.len(),
{
    if periods.len() > 0 {
        let init = periods.drop_last();
        lemma_rolled_dom(entries, event, chain, init, set, name, q);
        lemma_takes_part_step(chain, periods, q);
    }
}

/// A rollup writes into exactly the periods that enclose the one written and
/// whose granularity is in the chain of the event: those that share its year, and
/// its month and day where they have one. There it adds exactly the set. Other
/// periods, the period itself, and other events stay as they are, and without
/// automatic rollup all do.
pub proof fn law_rollup_reaches_what_encloses(
    entries: Entries,
    config: EventConfig,
    p: Period,
    set: Set<u32>,
    name: Seq<char>,
    q: Period,
    v: u32,
)
    ensures
        ({
            let after = rollup_effect(entries, config, p, set);
            let reached = config.rollup == Rollup::Auto && name == config.name@ && 0
                < components(q).len() < components(p).len() && components(p).subrange(
                0,
                components(q).len() as int,
            ) == components(q) && config.rollup_chain@.contains(granularity_of(q));
            &&& after.dom().contains((name, q)) <==> entries.dom().contains((name, q)) || reached
            &&& set_at(after, (name, q)).contains(v) <==> set_at(entries, (name, q)).contains(v)
                || (reached && set.contains(v))
            &&& !reached && entries.dom().contains((name, q)) ==> after[(name, q)] == entries[(
                name,
                q,
            )]
        }),
{
    crate::period::law_ancestors_enclose(p, q);
    if config.rollup == Rollup::Auto {
        law_rolled_reach(
            entries,
            config.name@,
            config.rollup_chain@,
            ancestors_of(p),
            set,
            name,
            q,
        );
        lemma_rolled_dom(
            entries,
            config.name@,
            config.rollup_chain@,
            ancestors_of(p),
            set,
            name,
            q,
        );
    }
}

/// With a configuration as it is created, a rollup of a write reaches every
/// coarser period up to the year that is no finer than the finest granularity of
/// the event, and no other.
pub proof fn law_created_config_rolls_up_to_the_year(
    entries: Entries,
    config: EventConfig,
    p: Period,
    set: Set<u32>,
    q: Period,
    v: u32,
)
    requires
        config.wf(),
        config.rollup == Rollup::Auto,
    ensures
        ({
            let after = rollup_effect(entries, config, p, set);
            let reached = 0 < components(q).len() < components(p).len() && components(
                p,
            ).subrange(0, components(q).len() as int) == components(q)
                && config.finest_granularity.code() <= granularity_of(q).code();
            set_at(after, (config.name@, q)).contains(v) <==> set_at(
                entries,
                (config.name@, q),
            ).contains(v) || (reached && set.contains(v))
        }),
{
    law_rollup_reaches_what_encloses(entries, config, p, set, config.name@, q, v);
    crate::types::law_chain_members(config.finest_granularity, granularity_of(q));
    crate::period::law_granularity_of_period(q);
}

/// What a rollup does to the bitmaps of a buffer, whatever their shape: the
/// periods that enclose the one written, at granularities of the chain, have an
/// entry afterwards, which holds the union where containers were in order; every
/// other entry is the same as before.
pub proof fn law_rolled_bitmaps(
    before: Map<EntryKey, Arc<RoaringBitmap>>,
    after: Map<EntryKey, Arc<RoaringBitmap>>,
    event: Seq<char>,
    chain: Seq<Granularity>,
    p: Period,
    bitmap: RoaringBitmap,
    name: Seq<char>,
    q: Period,
)
    requires
        rolled_entries(before, after, event, chain, ancestors_of(p), bitmap),
    ensures
        ({
            let reached = name == event && 0 < components(q).len() < components(p).len()
                && components(p).subrange(0, components(q).len() as int) == components(q)
                && chain.contains(granularity_of(q));
            let key = (name, q);
            &&& reached ==> after.dom().contains(key)
            &&& reached && !before.dom().contains(key) && ordered(bitmap) ==> ordered(*after[key])
                && members(*after[key]) == members(bitmap)
            &&& reached && before.dom().contains(key) && ordered(*before[key]) && ordered(bitmap)
                ==> ordered(*after[key]) && members(*after[key]) == members(*before[key]).union(
                members(bitmap),
            )
            &&& !reached ==> (after.dom().contains(key) <==> before.dom().contains(key))
            &&& !reached && before.dom().contains(key) ==> after[key] == before[key]
        }),
{
    crate::period::law_ancestors_enclose(p, q);
    let key = (name, q);
    if name == event && takes_part(chain, ancestors_of(p), q) {
        assert(after.dom().contains(key));
        if !before.dom().contains(key) && ordered(bitmap) {
            assert(set_at(entries_of(before), key).union(members(bitmap)) =~= members(bitmap));
        }
    } else {
        assert(after.dom().contains(key) <==> before.dom().contains(key));
    }
}

/// A whole write, period and rollup, leaves in each period exactly what was there
/// and, in the period written and those reached from it, the set.
pub proof fn law_write_and_rollup(
    entries: Entries,
    config: EventConfig,
    p: Period,
    set: Set<u32>,
    name: Seq<char>,
    q: Period,
    v: u32,
)
    ensures
        ({
            let after = put_effect(entries, config, p, set);
            let reached = name == config.name@ && (q == p || (config.rollup == Rollup::Auto && 0
                < components(q).len() < components(p).len() && components(p).subrange(
                0,
                components(q).len() as int,
            ) == components(q) && config.rollup_chain@.contains(granularity_of(q))));
            set_at(after, (name, q)).contains(v) <==> set_at(entries, (name, q)).contains(v) || (
            reached && set.contains(v))
        }),
{
    let first = or_into(entries, (config.name@, p), set);
    law_rollup_reaches_what_encloses(first, config, p, set, name, q, v);
    crate::mempart::law_or_exact(entries, (config.name@, p), set, (name, q), v);
}

/// By how much a rollup makes the buffer grow: the growth of each entry that takes
/// part, added up.
pub proof fn law_growth_adds_up(
    before: Map<EntryKey, Arc<RoaringBitmap>>,
    after: Map<EntryKey, Arc<RoaringBitmap>>,
    event: Seq<char>,
    chain: Seq<Granularity>,
    a: Seq<Period>,
    b: Seq<Period>,
)
    ensures
        rolled_growth(before, after, event, chain, a + b) == rolled_growth(
            before,
            after,
            event,
            chain,
            a,
        ) + rolled_growth(before, after, event, chain, b),
        a.len() == 0 ==> rolled_growth(before, after, event, chain, a) == 0,
        a.len() == 1 && chain.contains(granularity_of(a[0])) ==> rolled_growth(
            before,
            after,
            event,
            chain,
            a,
        ) == entry_size(after, (event, a[0])) - entry_size(before, (event, a[0])),
        a.len() == 1 && !chain.contains(granularity_of(a[0])) ==> rolled_growth(
            before,
            after,
            event,
            chain,
            a,
        ) == 0,
    decreases b.len(),
{
    if a.len() == 1 {
        assert(a.drop_last() =~= Seq::empty());
        assert(rolled_growth(before, after, event, chain, a.drop_last()) == 0);
    }
    if b.len() == 0 {
        assert(a + b =~= a);
    } else {
        law_growth_adds_up(before, after, event, chain, a, b.drop_last());
        assert((a + b).drop_last() =~= a + b.drop_last());
        assert((a + b).last() == b.last());
    }
}

} // verus!
