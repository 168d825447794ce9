//! Filling the inverted index: which memberships go into it.
//!
//! The index is filled from the merged sets of all events and periods. Each
//! member whose number the dictionary resolves is entered under its external
//! identifier, with the position of the event among the names and of the period
//! among the periods that occur.

use vstd::prelude::*;

use crate::catalog::Catalog;
use crate::dict::{
    batch_reverse_lookup_u32, dict_in, pair_texts, position_in, resolved, resolved_pairs, DictView,
};
use crate::error::{ErrorView, InoxSetError};
use crate::inverted::{
    built_from, decoded, is_row_of, law_added_is_found, law_found_was_added, long_hash, row_pair,
    InvertedIndex, InvertedIndexBuilder, StagedRow,
};
use crate::mempart::EntryKey;
use crate::order::texts;
use crate::types::Period;

verus! {

/// The members of an event and period.
pub type SetView = (EntryKey, Seq<u32>);

/// Sets as values.
pub open spec fn set_views(sets: Seq<((String, Period), Vec<u32>)>) -> Seq<SetView> {
    Seq::new(sets.len(), |i: int| ((sets[i].0.0@, sets[i].0.1), sets[i].1@))
}

/// A membership to enter: an identifier and the positions of event and period.
pub type Due = (Seq<char>, u16, u16);

/// The most names, and the most periods, that a position of 16 bits can tell
/// apart.
pub const MAX_POSITIONS: usize = 65536;

/// The periods of sets, each once, in the order of their first occurrence.
pub open spec fn periods_in(sets: Seq<SetView>) -> Seq<Period>
    decreases sets.len(),
{
    if sets.len() == 0 {
        Seq::empty()
    } else {
        let front = periods_in(sets.drop_last());
        if front.contains(sets.last().0.1) {
            front
        } else {
            front.push(sets.last().0.1)
        }
    }
}

/// The memberships of one set: its members that the dictionary resolves, in
/// order. A set of an event without a name has none.
pub open spec fn due_of(
    d: DictView,
    names: Seq<Seq<char>>,
    periods: Seq<Period>,
    set: SetView,
) -> Seq<Due> {
    match (names.index_of_first(set.0.0), periods.index_of_first(set.0.1)) {
        (Some(e), Some(p)) => Seq::new(
            resolved_pairs(d, set.1).len(),
            |i: int| (resolved_pairs(d, set.1)[i].1, e as u16, p as u16),
        ),
        _ => Seq::empty(),
    }
}

/// The memberships of all sets.
pub open spec fn all_due(
    d: DictView,
    names: Seq<Seq<char>>,
    periods: Seq<Period>,
    sets: Seq<SetView>,
) -> Seq<Due>
    decreases sets.len(),
{
    if sets.len() == 0 {
        Seq::empty()
    } else {
        all_due(d, names, periods, sets.drop_last()) + due_of(d, names, periods, sets.last())
    }
}

/// Whether rows were staged for exactly the given memberships, in order.
pub open spec fn staged(rows: Seq<StagedRow>, due: Seq<Due>) -> bool {
    &&& rows.len() == due.len()
    &&& forall|k: int|
        0 <= k < rows.len() ==> is_row_of(#[trigger] rows[k], due[k].0, due[k].1, due[k].2)
}

proof fn lemma_staged_push(before: Seq<StagedRow>, after: Seq<StagedRow>, due: Seq<Due>, x: Due)
    requires
        staged(before, due),
        after.len() == before.len() + 1,
        after.drop_last() == before,
        is_row_of(after.last(), x.0, x.1, x.2),
    ensures
        staged(after, due.push(x)),
{
    assert forall|k: int| 0 <= k < after.len() implies is_row_of(
        #[trigger] after[k],
        due.push(x)[k].0,
        due.push(x)[k].1,
        due.push(x)[k].2,
    ) by {
        if k < before.len() {
            assert(after.drop_last()[k] == before[k]);
        }
    }
}

proof fn lemma_first_index<T>(s: Seq<T>, x: T, i: int)
    requires
        0 <= i < s.len(),
        s[i] == x,
        forall|k: int| 0 <= k < i ==> s[k] != x,
    ensures
        s.index_of_first(x) == Some(i),
{
    s.index_of_first_ensures(x);
    assert(s.contains(x));
}

proof fn lemma_due_grows(
    d: DictView,
    names: Seq<Seq<char>>,
    periods: Seq<Period>,
    sets: Seq<SetView>,
    n: int,
)
    requires
        0 <= n <= sets.len(),
    ensures
        all_due(d, names, periods, sets.subrange(0, n)).len() <= all_due(
            d,
            names,
            periods,
            sets,
        ).len(),
    decreases sets.len() - n,
{
    if n < sets.len() {
        assert(sets.subrange(0, n + 1).drop_last() =~= sets.subrange(0, n));
        lemma_due_grows(d, names, periods, sets, n + 1);
    } else {
        assert(sets.subrange(0, n) =~= sets);
    }
}

fn period_position(periods: &Vec<Period>, period: Period) -> (r: Option<usize>)
    ensures
        match r {
            Some(i) => i < periods@.len() && periods@.index_of_first(period) == Some(i as int),
            None => !periods@.contains(period) && periods@.index_of_first(period) is None,
        },
{
    let mut i: usize = 0;
    while i < periods.len()
        invariant
            i <= periods@.len(),
            forall|k: int| 0 <= k < i ==> periods@[k] != period,
        decreases periods@.len() - i,
    {
        if periods[i] == period {
            proof {
                lemma_first_index(periods@, period, i as int);
            }
            return Some(i);
        }
        i = i + 1;
    }
    proof {
        periods@.index_of_first_ensures(period);
    }
    None
}

fn name_position(names: &Vec<String>, name: &str) -> (r: Option<usize>)
    ensures
        match r {
            Some(i) => i < names@.len() && texts(names@).index_of_first(name@) == Some(i as int),
            None => texts(names@).index_of_first(name@) is None,
        },
{
    let r = position_in(names, name);
    proof {
        texts(names@).index_of_first_ensures(name@);
        if let Some(i) = r {
            assert forall|k: int| 0 <= k < i implies texts(names@)[k] != name@ by {
                assert(names@[k]@ != name@);
            }
            lemma_first_index(texts(names@), name@, i as int);
        }
    }
    r
}

/// Returns the periods of sets, each once, in the order of their first
/// occurrence.
fn index_periods(sets: &Vec<((String, Period), Vec<u32>)>) -> (r: Vec<Period>)
    ensures
        r@ == periods_in(set_views(sets@)),
{
    let mut periods: Vec<Period> = Vec::new();
    let ghost all = set_views(sets@);
    let mut i: usize = 0;
    assert(all.subrange(0, 0) =~= Seq::empty());
    while i < sets.len()
        invariant
            i <= sets@.len(),
            all == set_views(sets@),
            periods@ == periods_in(all.subrange(0, i as int)),
        decreases sets@.len() - i,
    {
        proof {
            let upto = all.subrange(0, i + 1);
            assert(upto.drop_last() =~= all.subrange(0, i as int));
            assert(upto.last() == all[i as int]);
            periods@.index_of_first_ensures(sets@[i as int].0.1);
        }
        let period = sets[i].0.1;
        if period_position(&periods, period).is_none() {
            periods.push(period);
        }
        i = i + 1;
    }
    assert(all.subrange(0, i as int) =~= all);
    periods
}

fn copy_names(names: &Vec<String>) -> (r: Vec<String>)
    ensures
        texts(r@) == texts(names@),
{
    let mut out: Vec<String> = Vec::new();
    let mut i: usize = 0;
    while i < names.len()
        invariant
            i <= names@.len(),
            out@.len() == i,
            forall|k: int| 0 <= k < i ==> (#[trigger] out@[k])@ == names@[k]@,
        decreases names@.len() - i,
    {
        out.push(names[i].clone());
        i = i + 1;
    }
    assert(texts(out@) =~= texts(names@));
    out
}

fn copy_periods(periods: &Vec<Period>) -> (r: Vec<Period>)
    ensures
        r@ == periods@,
{
    let mut out: Vec<Period> = Vec::new();
    let mut i: usize = 0;
    while i < periods.len()
        invariant
            i <= periods@.len(),
            out@ =~= periods@.subrange(0, i as int),
        decreases periods@.len() - i,
    {
        out.push(periods[i]);
        i = i + 1;
    }
    assert(out@ =~= periods@);
    out
}

/// The error for more events or periods than positions can tell apart.
pub open spec fn too_many_positions() -> ErrorView {
    ErrorView::Configuration("too many events or periods to index"@)
}

/// The error for more memberships than the index can count.
pub open spec fn too_many_memberships() -> ErrorView {
    ErrorView::Configuration("too many memberships to index"@)
}

/// Stages the rows of the inverted index: one for each member of each set that
/// the dictionary resolves. The result is ready to be built.
pub fn index_rows(
    catalog: &Catalog,
    names: &Vec<String>,
    sets: &Vec<((String, Period), Vec<u32>)>,
) -> (r: Result<InvertedIndexBuilder, InoxSetError>)
    requires
        catalog.wf(),
    ensures
        ({
            let views = set_views(sets@);
            let periods = periods_in(views);
            let due = all_due(dict_in(catalog@), texts(names@), periods, views);
            if names@.len() > MAX_POSITIONS || periods.len() > MAX_POSITIONS {
                r matches Err(e) && e@ == too_many_positions()
            } else if due.len() > u32::MAX {
                r matches Err(e) && e@ == too_many_memberships()
            } else {
                r matches Ok(b) && texts(b.tables().event_names@) == texts(names@)
                    && b.tables().periods@ == periods && staged(b.rows(), due)
            }
        }),
{
    let periods = index_periods(sets);
    if names.len() > MAX_POSITIONS || periods.len() > MAX_POSITIONS {
        return Err(InoxSetError::Configuration("too many events or periods to index".to_owned()));
    }
    let ghost d = dict_in(catalog@);
    let ghost views = set_views(sets@);
    let ghost known = texts(names@);
    let ghost places = periods@;
    let mut builder = InvertedIndexBuilder::new(copy_names(names), copy_periods(&periods));
    let ghost tables = builder.tables();
    let mut count: u64 = 0;
    let mut i: usize = 0;
    assert(views.subrange(0, 0) =~= Seq::empty());
    while i < sets.len()
        invariant
            i <= sets@.len(),
            catalog.wf(),
            d == dict_in(catalog@),
            views == set_views(sets@),
            known == texts(names@),
            names@.len() <= MAX_POSITIONS,
            places == periods@,
            places == periods_in(views),
            places.len() <= MAX_POSITIONS,
            builder.tables() == tables,
            count == builder.rows().len(),
            count <= u32::MAX,
            staged(builder.rows(), all_due(d, known, places, views.subrange(0, i as int))),
        decreases sets@.len() - i,
    {
        let set = &sets[i];
        let ghost front = all_due(d, known, places, views.subrange(0, i as int));
        let ghost own = due_of(d, known, places, views[i as int]);
        proof {
            let upto = views.subrange(0, i + 1);
            assert(upto.drop_last() =~= views.subrange(0, i as int));
            assert(upto.last() == views[i as int]);
        }
        match (name_position(names, set.0.0.as_str()), period_position(&periods, set.0.1)) {
            (Some(e), Some(p)) => {
                let pairs = batch_reverse_lookup_u32(catalog, set.1.as_slice());
                let ghost resolved_here = resolved_pairs(d, set.1@);
                let mut j: usize = 0;
                assert(front + own.subrange(0, 0) =~= front);
                while j < pairs.len()
                    invariant
                        i < sets@.len(),
                        j <= pairs@.len(),
                        pair_texts(pairs@) == resolved_here,
                        resolved_here == resolved_pairs(d, views[i as int].1),
                        known.index_of_first(views[i as int].0.0) == Some(e as int),
                        places.index_of_first(views[i as int].0.1) == Some(p as int),
                        e < MAX_POSITIONS,
                        p < MAX_POSITIONS,
                        own == due_of(d, known, places, views[i as int]),
                        front == all_due(d, known, places, views.subrange(0, i as int)),
                        builder.tables() == tables,
                        count == builder.rows().len(),
                        count <= u32::MAX,
                        staged(builder.rows(), front + own.subrange(0, j as int)),
                        all_due(d, known, places, views.subrange(0, i + 1)) == front + own,
                        places == periods_in(views),
                        d == dict_in(catalog@),
                        views == set_views(sets@),
                        known == texts(names@),
                        names@.len() <= MAX_POSITIONS,
                        places.len() <= MAX_POSITIONS,
                    decreases pairs@.len() - j,
                {
                    if count == u32::MAX as u64 {
                        proof {
                            lemma_due_grows(d, known, places, views, i + 1);
                        }
                        return Err(
                            InoxSetError::Configuration("too many memberships to index".to_owned()),
                        );
                    }
                    let ghost before = builder.rows();
                    builder.add(pairs[j].1.as_str(), e as u16, p as u16);
                    proof {
                        let done = front + own.subrange(0, j as int);
                        assert(pair_texts(pairs@)[j as int].1 == pairs@[j as int].1@);
                        lemma_staged_push(before, builder.rows(), done, own[j as int]);
                        assert(done.push(own[j as int]) =~= front + own.subrange(0, j + 1));
                    }
                    count = count + 1;
                    j = j + 1;
                }
                assert(own.subrange(0, j as int) =~= own);
            },
            _ => {
                assert(front + own =~= front);
            },
        }
        i = i + 1;
    }
    assert(views.subrange(0, i as int) =~= views);
    Ok(builder)
}

// ---------------------------------------------------------------------------
// Laws
// ---------------------------------------------------------------------------

proof fn lemma_periods_in(sets: Seq<SetView>, k: int)
    requires
        0 <= k < sets.len(),
    ensures
        periods_in(sets).contains(sets[k].0.1),
    decreases sets.len(),
{
    let front = periods_in(sets.drop_last());
    let last = sets.last().0.1;
    if k < sets.len() - 1 {
        lemma_periods_in(sets.drop_last(), k);
        let m = choose|m: int| 0 <= m < front.len() && front[m] == sets[k].0.1;
        assert(periods_in(sets)[m] == sets[k].0.1);
    } else if !front.contains(last) {
        assert(front.push(last)[front.len() as int] == last);
    }
}

proof fn lemma_resolved_pairs(d: DictView, ids: Seq<u32>, pair: (u32, Seq<char>))
    ensures
        resolved_pairs(d, ids).contains(pair) <==> ids.contains(pair.0) && resolved(d, pair.0)
            == Some(pair.1),
    decreases ids.len(),
{
    if ids.len() > 0 {
        let init = ids.drop_last();
        let front = resolved_pairs(d, init);
        let whole = resolved_pairs(d, ids);
        lemma_resolved_pairs(d, init, pair);
        if front.contains(pair) {
            let m = choose|m: int| 0 <= m < front.len() && front[m] == pair;
            assert(whole[m] == pair);
            let k = choose|k: int| 0 <= k < init.len() && init[k] == pair.0;
            assert(ids[k] == pair.0);
        }
        if whole.contains(pair) && !front.contains(pair) {
            let m = choose|m: int| 0 <= m < whole.len() && whole[m] == pair;
            if m < front.len() {
                assert(front[m] == pair);
            }
            assert(ids[ids.len() - 1] == pair.0);
        }
        if ids.contains(pair.0) && resolved(d, pair.0) == Some(pair.1) {
            let k = choose|k: int| 0 <= k < ids.len() && ids[k] == pair.0;
            if k < init.len() {
                assert(init[k] == pair.0);
            } else {
                assert(whole[whole.len() - 1] == pair);
            }
        }
    }
}

proof fn lemma_all_due(
    d: DictView,
    names: Seq<Seq<char>>,
    periods: Seq<Period>,
    sets: Seq<SetView>,
    x: Due,
)
    ensures
        all_due(d, names, periods, sets).contains(x) <==> exists|k: int|
            0 <= k < sets.len() && due_of(d, names, periods, #[trigger] sets[k]).contains(x),
    decreases sets.len(),
{
    if sets.len() > 0 {
        let init = sets.drop_last();
        let front = all_due(d, names, periods, init);
        let own = due_of(d, names, periods, sets.last());
        let whole = front + own;
        lemma_all_due(d, names, periods, init, x);
        if whole.contains(x) {
            let m = choose|m: int| 0 <= m < whole.len() && whole[m] == x;
            if m < front.len() {
                assert(front[m] == x);
                let k = choose|k: int|
                    0 <= k < init.len() && due_of(d, names, periods, #[trigger] init[k]).contains(
                        x,
                    );
                assert(sets[k] == init[k]);
            } else {
                assert(own[m - front.len()] == x);
                assert(sets[sets.len() - 1] == sets.last());
            }
        }
        if exists|k: int|
            0 <= k < sets.len() && due_of(d, names, periods, #[trigger] sets[k]).contains(x) {
            let k = choose|k: int|
                0 <= k < sets.len() && due_of(d, names, periods, #[trigger] sets[k]).contains(x);
            if k < init.len() {
                assert(init[k] == sets[k]);
                let m = choose|m: int| 0 <= m < front.len() && front[m] == x;
                assert(whole[m] == x);
            } else {
                let m = choose|m: int| 0 <= m < own.len() && own[m] == x;
                assert(whole[front.len() + m] == x);
            }
        }
    }
}

/// Whether an index was built from the rows that are staged for sets.
pub open spec fn indexes(
    index: InvertedIndex,
    rows: Seq<StagedRow>,
    d: DictView,
    names: Seq<Seq<char>>,
    sets: Seq<SetView>,
) -> bool {
    &&& built_from(index, rows)
    &&& staged(rows, all_due(d, names, periods_in(sets), sets))
    &&& texts(index.tables().event_names@) == names
    &&& index.tables().periods@ == periods_in(sets)
    &&& names.len() <= MAX_POSITIONS
    &&& periods_in(sets).len() <= MAX_POSITIONS
}

/// Every member of a set that the dictionary resolves is found under its
/// external identifier, with the event and the period of the set.
pub proof fn law_members_are_found(
    index: InvertedIndex,
    rows: Seq<StagedRow>,
    d: DictView,
    names: Seq<Seq<char>>,
    sets: Seq<SetView>,
    k: int,
    n: u32,
)
    requires
        indexes(index, rows, d, names, sets),
        0 <= k < sets.len(),
        names.contains(sets[k].0.0),
        sets[k].1.contains(n),
        resolved(d, n) is Some,
    ensures
        index.admits(resolved(d, n)->0),
        index.found(resolved(d, n)->0).contains(sets[k].0),
{
    let id = resolved(d, n)->0;
    let periods = periods_in(sets);
    let set = sets[k];
    lemma_periods_in(sets, k);
    names.index_of_first_ensures(set.0.0);
    periods.index_of_first_ensures(set.0.1);
    let e = names.index_of_first(set.0.0)->0;
    let p = periods.index_of_first(set.0.1)->0;
    lemma_resolved_pairs(d, set.1, (n, id));
    let pairs = resolved_pairs(d, set.1);
    let m = choose|m: int| 0 <= m < pairs.len() && pairs[m] == (n, id);
    let x = (id, e as u16, p as u16);
    let own = due_of(d, names, periods, sets[k]);
    assert(own[m] == x);
    let due = all_due(d, names, periods, sets);
    lemma_all_due(d, names, periods, sets, x);
    let r = choose|r: int| 0 <= r < due.len() && due[r] == x;
    assert(is_row_of(rows[r], id, e as u16, p as u16));
    law_added_is_found(index, rows, r, id, e as u16, p as u16);
    assert(texts(index.tables().event_names@)[e] == index.tables().event_names@[e]@);
}

/// Whatever is found for an identifier is the event and period of a set with a
/// member that the dictionary resolves to it, or to an identifier with the same
/// hash.
pub proof fn law_found_are_members(
    index: InvertedIndex,
    rows: Seq<StagedRow>,
    d: DictView,
    names: Seq<Seq<char>>,
    sets: Seq<SetView>,
    id: Seq<char>,
    found: EntryKey,
) -> (r: (int, u32))
    requires
        indexes(index, rows, d, names, sets),
        index.found(id).contains(found),
    ensures
        0 <= r.0 < sets.len(),
        sets[r.0].0 == found,
        sets[r.0].1.contains(r.1),
        resolved(d, r.1) is Some,
        long_hash(resolved(d, r.1)->0) == long_hash(id),
{
    let periods = periods_in(sets);
    let due = all_due(d, names, periods, sets);
    let at = law_found_was_added(index, rows, id, found);
    let x = due[at];
    assert(is_row_of(rows[at], x.0, x.1, x.2));
    assert(due.contains(x));
    lemma_all_due(d, names, periods, sets, x);
    let k = choose|k: int|
        0 <= k < sets.len() && due_of(d, names, periods, #[trigger] sets[k]).contains(x);
    let set = sets[k];
    let own = due_of(d, names, periods, set);
    let m = choose|m: int| 0 <= m < own.len() && own[m] == x;
    names.index_of_first_ensures(set.0.0);
    periods.index_of_first_ensures(set.0.1);
    let pair = resolved_pairs(d, set.1)[m];
    assert(resolved_pairs(d, set.1).contains(pair));
    lemma_resolved_pairs(d, set.1, pair);
    assert(pair.1 == x.0);
    assert(decoded(index.tables(), row_pair(rows[at])) == Some(found));
    let e = names.index_of_first(set.0.0)->0;
    assert(texts(index.tables().event_names@)[e] == index.tables().event_names@[e]@);
    (k, pair.0)
}

/// The periods of sets are each of those that occur, once.
pub proof fn law_periods_in(sets: Seq<SetView>, p: Period)
    ensures
        periods_in(sets).no_duplicates(),
        periods_in(sets).contains(p) <==> exists|k: int|
            0 <= k < sets.len() && (#[trigger] sets[k]).0.1 == p,
    decreases sets.len(),
{
    if sets.len() > 0 {
        let init = sets.drop_last();
        let front = periods_in(init);
        let last = sets.last().0.1;
        law_periods_in(init, p);
        law_periods_in(init, last);
        assert(sets[sets.len() - 1].0.1 == last);
        if front.contains(p) {
            let k = choose|k: int| 0 <= k < init.len() && (#[trigger] init[k]).0.1 == p;
            assert(sets[k].0.1 == p);
            let m = choose|m: int| 0 <= m < front.len() && front[m] == p;
            assert(periods_in(sets)[m] == p);
        }
        if exists|k: int| 0 <= k < sets.len() && (#[trigger] sets[k]).0.1 == p {
            lemma_periods_in(sets, choose|k: int|
                0 <= k < sets.len() && (#[trigger] sets[k]).0.1 == p);
        }
        if periods_in(sets).contains(p) && !front.contains(p) {
            let m = choose|m: int|
                0 <= m < periods_in(sets).len() && periods_in(sets)[m] == p;
            if m < front.len() {
                assert(front[m] == p);
            }
        }
    }
}

/// Every member of a set that the dictionary resolves gives one row, in order, with
/// its identifier and the positions of the event and the period; others give none.
pub proof fn law_rows_of_one_set(
    d: DictView,
    names: Seq<Seq<char>>,
    periods: Seq<Period>,
    set: SetView,
    i: int,
)
    requires
        names.len() <= 65536,
        periods.len() <= 65536,
        periods.contains(set.0.1),
    ensures
        ({
            let due = due_of(d, names, periods, set);
            let known = set.1.filter(|n: u32| d.rev.dom().contains(n as u64));
            &&& !names.contains(set.0.0) ==> due.len() == 0
            &&& names.contains(set.0.0) ==> due.len() == known.len()
            &&& 0 <= i < due.len() ==> {
                &&& due[i].0 == d.rev[known[i] as u64]
                &&& names[due[i].1 as int] == set.0.0
                &&& periods[due[i].2 as int] == set.0.1
            }
        }),
{
    names.index_of_first_ensures(set.0.0);
    periods.index_of_first_ensures(set.0.1);
    crate::dict::law_resolved_lists(d, set.1, i);
    let pairs = resolved_pairs(d, set.1);
    let numbers = pairs.map_values(|pair: (u32, Seq<char>)| pair.0);
    assert(numbers.len() == pairs.len());
    if 0 <= i < pairs.len() {
        assert(numbers[i] == pairs[i].0);
    }
}

/// The rows of sets are those of the first ones followed by those of the rest.
pub proof fn law_rows_of_sets(
    d: DictView,
    names: Seq<Seq<char>>,
    periods: Seq<Period>,
    a: Seq<SetView>,
    b: Seq<SetView>,
)
    ensures
        all_due(d, names, periods, a + b) == all_due(d, names, periods, a) + all_due(
            d,
            names,
            periods,
            b,
        ),
        a.len() == 0 ==> all_due(d, names, periods, a).len() == 0,
        a.len() == 1 ==> all_due(d, names, periods, a) == due_of(d, names, periods, a[0]),
    decreases b.len(),
{
    if a.len() == 1 {
        assert(a.drop_last() =~= Seq::empty());
        assert(all_due(d, names, periods, a.drop_last()) =~= Seq::empty());
        assert(all_due(d, names, periods, a) =~= due_of(d, names, periods, a[0]));
    }
    if b.len() == 0 {
        assert(a + b =~= a);
        assert(all_due(d, names, periods, a) + all_due(d, names, periods, b) =~= all_due(
            d,
            names,
            periods,
            a,
        ));
    } else {
        law_rows_of_sets(d, names, periods, a, b.drop_last());
        assert((a + b).drop_last() =~= a + b.drop_last());
        assert((a + b).last() == b.last());
        assert(all_due(d, names, periods, a + b) =~= all_due(d, names, periods, a) + all_due(
            d,
            names,
            periods,
            b,
        ));
    }
}

/// Sets are seen place by place.
pub proof fn law_set_views(sets: Seq<((String, Period), Vec<u32>)>, i: int)
    ensures
        set_views(sets).len() == sets.len(),
        0 <= i < sets.len() ==> set_views(sets)[i] == ((sets[i].0.0@, sets[i].0.1), sets[i].1@),
{
}

/// Rows are staged for memberships one by one.
pub proof fn law_staged(rows: Seq<StagedRow>, due: Seq<Due>, k: int)
    requires
        staged(rows, due),
    ensures
        rows.len() == due.len(),
        0 <= k < rows.len() ==> is_row_of(rows[k], due[k].0, due[k].1, due[k].2),
{
}

/// What is said where the index cannot hold what it should.
pub proof fn law_index_limits()
    ensures
        MAX_POSITIONS == 65536,
        too_many_positions() == ErrorView::Configuration("too many events or periods to index"@),
        too_many_memberships() == ErrorView::Configuration("too many memberships to index"@),
{
}

} // verus!
