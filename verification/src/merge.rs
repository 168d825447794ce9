//! Compaction: data parts and delta parts become one bitmap.
//!
//! Part identifiers grow in write order. Parts are applied in ascending order
//! of identifier: a data part adds its members, a delta part removes its own.
//! So a deletion only reaches what was written before it, and a value written
//! again later survives.

use vstd::prelude::*;

use roaring::RoaringBitmap;

use crate::bitmap::{
    canonical, compact, deserialized, keys_ascend, members, ordered, subtract, union_with,
    without_runs,
};
use crate::error::InoxSetError;
use crate::part_store::{corrupted, decode_part, has_ascending_keys, has_no_runs, round_trip};

verus! {

/// One part in the order of application.
#[derive(Debug, Clone, Copy, PartialEq, Eq, Structural)]
pub struct Step {
    /// Identifier of the part.
    pub id: u64,
    /// Whether the part holds deletions.
    pub is_delta: bool,
    /// Position of the part among the data parts, or among the delta parts.
    pub index: usize,
}

/// The steps of a list of parts, in the order of the list.
pub open spec fn steps_of(ids: Seq<u64>, is_delta: bool) -> Seq<Step> {
    Seq::new(ids.len(), |i: int| Step { id: ids[i], is_delta, index: i as usize })
}

/// Steps with one more, placed behind all steps with no larger identifier.
pub open spec fn insert_step(steps: Seq<Step>, step: Step) -> Seq<Step>
    decreases steps.len(),
{
    if steps.len() == 0 || steps.last().id <= step.id {
        steps.push(step)
    } else {
        insert_step(steps.drop_last(), step).push(steps.last())
    }
}

/// Steps in ascending order of identifier. Steps with one identifier keep their
/// order.
pub open spec fn sort_steps(steps: Seq<Step>) -> Seq<Step>
    decreases steps.len(),
{
    if steps.len() == 0 {
        steps
    } else {
        insert_step(sort_steps(steps.drop_last()), steps.last())
    }
}

/// The order in which parts are applied.
pub open spec fn order_of(data_ids: Seq<u64>, delta_ids: Seq<u64>) -> Seq<Step> {
    sort_steps(steps_of(data_ids, false) + steps_of(delta_ids, true))
}

/// What is left after steps are applied in turn to the empty set.
pub open spec fn applied(steps: Seq<Step>, content: spec_fn(Step) -> Set<u32>) -> Set<u32>
    decreases steps.len(),
{
    if steps.len() == 0 {
        Set::empty()
    } else {
        let before = applied(steps.drop_last(), content);
        if steps.last().is_delta {
            before.difference(content(steps.last()))
        } else {
            before.union(content(steps.last()))
        }
    }
}

fn insert_sorted(steps: &mut Vec<Step>, step: Step)
    ensures
        final(steps)@ == insert_step(old(steps)@, step),
{
    let mut at: usize = steps.len();
    let ghost whole = steps@;
    let ghost tail = Seq::<Step>::empty();
    assert(insert_step(whole.subrange(0, at as int), step) + tail =~= insert_step(whole, step)) by {
        assert(whole.subrange(0, at as int) =~= whole);
    }
    while at > 0 && steps[at - 1].id > step.id
        invariant
            at <= steps@.len(),
            steps@ == whole,
            tail == whole.subrange(at as int, whole.len() as int),
            insert_step(whole.subrange(0, at as int), step) + tail == insert_step(whole, step),
        decreases at,
    {
        proof {
            let here = whole.subrange(0, at as int);
            assert(here.drop_last() =~= whole.subrange(0, at - 1));
            assert(here.last() == whole[at - 1]);
            let longer = whole.subrange(at - 1, whole.len() as int);
            assert(insert_step(here.drop_last(), step) + longer =~= insert_step(here, step) + tail);
            tail = longer;
        }
        at = at - 1;
    }
    assert(insert_step(whole.subrange(0, at as int), step) =~= whole.subrange(0, at as int).push(
        step,
    ));
    steps.insert(at, step);
    assert(steps@ =~= insert_step(whole, step));
}

/// Returns the order in which data parts and delta parts with these
/// identifiers are applied.
pub fn merge_order(data_ids: &Vec<u64>, delta_ids: &Vec<u64>) -> (r: Vec<Step>)
    ensures
        r@ == order_of(data_ids@, delta_ids@),
{
    let mut steps: Vec<Step> = Vec::new();
    let ghost all = steps_of(data_ids@, false) + steps_of(delta_ids@, true);
    let mut i: usize = 0;
    assert(all.subrange(0, 0) =~= Seq::empty());
    while i < data_ids.len()
        invariant
            i <= data_ids@.len(),
            all == steps_of(data_ids@, false) + steps_of(delta_ids@, true),
            steps@ == sort_steps(all.subrange(0, i as int)),
        decreases data_ids@.len() - i,
    {
        let step = Step { id: data_ids[i], is_delta: false, index: i };
        proof {
            let upto = all.subrange(0, i + 1);
            assert(upto.drop_last() =~= all.subrange(0, i as int));
            assert(upto.last() == step);
        }
        insert_sorted(&mut steps, step);
        i = i + 1;
    }
    let mut j: usize = 0;
    while j < delta_ids.len()
        invariant
            j <= delta_ids@.len(),
            all == steps_of(data_ids@, false) + steps_of(delta_ids@, true),
            steps@ == sort_steps(all.subrange(0, data_ids@.len() + j)),
        decreases delta_ids@.len() - j,
    {
        let step = Step { id: delta_ids[j], is_delta: true, index: j };
        proof {
            let upto = all.subrange(0, data_ids@.len() + j + 1);
            assert(upto.drop_last() =~= all.subrange(0, data_ids@.len() + j));
            assert(upto.last() == step);
        }
        insert_sorted(&mut steps, step);
        j = j + 1;
    }
    assert(all.subrange(0, data_ids@.len() + j) =~= all);
    steps
}

/// A merge under way. The caller fetches the part of each step in turn, so that
/// the first part that cannot be had or read ends the merge.
pub struct Merge {
    order: Vec<Step>,
    done: usize,
    merged: RoaringBitmap,
    ascending: bool,
    plain: bool,
}

impl Merge {
    /// All steps, in the order of application.
    pub closed spec fn order(self) -> Seq<Step> {
        self.order@
    }

    /// How many steps are applied.
    pub closed spec fn done(self) -> int {
        self.done as int
    }

    /// The members so far.
    pub closed spec fn set(self) -> Set<u32> {
        members(self.merged)
    }

    /// Whether the container keys of all parts so far ascended.
    pub closed spec fn is_ascending(self) -> bool {
        self.ascending
    }

    /// Whether no part so far had run containers.
    pub closed spec fn is_plain(self) -> bool {
        self.plain
    }

    /// The merged bitmap is in the shape that its parts give it.
    pub closed spec fn wf(self) -> bool {
        &&& self.done <= self.order@.len()
        &&& self.ascending ==> ordered(self.merged)
        &&& self.ascending && self.plain ==> compact(self.merged)
    }

    /// Starts with the empty set and the steps of parts with these identifiers.
    pub fn new(data_ids: &Vec<u64>, delta_ids: &Vec<u64>) -> (r: Merge)
        ensures
            r.wf(),
            r.order() == order_of(data_ids@, delta_ids@),
            r.done() == 0,
            r.is_ascending(),
            r.is_plain(),
            r.set() == Set::<u32>::empty(),
    {
        Merge {
            order: merge_order(data_ids, delta_ids),
            done: 0,
            merged: RoaringBitmap::new(),
            ascending: true,
            plain: true,
        }
    }

    /// Returns the next step, or `None` when all are applied.
    pub fn next_step(&self) -> (r: Option<Step>)
        requires
            self.wf(),
        ensures
            0 <= self.done() <= self.order().len(),
            r == if self.done() < self.order().len() {
                Some(self.order()[self.done()])
            } else {
                None
            },
    {
        if self.done < self.order.len() {
            Some(self.order[self.done])
        } else {
            None
        }
    }

    /// Applies the part of the next step, given as the bytes of its file. Bytes
    /// that are no bitmap are refused and change nothing. With container keys out
    /// of order the `roaring` crate promises nothing of the members.
    pub fn apply(&mut self, bytes: &[u8]) -> (r: Result<(), InoxSetError>)
        requires
            old(self).wf(),
            old(self).done() < old(self).order().len(),
        ensures
            final(self).wf(),
            final(self).order() == old(self).order(),
            r is Ok <==> deserialized(bytes@) is Some,
            match r {
                Ok(()) => {
                    &&& final(self).done() == old(self).done() + 1
                    &&& final(self).is_ascending() == (old(self).is_ascending() && keys_ascend(
                        bytes@,
                    ))
                    &&& final(self).is_plain() == (old(self).is_plain() && without_runs(bytes@))
                    &&& final(self).is_ascending() ==> final(self).set() == if old(
                        self,
                    ).order()[old(self).done()].is_delta {
                        old(self).set().difference(deserialized(bytes@)->0)
                    } else {
                        old(self).set().union(deserialized(bytes@)->0)
                    }
                },
                Err(e) => e@ == corrupted() && *final(self) == *old(self),
            },
    {
        let part = match decode_part(bytes) {
            Ok(b) => b,
            Err(e) => {
                return Err(e);
            },
        };
        let ascending = self.ascending && has_ascending_keys(bytes);
        let plain = self.plain && has_no_runs(bytes);
        let count: usize = self.order.len();
        if self.order[self.done].is_delta {
            subtract(&mut self.merged, &part);
        } else {
            union_with(&mut self.merged, &part);
        }
        assert(self.done < count);
        self.done = self.done + 1;
        self.ascending = ascending;
        self.plain = plain;
        Ok(())
    }

    /// Returns the members so far as they are.
    pub fn into_bitmap(self) -> (r: RoaringBitmap)
        requires
            self.wf(),
        ensures
            members(r) == self.set(),
            self.is_ascending() ==> ordered(r),
            self.is_ascending() && self.is_plain() ==> canonical(r),
    {
        self.merged
    }

    /// Returns the members so far in the most compact layout, which serializing
    /// and reading back gives.
    pub fn into_compact(self) -> (r: Result<RoaringBitmap, InoxSetError>)
        requires
            self.wf(),
        ensures
            r matches Ok(b) && canonical(b) && (self.is_ascending() ==> members(b) == self.set()),
    {
        round_trip(&self.merged)
    }
}

/// The bytes of the part of a step.
pub open spec fn step_bytes(
    data_parts: Seq<(u64, &[u8])>,
    delta_parts: Seq<(u64, &[u8])>,
    step: Step,
) -> Seq<u8> {
    if step.is_delta {
        delta_parts[step.index as int].1@
    } else {
        data_parts[step.index as int].1@
    }
}

/// The identifiers of parts.
pub open spec fn part_ids(parts: Seq<(u64, &[u8])>) -> Seq<u64> {
    Seq::new(parts.len(), |i: int| parts[i].0)
}

/// Whether every part is a bitmap.
pub open spec fn all_readable(parts: Seq<(u64, &[u8])>) -> bool {
    forall|i: int| 0 <= i < parts.len() ==> deserialized(#[trigger] parts[i].1@) is Some
}

/// Whether the container keys of every part ascend.
pub open spec fn all_ascend(parts: Seq<(u64, &[u8])>) -> bool {
    forall|i: int| 0 <= i < parts.len() ==> keys_ascend(#[trigger] parts[i].1@)
}

/// What is left after all parts are applied.
pub open spec fn merged_set(
    data_parts: Seq<(u64, &[u8])>,
    delta_parts: Seq<(u64, &[u8])>,
) -> Set<u32> {
    applied(
        order_of(part_ids(data_parts), part_ids(delta_parts)),
        |s: Step| deserialized(step_bytes(data_parts, delta_parts, s))->0,
    )
}

fn ids_of(parts: &Vec<(u64, &[u8])>) -> (r: Vec<u64>)
    ensures
        r@ == part_ids(parts@),
{
    let mut ids: Vec<u64> = Vec::new();
    let mut i: usize = 0;
    while i < parts.len()
        invariant
            i <= parts@.len(),
            ids@ =~= part_ids(parts@).subrange(0, i as int),
        decreases parts@.len() - i,
    {
        ids.push(parts[i].0);
        i = i + 1;
    }
    assert(ids@ =~= part_ids(parts@));
    ids
}

proof fn lemma_insert_step_members(steps: Seq<Step>, step: Step)
    ensures
        insert_step(steps, step).len() == steps.len() + 1,
        insert_step(steps, step).to_multiset() == steps.to_multiset().insert(step),
    decreases steps.len(),
{
    if steps.len() == 0 || steps.last().id <= step.id {
        vstd::seq_lib::to_multiset_build(steps, step);
    } else {
        let init = steps.drop_last();
        lemma_insert_step_members(init, step);
        vstd::seq_lib::to_multiset_build(insert_step(init, step), steps.last());
        vstd::seq_lib::to_multiset_build(init, steps.last());
        assert(init.push(steps.last()) =~= steps);
        assert(insert_step(steps, step).to_multiset() =~= steps.to_multiset().insert(step));
    }
}

/// Whether identifiers do not descend.
pub open spec fn ids_ascend(steps: Seq<Step>) -> bool {
    forall|i: int, j: int| 0 <= i < j < steps.len() ==> (#[trigger] steps[i]).id <= (#[trigger] steps[j]).id
}

proof fn lemma_insert_step_sorted(steps: Seq<Step>, step: Step)
    requires
        ids_ascend(steps),
    ensures
        ids_ascend(insert_step(steps, step)),
        forall|i: int|
            0 <= i < insert_step(steps, step).len() ==> (#[trigger] insert_step(steps, step)[i]).id
                <= step.id || steps.len() > 0 && insert_step(steps, step)[i].id <= steps.last().id,
    decreases steps.len(),
{
    if steps.len() == 0 || steps.last().id <= step.id {
        assert(ids_ascend(steps.push(step)));
    } else {
        let init = steps.drop_last();
        assert(ids_ascend(init)) by {
            assert forall|i: int, j: int| 0 <= i < j < init.len() implies (#[trigger] init[i]).id
                <= (#[trigger] init[j]).id by {
                assert(steps[i].id <= steps[j].id);
            }
        }
        lemma_insert_step_sorted(init, step);
        let inner = insert_step(init, step);
        let outer = inner.push(steps.last());
        assert forall|i: int, j: int| 0 <= i < j < outer.len() implies (#[trigger] outer[i]).id <= (
        #[trigger] outer[j]).id by {
            if j < inner.len() {
                assert(inner[i].id <= inner[j].id);
            } else {
                assert(inner[i].id <= step.id || init.len() > 0 && inner[i].id <= init.last().id);
                if init.len() > 0 {
                    assert(steps[init.len() - 1].id <= steps[steps.len() - 1].id);
                }
            }
        }
    }
}

/// Sorting keeps the steps and orders them by identifier.
pub proof fn law_sort_steps(steps: Seq<Step>)
    ensures
        ids_ascend(sort_steps(steps)),
        sort_steps(steps).len() == steps.len(),
        sort_steps(steps).to_multiset() == steps.to_multiset(),
    decreases steps.len(),
{
    if steps.len() > 0 {
        let init = steps.drop_last();
        law_sort_steps(init);
        lemma_insert_step_members(sort_steps(init), steps.last());
        lemma_insert_step_sorted(sort_steps(init), steps.last());
        vstd::seq_lib::to_multiset_build(init, steps.last());
        assert(init.push(steps.last()) =~= steps);
    }
}

/// Sorting keeps exactly the steps.
proof fn lemma_sorted_contains(steps: Seq<Step>, s: Step)
    ensures
        sort_steps(steps).contains(s) <==> steps.contains(s),
{
    law_sort_steps(steps);
    steps.to_multiset_ensures();
    sort_steps(steps).to_multiset_ensures();
    assert(sort_steps(steps).contains(s) <==> sort_steps(steps).to_multiset().count(s) > 0);
    assert(steps.contains(s) <==> steps.to_multiset().count(s) > 0);
}

/// Every step of an order names one of the parts.
pub proof fn lemma_order_members(data_ids: Seq<u64>, delta_ids: Seq<u64>, s: Step)
    requires
        data_ids.len() <= usize::MAX,
        delta_ids.len() <= usize::MAX,
    ensures
        order_of(data_ids, delta_ids).contains(s) <==> {
            let ids = if s.is_delta {
                delta_ids
            } else {
                data_ids
            };
            s.index < ids.len() && s.id == ids[s.index as int]
        },
{
    let a = steps_of(data_ids, false);
    let b = steps_of(delta_ids, true);
    lemma_sorted_contains(a + b, s);
    if (a + b).contains(s) {
        let k = choose|k: int| 0 <= k < (a + b).len() && (a + b)[k] == s;
        if k < a.len() {
            assert(a[k] == s);
        } else {
            assert(b[k - a.len()] == s);
        }
    }
    let ids = if s.is_delta {
        delta_ids
    } else {
        data_ids
    };
    if s.index < ids.len() && s.id == ids[s.index as int] {
        let k = if s.is_delta {
            a.len() + s.index as int
        } else {
            s.index as int
        };
        assert((a + b)[k] == s);
    }
}

/// Merges data parts and delta parts, given by identifier and file contents,
/// into one bitmap: in ascending order of identifier, data parts add and delta
/// parts remove. The result has the most compact layout. Any part that is no
/// bitmap fails the merge.
pub fn merge_parts(data_parts: &Vec<(u64, &[u8])>, delta_parts: &Vec<(u64, &[u8])>) -> (r: Result<
    RoaringBitmap,
    InoxSetError,
>)
    ensures
        r is Ok <==> all_readable(data_parts@) && all_readable(delta_parts@),
        match r {
            Ok(b) => {
                &&& canonical(b)
                &&& all_ascend(data_parts@) && all_ascend(delta_parts@) ==> members(b)
                    == merged_set(data_parts@, delta_parts@)
            },
            Err(e) => e@ == corrupted(),
        },
        r is Ok <==> (forall|i: int|
            0 <= i < data_parts@.len() ==> deserialized((#[trigger] data_parts@[i]).1@) is Some)
            && (forall|j: int|
            0 <= j < delta_parts@.len() ==> deserialized((#[trigger] delta_parts@[j]).1@) is Some),
        ids_differ(data_parts@, delta_parts@) && (forall|i: int|
            0 <= i < data_parts@.len() ==> keys_ascend((#[trigger] data_parts@[i]).1@)) && (forall|
            j: int,
        |
            0 <= j < delta_parts@.len() ==> keys_ascend((#[trigger] delta_parts@[j]).1@)) ==> (
        r matches Ok(b) ==> forall|v: u32| #[trigger]
            members(b).contains(v) <==> exists|i: int|
                #![trigger data_parts@[i]]
                0 <= i < data_parts@.len() && deserialized(data_parts@[i].1@)->0.contains(v)
                    && forall|j: int|
                    0 <= j < delta_parts@.len() && (#[trigger] delta_parts@[j]).0
                        > data_parts@[i].0 ==> !deserialized(delta_parts@[j].1@)->0.contains(v)),
{
    let data_ids = ids_of(data_parts);
    let delta_ids = ids_of(delta_parts);
    let data_count: usize = data_ids.len();
    let delta_count: usize = delta_ids.len();
    let ghost order = order_of(data_ids@, delta_ids@);
    let ghost content = |s: Step| deserialized(step_bytes(data_parts@, delta_parts@, s))->0;
    let ghost ascend = all_ascend(data_parts@) && all_ascend(delta_parts@);
    let mut merge = Merge::new(&data_ids, &delta_ids);
    assert(order.subrange(0, 0) =~= Seq::empty());
    loop
        invariant
            data_ids@ == part_ids(data_parts@),
            delta_ids@ == part_ids(delta_parts@),
            data_ids@.len() == data_count,
            delta_ids@.len() == delta_count,
            order == order_of(data_ids@, delta_ids@),
            content == |s: Step| deserialized(step_bytes(data_parts@, delta_parts@, s))->0,
            ascend == (all_ascend(data_parts@) && all_ascend(delta_parts@)),
            merge.wf(),
            merge.order() == order,
            0 <= merge.done() <= order.len(),
            ascend ==> merge.is_ascending() && merge.set() == applied(
                order.subrange(0, merge.done()),
                content,
            ),
            forall|k: int|
                0 <= k < merge.done() ==> deserialized(
                    step_bytes(data_parts@, delta_parts@, #[trigger] order[k]),
                ) is Some,
        ensures
            merge.done() == order.len(),
        decreases order.len() - merge.done(),
    {
        let step = match merge.next_step() {
            Some(step) => step,
            None => {
                break;
            },
        };
        proof {
            lemma_order_members(data_ids@, delta_ids@, step);
            assert(order.contains(order[merge.done()]));
            let upto = order.subrange(0, merge.done() + 1);
            assert(upto.drop_last() =~= order.subrange(0, merge.done()));
        }
        let bytes = if step.is_delta {
            delta_parts[step.index].1
        } else {
            data_parts[step.index].1
        };
        assert(bytes@ == step_bytes(data_parts@, delta_parts@, step));
        assert(ascend ==> keys_ascend(bytes@));
        match merge.apply(bytes) {
            Ok(()) => {},
            Err(e) => {
                return Err(e);
            },
        }
    }
    proof {
        assert(order.subrange(0, merge.done()) =~= order);
        assert forall|k: int| 0 <= k < data_parts@.len() implies deserialized(
            #[trigger] data_parts@[k].1@,
        ) is Some by {
            let s = Step { id: data_ids@[k], is_delta: false, index: k as usize };
            lemma_order_members(data_ids@, delta_ids@, s);
            let at = choose|at: int| 0 <= at < order.len() && order[at] == s;
            assert(deserialized(step_bytes(data_parts@, delta_parts@, order[at])) is Some);
        }
        assert forall|k: int| 0 <= k < delta_parts@.len() implies deserialized(
            #[trigger] delta_parts@[k].1@,
        ) is Some by {
            let s = Step { id: delta_ids@[k], is_delta: true, index: k as usize };
            lemma_order_members(data_ids@, delta_ids@, s);
            let at = choose|at: int| 0 <= at < order.len() && order[at] == s;
            assert(deserialized(step_bytes(data_parts@, delta_parts@, order[at])) is Some);
        }
    }
    proof {
        if ids_differ(data_parts@, delta_parts@) {
            assert forall|v: u32| #[trigger]
                merged_set(data_parts@, delta_parts@).contains(v) <==> exists|i: int|
                    #![trigger data_parts@[i]]
                    0 <= i < data_parts@.len() && deserialized(data_parts@[i].1@)->0.contains(v)
                        && forall|j: int|
                        0 <= j < delta_parts@.len() && (#[trigger] delta_parts@[j]).0
                            > data_parts@[i].0 ==> !deserialized(delta_parts@[j].1@)->0.contains(
                            v,
                        ) by {
                law_newer_deletions_only(data_parts@, delta_parts@, v);
            }
        }
    }
    merge.into_compact()
}

/// Whether a period with these numbers of parts is worth compacting.
pub open spec fn eligible(data_part_count: nat, delta_part_count: nat) -> bool {
    data_part_count > 1 || delta_part_count > 0
}

/// Returns whether a period has enough parts to be worth compacting: more than
/// one data part, or any delta part.
pub fn is_eligible(data_part_count: usize, delta_part_count: usize) -> (r: bool)
    ensures
        r == (data_part_count > 1 || delta_part_count > 0),
        r == eligible(data_part_count as nat, delta_part_count as nat),
{
    data_part_count > 1 || delta_part_count > 0
}

// ---------------------------------------------------------------------------
// Laws
// ---------------------------------------------------------------------------

/// Whether step `i` writes `v` and no later step deletes it.
pub open spec fn survives(
    steps: Seq<Step>,
    content: spec_fn(Step) -> Set<u32>,
    v: u32,
    i: int,
) -> bool {
    &&& 0 <= i < steps.len()
    &&& !steps[i].is_delta
    &&& content(steps[i]).contains(v)
    &&& forall|j: int|
        i < j < steps.len() && (#[trigger] steps[j]).is_delta ==> !content(steps[j]).contains(v)
}

/// A value is left exactly when some step writes it and no later step deletes
/// it.
pub proof fn law_last_write_wins(steps: Seq<Step>, content: spec_fn(Step) -> Set<u32>, v: u32)
    ensures
        applied(steps, content).contains(v) <==> exists|i: int| survives(steps, content, v, i),
    decreases steps.len(),
{
    if steps.len() > 0 {
        let init = steps.drop_last();
        let last = steps.last();
        law_last_write_wins(init, content, v);
        if applied(steps, content).contains(v) {
            if !last.is_delta && content(last).contains(v) {
                assert(survives(steps, content, v, steps.len() - 1));
            } else {
                let i = choose|i: int| survives(init, content, v, i);
                assert(survives(steps, content, v, i)) by {
                    assert forall|j: int|
                        i < j < steps.len() && (#[trigger] steps[j]).is_delta implies !content(
                        steps[j],
                    ).contains(v) by {
                        if j < init.len() {
                            assert(init[j] == steps[j]);
                        }
                    }
                }
            }
        }
        if exists|i: int| survives(steps, content, v, i) {
            let i = choose|i: int| survives(steps, content, v, i);
            if i < init.len() {
                assert(survives(init, content, v, i)) by {
                    assert forall|j: int|
                        i < j < init.len() && (#[trigger] init[j]).is_delta implies !content(
                        init[j],
                    ).contains(v) by {
                        assert(init[j] == steps[j]);
                    }
                }
                assert(steps[steps.len() - 1] == last);
            }
        }
    }
}

/// Whether no identifier occurs twice, in one list or in both.
pub open spec fn distinct_ids(data_ids: Seq<u64>, delta_ids: Seq<u64>) -> bool {
    (data_ids + delta_ids).no_duplicates()
}

proof fn lemma_order_strict(data_ids: Seq<u64>, delta_ids: Seq<u64>)
    requires
        data_ids.len() <= usize::MAX,
        delta_ids.len() <= usize::MAX,
        distinct_ids(data_ids, delta_ids),
    ensures
        ({
            let order = order_of(data_ids, delta_ids);
            forall|i: int, j: int|
                0 <= i < j < order.len() ==> (#[trigger] order[i]).id < (#[trigger] order[j]).id
        }),
{
    let all = steps_of(data_ids, false) + steps_of(delta_ids, true);
    let order = order_of(data_ids, delta_ids);
    law_sort_steps(all);
    let ids = data_ids + delta_ids;
    assert forall|i: int, j: int| 0 <= i < all.len() && 0 <= j < all.len() && i != j implies all[i]
        != all[j] by {
        assert(all[i].id == ids[i]);
        assert(all[j].id == ids[j]);
    }
    assert(all.no_duplicates());
    all.lemma_multiset_has_no_duplicates();
    order.lemma_multiset_has_no_duplicates_conv();
    assert forall|i: int, j: int| 0 <= i < j < order.len() implies (#[trigger] order[i]).id < (
    #[trigger] order[j]).id by {
        assert(order[i].id <= order[j].id);
        assert(order[i] != order[j]);
        assert(order.contains(order[i]));
        assert(order.contains(order[j]));
        lemma_order_members(data_ids, delta_ids, order[i]);
        lemma_order_members(data_ids, delta_ids, order[j]);
        let a = if order[i].is_delta {
            data_ids.len() + order[i].index as int
        } else {
            order[i].index as int
        };
        let b = if order[j].is_delta {
            data_ids.len() + order[j].index as int
        } else {
            order[j].index as int
        };
        assert(ids[a] == order[i].id);
        assert(ids[b] == order[j].id);
        assert(a != b);
    }
}

/// Compaction keeps exactly the values that some data part holds and no delta
/// part with a larger identifier deletes: a deletion reaches only older parts,
/// and what is written again later survives.
pub proof fn law_merge_by_age(
    data_ids: Seq<u64>,
    delta_ids: Seq<u64>,
    content: spec_fn(Step) -> Set<u32>,
    v: u32,
)
    requires
        data_ids.len() <= usize::MAX,
        delta_ids.len() <= usize::MAX,
        distinct_ids(data_ids, delta_ids),
    ensures
        applied(order_of(data_ids, delta_ids), content).contains(v) <==> exists|i: int|
            #![trigger data_ids[i]]
            0 <= i < data_ids.len() && content(
                Step { id: data_ids[i], is_delta: false, index: i as usize },
            ).contains(v) && forall|j: int|
                0 <= j < delta_ids.len() && #[trigger] delta_ids[j] > data_ids[i] ==> !content(
                    Step { id: delta_ids[j], is_delta: true, index: j as usize },
                ).contains(v),
{
    let order = order_of(data_ids, delta_ids);
    law_last_write_wins(order, content, v);
    lemma_order_strict(data_ids, delta_ids);
    if exists|k: int| survives(order, content, v, k) {
        let k = choose|k: int| survives(order, content, v, k);
        let s = order[k];
        assert(order.contains(s));
        lemma_order_members(data_ids, delta_ids, s);
        let i = s.index as int;
        assert(s == Step { id: data_ids[i], is_delta: false, index: i as usize });
        assert forall|j: int| 0 <= j < delta_ids.len() && #[trigger] delta_ids[j]
            > data_ids[i] implies !content(
            Step { id: delta_ids[j], is_delta: true, index: j as usize },
        ).contains(v) by {
            let t = Step { id: delta_ids[j], is_delta: true, index: j as usize };
            lemma_order_members(data_ids, delta_ids, t);
            let m = choose|m: int| 0 <= m < order.len() && order[m] == t;
            if m < k {
                assert(order[m].id < order[k].id);
            }
            assert(order[m].is_delta);
        }
    }
    if exists|i: int|
        #![trigger data_ids[i]]
        0 <= i < data_ids.len() && content(
            Step { id: data_ids[i], is_delta: false, index: i as usize },
        ).contains(v) && forall|j: int|
            0 <= j < delta_ids.len() && #[trigger] delta_ids[j] > data_ids[i] ==> !content(
                Step { id: delta_ids[j], is_delta: true, index: j as usize },
            ).contains(v) {
        let i = choose|i: int|
            #![trigger data_ids[i]]
            0 <= i < data_ids.len() && content(
                Step { id: data_ids[i], is_delta: false, index: i as usize },
            ).contains(v) && forall|j: int|
                0 <= j < delta_ids.len() && #[trigger] delta_ids[j] > data_ids[i] ==> !content(
                    Step { id: delta_ids[j], is_delta: true, index: j as usize },
                ).contains(v);
        let s = Step { id: data_ids[i], is_delta: false, index: i as usize };
        lemma_order_members(data_ids, delta_ids, s);
        let k = choose|k: int| 0 <= k < order.len() && order[k] == s;
        assert forall|m: int| k < m < order.len() && (#[trigger] order[m]).is_delta implies !content(
            order[m],
        ).contains(v) by {
            let t = order[m];
            assert(order.contains(t));
            lemma_order_members(data_ids, delta_ids, t);
            assert(order[k].id < order[m].id);
            assert(delta_ids[t.index as int] > data_ids[i]);
        }
        assert(survives(order, content, v, k));
    }
}

/// Without deletions, what is left is the union of all data parts.
pub proof fn law_without_deletions_union(
    data_ids: Seq<u64>,
    content: spec_fn(Step) -> Set<u32>,
    v: u32,
)
    requires
        data_ids.len() <= usize::MAX,
    ensures
        applied(order_of(data_ids, Seq::empty()), content).contains(v) <==> exists|i: int|
            #![trigger data_ids[i]]
            0 <= i < data_ids.len() && content(
                Step { id: data_ids[i], is_delta: false, index: i as usize },
            ).contains(v),
{
    let none = Seq::<u64>::empty();
    let order = order_of(data_ids, none);
    law_last_write_wins(order, content, v);
    assert forall|k: int| 0 <= k < order.len() implies !(#[trigger] order[k]).is_delta by {
        assert(order.contains(order[k]));
        lemma_order_members(data_ids, none, order[k]);
    }
    if exists|k: int| survives(order, content, v, k) {
        let k = choose|k: int| survives(order, content, v, k);
        assert(order.contains(order[k]));
        lemma_order_members(data_ids, none, order[k]);
        let i = order[k].index as int;
        assert(order[k] == Step { id: data_ids[i], is_delta: false, index: i as usize });
    }
    if exists|i: int|
        #![trigger data_ids[i]]
        0 <= i < data_ids.len() && content(
            Step { id: data_ids[i], is_delta: false, index: i as usize },
        ).contains(v) {
        let i = choose|i: int|
            #![trigger data_ids[i]]
            0 <= i < data_ids.len() && content(
                Step { id: data_ids[i], is_delta: false, index: i as usize },
            ).contains(v);
        let s = Step { id: data_ids[i], is_delta: false, index: i as usize };
        lemma_order_members(data_ids, none, s);
        let k = choose|k: int| 0 <= k < order.len() && order[k] == s;
        assert(survives(order, content, v, k));
    }
}

/// Compaction preserves the data: once older parts are replaced by one data
/// part that holds what they merge to, merging the rest gives the same as
/// before.
pub proof fn law_compaction_preserves(
    older: Seq<Step>,
    newer: Seq<Step>,
    compacted: Step,
    before: spec_fn(Step) -> Set<u32>,
    after: spec_fn(Step) -> Set<u32>,
)
    requires
        !compacted.is_delta,
        after(compacted) == applied(older, before),
        forall|k: int| 0 <= k < newer.len() ==> after(#[trigger] newer[k]) == before(newer[k]),
    ensures
        applied(seq![compacted] + newer, after) == applied(older + newer, before),
    decreases newer.len(),
{
    if newer.len() == 0 {
        assert(seq![compacted] + newer =~= seq![compacted]);
        assert(seq![compacted].drop_last() =~= Seq::<Step>::empty());
        assert(applied(seq![compacted].drop_last(), after) =~= Set::empty());
        assert(applied(seq![compacted], after) =~= after(compacted));
        assert(older + newer =~= older);
    } else {
        let init = newer.drop_last();
        assert forall|k: int| 0 <= k < init.len() implies after(#[trigger] init[k]) == before(
            init[k],
        ) by {
            assert(init[k] == newer[k]);
        }
        law_compaction_preserves(older, init, compacted, before, after);
        assert((seq![compacted] + newer).drop_last() =~= seq![compacted] + init);
        assert((older + newer).drop_last() =~= older + init);
        assert((seq![compacted] + newer).last() == newer.last());
        assert((older + newer).last() == newer.last());
        assert(newer[newer.len() - 1] == newer.last());
    }
}

/// A deletion leaves none of what it names, and nothing at all where it names
/// everything that was written.
pub proof fn law_delete_undoes_write(
    steps: Seq<Step>,
    content: spec_fn(Step) -> Set<u32>,
    delta: Step,
)
    requires
        delta.is_delta,
    ensures
        applied(steps.push(delta), content).disjoint(content(delta)),
        applied(steps, content).subset_of(content(delta)) ==> applied(steps.push(delta), content)
            == Set::<u32>::empty(),
{
    assert(steps.push(delta).drop_last() =~= steps);
    if applied(steps, content).subset_of(content(delta)) {
        assert(applied(steps.push(delta), content) =~= Set::<u32>::empty());
    }
}

/// Two deletions in a row are one deletion of both sets.
pub proof fn law_deletions_combine(
    steps: Seq<Step>,
    content: spec_fn(Step) -> Set<u32>,
    a: Step,
    b: Step,
    both: Step,
)
    requires
        a.is_delta,
        b.is_delta,
        both.is_delta,
        content(both) == content(a).union(content(b)),
    ensures
        applied(steps.push(a).push(b), content) == applied(steps.push(both), content),
{
    assert(steps.push(a).push(b).drop_last() =~= steps.push(a));
    assert(steps.push(a).drop_last() =~= steps);
    assert(steps.push(both).drop_last() =~= steps);
    let s = applied(steps, content);
    assert(applied(steps.push(a), content) == s.difference(content(a)));
    assert(applied(steps.push(a).push(b), content) == s.difference(content(a)).difference(
        content(b),
    ));
    assert(s.difference(content(a)).difference(content(b)) =~= s.difference(content(both)));
}

/// Whether no identifier occurs twice among the parts.
pub open spec fn ids_differ(
    data_parts: Seq<(u64, &[u8])>,
    delta_parts: Seq<(u64, &[u8])>,
) -> bool {
    &&& forall|i: int, j: int|
        0 <= i < j < data_parts.len() ==> (#[trigger] data_parts[i]).0 != (
        #[trigger] data_parts[j]).0
    &&& forall|i: int, j: int|
        0 <= i < j < delta_parts.len() ==> (#[trigger] delta_parts[i]).0 != (
        #[trigger] delta_parts[j]).0
    &&& forall|i: int, j: int|
        0 <= i < data_parts.len() && 0 <= j < delta_parts.len() ==> (#[trigger] data_parts[i]).0
            != (#[trigger] delta_parts[j]).0
}

/// A value is in the merge of parts exactly if some data part holds it and no
/// delta part with a larger identifier does: a deletion reaches only older data.
/// The identifiers are those that the parts were passed with.
pub proof fn law_newer_deletions_only(
    data_parts: Seq<(u64, &[u8])>,
    delta_parts: Seq<(u64, &[u8])>,
    v: u32,
)
    requires
        data_parts.len() <= usize::MAX,
        delta_parts.len() <= usize::MAX,
        forall|i: int, j: int|
            0 <= i < j < data_parts.len() ==> (#[trigger] data_parts[i]).0 != (
            #[trigger] data_parts[j]).0,
        forall|i: int, j: int|
            0 <= i < j < delta_parts.len() ==> (#[trigger] delta_parts[i]).0 != (
            #[trigger] delta_parts[j]).0,
        forall|i: int, j: int|
            0 <= i < data_parts.len() && 0 <= j < delta_parts.len() ==> (
            #[trigger] data_parts[i]).0 != (#[trigger] delta_parts[j]).0,
    ensures
        merged_set(data_parts, delta_parts).contains(v) <==> exists|i: int|
            #![trigger data_parts[i]]
            0 <= i < data_parts.len() && deserialized(data_parts[i].1@)->0.contains(v) && forall|
                j: int,
            |
                0 <= j < delta_parts.len() && (#[trigger] delta_parts[j]).0 > data_parts[i].0
                    ==> !deserialized(delta_parts[j].1@)->0.contains(v),
{
    let data_ids = part_ids(data_parts);
    let delta_ids = part_ids(delta_parts);
    let content = |s: Step| deserialized(step_bytes(data_parts, delta_parts, s))->0;
    let ids = data_ids + delta_ids;
    assert forall|a: int, b: int| 0 <= a < ids.len() && 0 <= b < ids.len() && a != b implies ids[a]
        != ids[b] by {
        let n = data_ids.len() as int;
        let (lo, hi) = if a < b {
            (a, b)
        } else {
            (b, a)
        };
        if hi < n {
            assert(data_parts[lo].0 != data_parts[hi].0);
        } else if lo >= n {
            assert(delta_parts[lo - n].0 != delta_parts[hi - n].0);
        } else {
            assert(data_parts[lo].0 != delta_parts[hi - n].0);
        }
    }
    law_merge_by_age(data_ids, delta_ids, content, v);
    if merged_set(data_parts, delta_parts).contains(v) {
        let i = choose|i: int|
            #![trigger data_ids[i]]
            0 <= i < data_ids.len() && content(
                Step { id: data_ids[i], is_delta: false, index: i as usize },
            ).contains(v) && forall|j: int|
                0 <= j < delta_ids.len() && #[trigger] delta_ids[j] > data_ids[i] ==> !content(
                    Step { id: delta_ids[j], is_delta: true, index: j as usize },
                ).contains(v);
        assert(deserialized(data_parts[i].1@)->0.contains(v));
        assert forall|j: int|
            0 <= j < delta_parts.len() && (#[trigger] delta_parts[j]).0
                > data_parts[i].0 implies !deserialized(delta_parts[j].1@)->0.contains(v) by {
            assert(delta_ids[j] > data_ids[i]);
        }
    }
    if exists|i: int|
        #![trigger data_parts[i]]
        0 <= i < data_parts.len() && deserialized(data_parts[i].1@)->0.contains(v) && forall|
            j: int,
        |
            0 <= j < delta_parts.len() && (#[trigger] delta_parts[j]).0 > data_parts[i].0
                ==> !deserialized(delta_parts[j].1@)->0.contains(v) {
        let i = choose|i: int|
            #![trigger data_parts[i]]
            0 <= i < data_parts.len() && deserialized(data_parts[i].1@)->0.contains(v) && forall|
                j: int,
            |
                0 <= j < delta_parts.len() && (#[trigger] delta_parts[j]).0 > data_parts[i].0
                    ==> !deserialized(delta_parts[j].1@)->0.contains(v);
        assert(content(Step { id: data_ids[i], is_delta: false, index: i as usize }).contains(v));
        assert forall|j: int| 0 <= j < delta_ids.len() && #[trigger] delta_ids[j]
            > data_ids[i] implies !content(
            Step { id: delta_ids[j], is_delta: true, index: j as usize },
        ).contains(v) by {
            assert(delta_parts[j].0 > data_parts[i].0);
        }
    }
}

/// Without delta parts a merge holds exactly what some data part holds, whatever
/// the identifiers.
pub proof fn law_merge_of_data_is_union(data_parts: Seq<(u64, &[u8])>, v: u32)
    requires
        data_parts.len() <= usize::MAX,
    ensures
        merged_set(data_parts, Seq::empty()).contains(v) <==> exists|i: int|
            0 <= i < data_parts.len() && deserialized((#[trigger] data_parts[i]).1@)->0.contains(v),
{
    let data_ids = part_ids(data_parts);
    let none = Seq::<(u64, &[u8])>::empty();
    let content = |s: Step| deserialized(step_bytes(data_parts, none, s))->0;
    assert(part_ids(none) =~= Seq::empty());
    law_without_deletions_union(data_ids, content, v);
    if merged_set(data_parts, none).contains(v) {
        let i = choose|i: int|
            #![trigger data_ids[i]]
            0 <= i < data_ids.len() && content(
                Step { id: data_ids[i], is_delta: false, index: i as usize },
            ).contains(v);
        assert(deserialized(data_parts[i].1@)->0.contains(v));
    }
    if exists|i: int|
        0 <= i < data_parts.len() && deserialized((#[trigger] data_parts[i]).1@)->0.contains(v) {
        let i = choose|i: int|
            0 <= i < data_parts.len() && deserialized((#[trigger] data_parts[i]).1@)->0.contains(v);
        assert(data_ids[i] == data_parts[i].0);
        assert(content(Step { id: data_ids[i], is_delta: false, index: i as usize }).contains(v));
    }
}

/// The order of application takes every part exactly once, older parts first.
pub proof fn law_order_takes_every_part_once(data_ids: Seq<u64>, delta_ids: Seq<u64>)
    requires
        data_ids.len() <= usize::MAX,
        delta_ids.len() <= usize::MAX,
    ensures
        ({
            let order = order_of(data_ids, delta_ids);
            &&& order.len() == data_ids.len() + delta_ids.len()
            &&& order.no_duplicates()
            &&& forall|a: int, b: int|
                0 <= a < b < order.len() ==> (#[trigger] order[a]).id <= (#[trigger] order[b]).id
            &&& forall|i: int|
                0 <= i < data_ids.len() ==> order.contains(
                    Step { id: #[trigger] data_ids[i], is_delta: false, index: i as usize },
                )
            &&& forall|i: int|
                0 <= i < delta_ids.len() ==> order.contains(
                    Step { id: #[trigger] delta_ids[i], is_delta: true, index: i as usize },
                )
        }),
{
    let all = steps_of(data_ids, false) + steps_of(delta_ids, true);
    let order = order_of(data_ids, delta_ids);
    law_sort_steps(all);
    assert forall|i: int, j: int| 0 <= i < all.len() && 0 <= j < all.len() && i != j implies all[i]
        != all[j] by {}
    assert(all.no_duplicates());
    all.lemma_multiset_has_no_duplicates();
    order.lemma_multiset_has_no_duplicates_conv();
    assert forall|i: int| 0 <= i < data_ids.len() implies order.contains(
        Step { id: #[trigger] data_ids[i], is_delta: false, index: i as usize },
    ) by {
        lemma_order_members(
            data_ids,
            delta_ids,
            Step { id: data_ids[i], is_delta: false, index: i as usize },
        );
    }
    assert forall|i: int| 0 <= i < delta_ids.len() implies order.contains(
        Step { id: #[trigger] delta_ids[i], is_delta: true, index: i as usize },
    ) by {
        lemma_order_members(
            data_ids,
            delta_ids,
            Step { id: delta_ids[i], is_delta: true, index: i as usize },
        );
    }
}

/// Nothing is left to gain from compacting a period exactly if it has no delta
/// part and at most one data part. More parts never make it less worthwhile.
pub proof fn law_eligible(data: nat, deltas: nat, more_data: nat, more_deltas: nat)
    ensures
        !eligible(data, deltas) <==> deltas == 0 && data <= 1,
        eligible(data, deltas) && data <= more_data && deltas <= more_deltas ==> eligible(
            more_data,
            more_deltas,
        ),
{
}

} // verus!
