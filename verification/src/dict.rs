//! The dictionary: external string identifiers and compact internal numbers.
//!
//! There is one dictionary for all events: an external identifier has the same
//! number everywhere. Numbers are given out in sequence from 0 and are never
//! given out again.

use vstd::prelude::*;
use vstd::arithmetic::power::pow;
use vstd::string::*;
use vstd::utf8::*;

use crate::catalog::{key_error, key_size_error, Catalog, CatalogView, MAX_KEY_LEN};
use crate::error::{ErrorView, InoxSetError};
use crate::order::texts;
use crate::text::str_eq;

verus! {

/// The dictionary's tables.
#[verifier::ext_equal]
pub struct DictView {
    pub fwd: Map<Seq<char>, u64>,
    pub rev: Map<u64, Seq<char>>,
    pub next: Option<u64>,
}

/// The dictionary in a catalog.
pub open spec fn dict_in(c: CatalogView) -> DictView {
    DictView { fwd: c.dict_fwd, rev: c.dict_rev, next: c.dict_next_id }
}

/// A catalog with another dictionary.
pub open spec fn with_dict(c: CatalogView, d: DictView) -> CatalogView {
    CatalogView { dict_fwd: d.fwd, dict_rev: d.rev, dict_next_id: d.next, ..c }
}

/// Why an identifier is refused.
pub enum DictFault {
    /// It is empty, or too long for a key.
    KeySize,
    /// All numbers have been given out.
    Exhausted,
}

/// The error of a fault.
pub open spec fn fault_error(f: DictFault) -> ErrorView {
    match f {
        DictFault::KeySize => key_error(),
        DictFault::Exhausted => ErrorView::Configuration(
            "global dictionary ID space exhausted (u32::MAX)"@,
        ),
    }
}

/// The number that a new identifier gets.
pub open spec fn next_of(d: DictView) -> u64 {
    match d.next {
        Some(n) => n,
        None => 0,
    }
}

/// The number of an identifier, if it has one.
pub open spec fn looked_up(d: DictView, id: Seq<char>) -> Option<u32> {
    if d.fwd.dom().contains(id) {
        Some(d.fwd[id] as u32)
    } else {
        None
    }
}

/// The identifier of a number, if there is one.
pub open spec fn resolved(d: DictView, n: u32) -> Option<Seq<char>> {
    if d.rev.dom().contains(n as u64) {
        Some(d.rev[n as u64])
    } else {
        None
    }
}

/// A dictionary with a new identifier.
pub open spec fn entered(d: DictView, id: Seq<char>) -> DictView {
    let n = next_of(d);
    DictView { fwd: d.fwd.insert(id, n), rev: d.rev.insert(n, id), next: Some((n + 1) as u64) }
}

/// The number of an identifier and the dictionary afterwards; a new identifier
/// gets the next number.
pub open spec fn assigned(d: DictView, id: Seq<char>) -> Result<(u32, DictView), DictFault> {
    if id.len() == 0 {
        Err(DictFault::KeySize)
    } else if d.fwd.dom().contains(id) {
        Ok((d.fwd[id] as u32, d))
    } else if next_of(d) > u32::MAX {
        Err(DictFault::Exhausted)
    } else if encode_utf8(id).len() > MAX_KEY_LEN {
        Err(DictFault::KeySize)
    } else {
        Ok((next_of(d) as u32, entered(d, id)))
    }
}

/// The numbers of identifiers, taken one after the other, and the dictionary
/// afterwards.
pub open spec fn assigned_in_turn(d: DictView, ids: Seq<Seq<char>>) -> Result<
    (Seq<u32>, DictView),
    DictFault,
>
    decreases ids.len(),
{
    if ids.len() == 0 {
        Ok((Seq::empty(), d))
    } else {
        match assigned_in_turn(d, ids.drop_last()) {
            Err(f) => Err(f),
            Ok((front, mid)) => match assigned(mid, ids.last()) {
                Err(f) => Err(f),
                Ok((n, after)) => Ok((front.push(n), after)),
            },
        }
    }
}

/// Whether some identifier is empty.
pub open spec fn any_empty(ids: Seq<Seq<char>>) -> bool {
    exists|i: int| 0 <= i < ids.len() && (#[trigger] ids[i]).len() == 0
}

/// The numbers of a batch. All identifiers are looked up before any is entered,
/// so an empty one fails the batch at once.
pub open spec fn batch_assigned(d: DictView, ids: Seq<Seq<char>>) -> Result<
    (Seq<u32>, DictView),
    DictFault,
> {
    if any_empty(ids) {
        Err(DictFault::KeySize)
    } else {
        assigned_in_turn(d, ids)
    }
}

/// A dictionary without an identifier and its number.
pub open spec fn deleted(d: DictView, id: Seq<char>) -> DictView {
    if d.fwd.dom().contains(id) {
        DictView {
            fwd: d.fwd.remove(id),
            rev: d.rev.remove((d.fwd[id] as u32) as u64),
            next: d.next,
        }
    } else {
        d
    }
}

/// Whether an operation on the dictionary gave the value and the dictionary
/// that are specified, or failed and left the catalog as it was.
pub open spec fn enters_as<T, V>(
    before: CatalogView,
    r: Result<T, InoxSetError>,
    after: CatalogView,
    value: spec_fn(T) -> V,
    expected: Result<(V, DictView), DictFault>,
) -> bool {
    match (r, expected) {
        (Ok(v), Ok((w, d))) => value(v) == w && after == with_dict(before, d),
        (Err(e), Err(f)) => e@ == fault_error(f) && after == before,
        _ => false,
    }
}

/// Strings as texts.
pub open spec fn str_texts(v: Seq<&str>) -> Seq<Seq<char>> {
    Seq::new(v.len(), |i: int| v[i]@)
}

fn exhausted_error() -> (r: InoxSetError)
    ensures
        r@ == fault_error(DictFault::Exhausted),
{
    InoxSetError::Configuration("global dictionary ID space exhausted (u32::MAX)".to_owned())
}

#[verifier::truncate]
fn low_half(v: u64) -> (r: u32)
    ensures
        r == v as u32,
{
    v as u32
}

fn read_fwd(cat: &Catalog, external_id: &str) -> (r: Option<u32>)
    requires
        cat.wf(),
    ensures
        r == looked_up(dict_in(cat@), external_id@),
{
    match cat.dict_fwd.get(&external_id.to_owned()) {
        Some(v) => Some(low_half(*v)),
        None => None,
    }
}

/// Enters an identifier that has no number yet under the next one.
fn enter(cat: &mut Catalog, external_id: &str)
    requires
        old(cat).wf(),
        next_of(dict_in(old(cat)@)) <= u32::MAX,
    ensures
        final(cat).wf(),
        final(cat)@ == with_dict(old(cat)@, entered(dict_in(old(cat)@), external_id@)),
{
    let next: u64 = match cat.dict_next_id {
        Some(n) => n,
        None => 0,
    };
    cat.dict_fwd.insert(external_id.to_owned(), next);
    cat.dict_rev.insert(next, external_id.to_owned());
    cat.dict_next_id = Some(next + 1);
    assert(cat@ =~~= with_dict(old(cat)@, entered(dict_in(old(cat)@), external_id@)));
}

/// Returns the number of an external identifier; a new identifier gets the
/// next number. Fails on an empty or overlong identifier, and when all numbers
/// have been given out.
pub fn assign_or_get(cat: &mut Catalog, external_id: &str) -> (r: Result<u32, InoxSetError>)
    requires
        old(cat).wf(),
    ensures
        final(cat).wf(),
        enters_as(
            old(cat)@,
            r,
            final(cat)@,
            |v: u32| v,
            assigned(dict_in(old(cat)@), external_id@),
        ),
{
    if external_id.is_empty() {
        return Err(key_size_error());
    }
    match read_fwd(cat, external_id) {
        Some(id) => {
            assert(cat@ =~~= with_dict(cat@, dict_in(cat@)));
            return Ok(id);
        },
        None => {},
    }
    let next: u64 = match cat.dict_next_id {
        Some(n) => n,
        None => 0,
    };
    if next > u32::MAX as u64 {
        return Err(exhausted_error());
    }
    if external_id.as_bytes().len() > MAX_KEY_LEN {
        return Err(key_size_error());
    }
    enter(cat, external_id);
    Ok(next as u32)
}

/// Returns the number of an external identifier, or `None` if it has none.
/// Fails on an empty identifier.
pub fn lookup(cat: &Catalog, external_id: &str) -> (r: Result<Option<u32>, InoxSetError>)
    requires
        cat.wf(),
    ensures
        match r {
            Ok(v) => external_id@.len() > 0 && v == looked_up(dict_in(cat@), external_id@),
            Err(e) => external_id@.len() == 0 && e@ == fault_error(DictFault::KeySize),
        },
{
    if external_id.is_empty() {
        return Err(key_size_error());
    }
    Ok(read_fwd(cat, external_id))
}

/// An optional string as a text.
pub open spec fn text_option(v: Option<String>) -> Option<Seq<char>> {
    match v {
        Some(s) => Some(s@),
        None => None,
    }
}

/// Returns the external identifier of a number, or `None` if there is none.
pub fn reverse_lookup(cat: &Catalog, internal_id: u32) -> (r: Option<String>)
    requires
        cat.wf(),
    ensures
        text_option(r) == resolved(dict_in(cat@), internal_id),
{
    match cat.dict_rev.get(&(internal_id as u64)) {
        Some(s) => Some(s.clone()),
        None => None,
    }
}

/// The numbers that have an identifier, with it.
pub open spec fn resolved_pairs(d: DictView, ids: Seq<u32>) -> Seq<(u32, Seq<char>)>
    decreases ids.len(),
{
    if ids.len() == 0 {
        Seq::empty()
    } else {
        let front = resolved_pairs(d, ids.drop_last());
        match resolved(d, ids.last()) {
            Some(text) => front.push((ids.last(), text)),
            None => front,
        }
    }
}

/// Numbers with strings as numbers with texts.
pub open spec fn pair_texts(v: Seq<(u32, String)>) -> Seq<(u32, Seq<char>)> {
    Seq::new(v.len(), |i: int| (v[i].0, v[i].1@))
}

/// Returns the external identifiers of those numbers that have one, in order,
/// each with its number.
pub fn batch_reverse_lookup_u32(cat: &Catalog, internal_ids: &[u32]) -> (r: Vec<(u32, String)>)
    requires
        cat.wf(),
    ensures
        pair_texts(r@) == resolved_pairs(dict_in(cat@), internal_ids@),
{
    let mut out: Vec<(u32, String)> = Vec::new();
    let ghost d = dict_in(cat@);
    let mut i: usize = 0;
    assert(internal_ids@.subrange(0, 0) =~= Seq::empty());
    assert(pair_texts(out@) =~= Seq::empty());
    while i < internal_ids.len()
        invariant
            i <= internal_ids@.len(),
            cat.wf(),
            d == dict_in(cat@),
            pair_texts(out@) == resolved_pairs(d, internal_ids@.subrange(0, i as int)),
        decreases internal_ids@.len() - i,
    {
        proof {
            let upto = internal_ids@.subrange(0, i + 1);
            assert(upto.drop_last() =~= internal_ids@.subrange(0, i as int));
        }
        let ghost front = pair_texts(out@);
        let id: u32 = internal_ids[i];
        match reverse_lookup(cat, id) {
            Some(s) => {
                out.push((id, s));
                assert(pair_texts(out@) =~= front.push((id, s@)));
            },
            None => {},
        }
        i = i + 1;
    }
    assert(internal_ids@.subrange(0, i as int) =~= internal_ids@);
    out
}

/// Removes an external identifier and its number, and returns the number it
/// had. The number is not given out again. Fails on an empty identifier.
pub fn delete(cat: &mut Catalog, external_id: &str) -> (r: Result<Option<u32>, InoxSetError>)
    requires
        old(cat).wf(),
    ensures
        final(cat).wf(),
        enters_as(
            old(cat)@,
            r,
            final(cat)@,
            |v: Option<u32>| v,
            if external_id@.len() == 0 {
                Err(DictFault::KeySize)
            } else {
                Ok(
                    (
                        looked_up(dict_in(old(cat)@), external_id@),
                        deleted(dict_in(old(cat)@), external_id@),
                    ),
                )
            },
        ),
{
    if external_id.is_empty() {
        return Err(key_size_error());
    }
    match read_fwd(cat, external_id) {
        Some(id) => {
            let _ = cat.dict_fwd.remove(&external_id.to_owned());
            let _ = cat.dict_rev.remove(&(id as u64));
            assert(cat@ =~~= with_dict(old(cat)@, deleted(dict_in(old(cat)@), external_id@)));
            Ok(Some(id))
        },
        None => {
            assert(cat@ =~~= with_dict(cat@, dict_in(cat@)));
            Ok(None)
        },
    }
}

// ---------------------------------------------------------------------------
// Batches
// ---------------------------------------------------------------------------

/// A dictionary after new identifiers were entered in turn.
pub open spec fn entered_all(d: DictView, fresh: Seq<Seq<char>>) -> DictView
    decreases fresh.len(),
{
    if fresh.len() == 0 {
        d
    } else {
        entered(entered_all(d, fresh.drop_last()), fresh.last())
    }
}

/// Whether identifiers are new to a dictionary, each different from the others,
/// and there are numbers for all of them.
spec fn enterable(d: DictView, fresh: Seq<Seq<char>>) -> bool {
    &&& fresh.no_duplicates()
    &&& forall|i: int| 0 <= i < fresh.len() ==> !d.fwd.dom().contains(#[trigger] fresh[i])
    &&& fresh.len() > 0 ==> next_of(d) + fresh.len() <= u32::MAX + 1
}

proof fn lemma_entered_all(d: DictView, fresh: Seq<Seq<char>>)
    requires
        enterable(d, fresh),
    ensures
        next_of(entered_all(d, fresh)) == next_of(d) + fresh.len(),
        forall|i: int|
            0 <= i < fresh.len() ==> entered_all(d, fresh).fwd.dom().contains(#[trigger] fresh[i])
                && entered_all(d, fresh).fwd[fresh[i]] == next_of(d) + i,
        forall|t: Seq<char>| #[trigger]
            entered_all(d, fresh).fwd.dom().contains(t) <==> d.fwd.dom().contains(t)
                || fresh.contains(t),
        forall|t: Seq<char>| #[trigger]
            d.fwd.dom().contains(t) ==> entered_all(d, fresh).fwd[t] == d.fwd[t],
    decreases fresh.len(),
{
    if fresh.len() > 0 {
        let init = fresh.drop_last();
        assert forall|i: int| 0 <= i < init.len() implies !d.fwd.dom().contains(
            #[trigger] init[i],
        ) by {
            assert(init[i] == fresh[i]);
        }
        lemma_entered_all(d, init);
        let mid = entered_all(d, init);
        assert forall|t: Seq<char>| #[trigger]
            entered_all(d, fresh).fwd.dom().contains(t) <==> d.fwd.dom().contains(t)
                || fresh.contains(t) by {
            assert(mid.fwd.dom().contains(t) <==> d.fwd.dom().contains(t) || init.contains(t));
            if init.contains(t) {
                let k = choose|k: int| 0 <= k < init.len() && init[k] == t;
                assert(fresh[k] == t);
            }
            if t == fresh.last() {
                assert(fresh[fresh.len() - 1] == t);
            }
            if fresh.contains(t) && t != fresh.last() {
                let k = choose|k: int| 0 <= k < fresh.len() && fresh[k] == t;
                assert(init[k] == t);
            }
        }
        assert forall|i: int| 0 <= i < fresh.len() implies entered_all(d, fresh).fwd.dom().contains(
            #[trigger] fresh[i],
        ) && entered_all(d, fresh).fwd[fresh[i]] == next_of(d) + i by {
            if i < init.len() {
                assert(init[i] == fresh[i]);
                assert(fresh[i] != fresh[fresh.len() - 1]);
            }
        }
        assert forall|t: Seq<char>| #[trigger] d.fwd.dom().contains(t) implies entered_all(
            d,
            fresh,
        ).fwd[t] == d.fwd[t] by {
            assert(!d.fwd.dom().contains(fresh[fresh.len() - 1]));
        }
    }
}

pub(crate) fn position_in(list: &Vec<String>, text: &str) -> (r: Option<usize>)
    ensures
        match r {
            Some(i) => i < list@.len() && list@[i as int]@ == text@ && forall|k: int|
                0 <= k < i ==> (#[trigger] list@[k])@ != text@,
            None => !texts(list@).contains(text@),
        },
{
    let mut i: usize = 0;
    while i < list.len()
        invariant
            i <= list@.len(),
            forall|k: int| 0 <= k < i ==> (#[trigger] list@[k])@ != text@,
        decreases list@.len() - i,
    {
        if str_eq(list[i].as_str(), text) {
            return Some(i);
        }
        i = i + 1;
    }
    proof {
        if texts(list@).contains(text@) {
            let k = choose|k: int| 0 <= k < texts(list@).len() && texts(list@)[k] == text@;
            assert(list@[k]@ == text@);
        }
    }
    None
}

proof fn lemma_turn_error(d: DictView, ids: Seq<Seq<char>>, n: int)
    requires
        0 <= n <= ids.len(),
        assigned_in_turn(d, ids.subrange(0, n)) is Err,
    ensures
        assigned_in_turn(d, ids) == assigned_in_turn(d, ids.subrange(0, n)),
    decreases ids.len() - n,
{
    if n < ids.len() {
        let longer = ids.subrange(0, n + 1);
        assert(longer.drop_last() =~= ids.subrange(0, n));
        lemma_turn_error(d, ids, n + 1);
    } else {
        assert(ids.subrange(0, n) =~= ids);
    }
}

fn has_empty(ids: &[&str]) -> (r: bool)
    ensures
        r == any_empty(str_texts(ids@)),
{
    let mut i: usize = 0;
    while i < ids.len()
        invariant
            i <= ids@.len(),
            forall|k: int| 0 <= k < i ==> (#[trigger] str_texts(ids@)[k]).len() > 0,
        decreases ids@.len() - i,
    {
        assert(str_texts(ids@)[i as int] == ids@[i as int]@);
        if ids[i].is_empty() {
            assert(str_texts(ids@)[i as int].len() == 0);
            return true;
        }
        i = i + 1;
    }
    false
}

/// Returns the numbers of external identifiers in their order; new identifiers
/// get the next numbers. A batch that fails enters nothing.
pub fn batch_assign_or_get(cat: &mut Catalog, external_ids: &[&str]) -> (r: Result<
    Vec<u32>,
    InoxSetError,
>)
    requires
        old(cat).wf(),
    ensures
        final(cat).wf(),
        enters_as(
            old(cat)@,
            r,
            final(cat)@,
            |v: Vec<u32>| v@,
            batch_assigned(dict_in(old(cat)@), str_texts(external_ids@)),
        ),
{
    if has_empty(external_ids) {
        return Err(key_size_error());
    }
    let ghost d = dict_in(cat@);
    let ghost all = str_texts(external_ids@);
    let base: u64 = match cat.dict_next_id {
        Some(n) => n,
        None => 0,
    };
    let mut ids: Vec<u32> = Vec::new();
    let mut fresh: Vec<String> = Vec::new();
    let mut i: usize = 0;
    assert(all.subrange(0, 0) =~= Seq::empty());
    assert(texts(fresh@) =~= Seq::empty());
    while i < external_ids.len()
        invariant
            i <= external_ids@.len(),
            cat.wf(),
            *cat == *old(cat),
            d == dict_in(cat@),
            base == next_of(d),
            all == str_texts(external_ids@),
            !any_empty(all),
            enterable(d, texts(fresh@)),
            assigned_in_turn(d, all.subrange(0, i as int)) == Ok::<
                (Seq<u32>, DictView),
                DictFault,
            >((ids@, entered_all(d, texts(fresh@)))),
        decreases external_ids@.len() - i,
    {
        let ext = external_ids[i];
        let ghost mid = entered_all(d, texts(fresh@));
        proof {
            let upto = all.subrange(0, i + 1);
            assert(upto.drop_last() =~= all.subrange(0, i as int));
            assert(upto.last() == ext@);
            assert(all[i as int] == ext@);
            lemma_entered_all(d, texts(fresh@));
        }
        match read_fwd(cat, ext) {
            Some(id) => {
                assert(mid.fwd.dom().contains(ext@));
                ids.push(id);
            },
            None => match position_in(&fresh, ext) {
                Some(k) => {
                    assert(texts(fresh@)[k as int] == ext@);
                    assert(mid.fwd[ext@] == base + k);
                    ids.push((base + k as u64) as u32);
                },
                None => {
                    assert(!mid.fwd.dom().contains(ext@));
                    if base > u32::MAX as u64 || fresh.len() as u64 > u32::MAX as u64 - base {
                        proof {
                            lemma_turn_error(d, all, i + 1);
                        }
                        return Err(exhausted_error());
                    }
                    if ext.as_bytes().len() > MAX_KEY_LEN {
                        proof {
                            lemma_turn_error(d, all, i + 1);
                        }
                        return Err(key_size_error());
                    }
                    let n: u64 = base + fresh.len() as u64;
                    let ghost before = texts(fresh@);
                    fresh.push(ext.to_owned());
                    ids.push(n as u32);
                    proof {
                        let now = texts(fresh@);
                        assert(now =~= before.push(ext@));
                        assert(now.drop_last() =~= before);
                        assert forall|a: int, b: int|
                            0 <= a < now.len() && 0 <= b < now.len() && a != b implies now[a]
                            != now[b] by {
                            if a < before.len() && b < before.len() {
                                assert(before[a] != before[b]);
                            } else if a < before.len() {
                                assert(before.contains(before[a]));
                            } else {
                                assert(before.contains(before[b]));
                            }
                        }
                    }
                },
            },
        }
        i = i + 1;
    }
    assert(all.subrange(0, i as int) =~= all);
    let mut k: usize = 0;
    let ghost new = texts(fresh@);
    assert(new.subrange(0, 0) =~= Seq::empty());
    assert(cat@ =~~= with_dict(old(cat)@, dict_in(cat@)));
    while k < fresh.len()
        invariant
            k <= fresh@.len(),
            cat.wf(),
            new == texts(fresh@),
            enterable(d, new),
            cat@ == with_dict(old(cat)@, entered_all(d, new.subrange(0, k as int))),
        decreases fresh@.len() - k,
    {
        proof {
            let front = new.subrange(0, k as int);
            assert(new.subrange(0, k + 1).drop_last() =~= front);
            assert(new.subrange(0, k + 1).last() == fresh@[k as int]@);
            assert(enterable(d, front)) by {
                assert forall|a: int| 0 <= a < front.len() implies !d.fwd.dom().contains(
                    #[trigger] front[a],
                ) by {
                    assert(front[a] == new[a]);
                }
            }
            lemma_entered_all(d, front);
            assert(dict_in(cat@) =~~= entered_all(d, front));
        }
        enter(cat, fresh[k].as_str());
        k = k + 1;
    }
    assert(new.subrange(0, k as int) =~= new);
    Ok(ids)
}

/// Returns the numbers of external identifiers in their order, with `None` for
/// those that have none. Fails if one is empty.
pub fn batch_lookup(cat: &Catalog, external_ids: &[&str]) -> (r: Result<
    Vec<Option<u32>>,
    InoxSetError,
>)
    requires
        cat.wf(),
    ensures
        match r {
            Ok(v) => {
                &&& !any_empty(str_texts(external_ids@))
                &&& v@ == Seq::new(
                    external_ids@.len(),
                    |i: int| looked_up(dict_in(cat@), external_ids@[i]@),
                )
            },
            Err(e) => any_empty(str_texts(external_ids@)) && e@ == fault_error(DictFault::KeySize),
        },
{
    if has_empty(external_ids) {
        return Err(key_size_error());
    }
    let mut out: Vec<Option<u32>> = Vec::new();
    let mut i: usize = 0;
    while i < external_ids.len()
        invariant
            i <= external_ids@.len(),
            cat.wf(),
            out@ =~= Seq::new(i as nat, |k: int| looked_up(dict_in(cat@), external_ids@[k]@)),
        decreases external_ids@.len() - i,
    {
        out.push(read_fwd(cat, external_ids[i]));
        i = i + 1;
    }
    assert(out@ =~= Seq::new(
        external_ids@.len(),
        |k: int| looked_up(dict_in(cat@), external_ids@[k]@),
    ));
    Ok(out)
}

/// Optional strings as texts.
pub open spec fn option_texts(v: Seq<Option<String>>) -> Seq<Option<Seq<char>>> {
    Seq::new(v.len(), |i: int| text_option(v[i]))
}

/// The identifiers of numbers, in order.
pub open spec fn resolved_all(d: DictView, ids: Seq<u32>) -> Seq<Option<Seq<char>>> {
    Seq::new(ids.len(), |i: int| resolved(d, ids[i]))
}

/// Returns the external identifiers of numbers in their order, with `None` for
/// those that have none.
pub fn batch_reverse_lookup(cat: &Catalog, internal_ids: &[u32]) -> (r: Vec<Option<String>>)
    requires
        cat.wf(),
    ensures
        option_texts(r@) == resolved_all(dict_in(cat@), internal_ids@),
{
    let mut out: Vec<Option<String>> = Vec::new();
    let mut i: usize = 0;
    while i < internal_ids.len()
        invariant
            i <= internal_ids@.len(),
            cat.wf(),
            out@.len() == i,
            forall|k: int|
                0 <= k < i ==> text_option(#[trigger] out@[k]) == resolved(
                    dict_in(cat@),
                    internal_ids@[k],
                ),
        decreases internal_ids@.len() - i,
    {
        out.push(reverse_lookup(cat, internal_ids[i]));
        i = i + 1;
    }
    assert(option_texts(out@) =~= resolved_all(dict_in(cat@), internal_ids@));
    out
}

// ---------------------------------------------------------------------------
// UUIDs
// ---------------------------------------------------------------------------

/// The lowercase character of a hexadecimal digit.
pub open spec fn hex_char(n: nat) -> char {
    if n < 10 {
        (48 + n) as char
    } else {
        (87 + n) as char
    }
}

/// 16 to the power of `n`.
pub open spec fn pow16(n: nat) -> nat
    decreases n,
{
    if n == 0 {
        1
    } else {
        16 * pow16((n - 1) as nat)
    }
}

/// Hexadecimal digit `i` of the 32 digits of a UUID, most significant first.
pub open spec fn uuid_digit(id: u128, i: int) -> nat {
    ((id as nat) / pow16((31 - i) as nat)) % 16
}

/// The canonical text of a UUID: 32 lowercase hexadecimal digits in groups of
/// 8, 4, 4, 4 and 12, with hyphens between the groups.
pub open spec fn uuid_text(id: u128) -> Seq<char> {
    Seq::new(
        36,
        |i: int|
            if i == 8 || i == 13 || i == 18 || i == 23 {
                '-'
            } else if i < 8 {
                hex_char(uuid_digit(id, i))
            } else if i < 13 {
                hex_char(uuid_digit(id, i - 1))
            } else if i < 18 {
                hex_char(uuid_digit(id, i - 2))
            } else if i < 23 {
                hex_char(uuid_digit(id, i - 3))
            } else {
                hex_char(uuid_digit(id, i - 4))
            },
    )
}

/// What `uuid::Uuid::parse_str` reads from a text, as a number; `None` where it
/// fails.
pub uninterp spec fn parsed_uuid(text: Seq<char>) -> Option<u128>;

/// `Display for uuid::Uuid`: the canonical text of the UUID with these 128
/// bits.
#[verifier::external_body]
fn uuid_to_text(id: u128) -> (r: String)
    ensures
        r@ == uuid_text(id),
{
    uuid::Uuid::from_u128(id).to_string()
}

/// `uuid::Uuid::parse_str`: reads a UUID in any of the textual forms that the
/// crate knows. The canonical text reads back as the UUID it was made from.
#[verifier::external_body]
fn text_to_uuid(text: &str) -> (r: Option<u128>)
    ensures
        r == parsed_uuid(text@),
        forall|id: u128| text@ == #[trigger] uuid_text(id) ==> r == Some(id),
{
    uuid::Uuid::parse_str(text).ok().map(|u| u.as_u128())
}

/// Returns the external identifier under which a UUID is kept: its canonical
/// text.
pub fn uuid_key(id: u128) -> (r: String)
    ensures
        r@ == uuid_text(id),
{
    uuid_to_text(id)
}

/// Returns the number of a UUID, given as its 128 bits; a new one gets the next
/// number. It is stored under its canonical text.
pub fn assign_or_get_uuid(cat: &mut Catalog, id: u128) -> (r: Result<u32, InoxSetError>)
    requires
        old(cat).wf(),
    ensures
        final(cat).wf(),
        enters_as(
            old(cat)@,
            r,
            final(cat)@,
            |v: u32| v,
            assigned(dict_in(old(cat)@), uuid_text(id)),
        ),
{
    assign_or_get(cat, uuid_to_text(id).as_str())
}

/// Returns the number of a UUID, or `None` if it has none.
pub fn lookup_uuid(cat: &Catalog, id: u128) -> (r: Result<Option<u32>, InoxSetError>)
    requires
        cat.wf(),
    ensures
        r matches Ok(v) && v == looked_up(dict_in(cat@), uuid_text(id)),
{
    lookup(cat, uuid_to_text(id).as_str())
}

/// The UUID that an identifier is, if it is one.
pub open spec fn as_uuid(text: Option<Seq<char>>) -> Option<u128> {
    match text {
        Some(t) => parsed_uuid(t),
        None => None,
    }
}

/// Returns the UUID of a number, or `None` if there is none or it is not that
/// of a UUID.
pub fn reverse_lookup_uuid(cat: &Catalog, internal_id: u32) -> (r: Option<u128>)
    requires
        cat.wf(),
    ensures
        r == as_uuid(resolved(dict_in(cat@), internal_id)),
        forall|id: u128|
            resolved(dict_in(cat@), internal_id) == Some(#[trigger] uuid_text(id)) ==> r == Some(
                id,
            ),
{
    match reverse_lookup(cat, internal_id) {
        Some(s) => text_to_uuid(s.as_str()),
        None => None,
    }
}

/// Removes a UUID and its number, and returns the number it had.
pub fn delete_uuid(cat: &mut Catalog, id: u128) -> (r: Result<Option<u32>, InoxSetError>)
    requires
        old(cat).wf(),
    ensures
        final(cat).wf(),
        r == Ok::<Option<u32>, InoxSetError>(looked_up(dict_in(old(cat)@), uuid_text(id))),
        final(cat)@ == with_dict(old(cat)@, deleted(dict_in(old(cat)@), uuid_text(id))),
{
    delete(cat, uuid_to_text(id).as_str())
}

/// The canonical texts of UUIDs.
pub open spec fn uuid_texts(ids: Seq<u128>) -> Seq<Seq<char>> {
    Seq::new(ids.len(), |i: int| uuid_text(ids[i]))
}

/// Returns the numbers of UUIDs in their order; new ones get the next numbers.
pub fn batch_assign_or_get_uuids(cat: &mut Catalog, ids: &[u128]) -> (r: Result<
    Vec<u32>,
    InoxSetError,
>)
    requires
        old(cat).wf(),
    ensures
        final(cat).wf(),
        enters_as(
            old(cat)@,
            r,
            final(cat)@,
            |v: Vec<u32>| v@,
            batch_assigned(dict_in(old(cat)@), uuid_texts(ids@)),
        ),
{
    let mut strings: Vec<String> = Vec::new();
    let mut i: usize = 0;
    while i < ids.len()
        invariant
            i <= ids@.len(),
            strings@.len() == i,
            forall|k: int| 0 <= k < i ==> (#[trigger] strings@[k])@ == uuid_text(ids@[k]),
        decreases ids@.len() - i,
    {
        strings.push(uuid_to_text(ids[i]));
        i = i + 1;
    }
    let mut refs: Vec<&str> = Vec::new();
    let mut j: usize = 0;
    while j < strings.len()
        invariant
            j <= strings@.len(),
            refs@.len() == j,
            forall|k: int| 0 <= k < j ==> (#[trigger] refs@[k])@ == strings@[k]@,
        decreases strings@.len() - j,
    {
        refs.push(strings[j].as_str());
        j = j + 1;
    }
    assert(str_texts(refs@) =~= uuid_texts(ids@));
    batch_assign_or_get(cat, refs.as_slice())
}

/// Returns the UUIDs of numbers in their order, with `None` for those that have
/// none.
pub fn batch_reverse_lookup_uuids(cat: &Catalog, internal_ids: &[u32]) -> (r: Vec<Option<u128>>)
    requires
        cat.wf(),
    ensures
        r@ == Seq::new(
            internal_ids@.len(),
            |i: int| as_uuid(resolved(dict_in(cat@), internal_ids@[i])),
        ),
        forall|i: int, id: u128|
            #![trigger r@[i], uuid_text(id)]
            0 <= i < internal_ids@.len() && resolved(dict_in(cat@), internal_ids@[i]) == Some(
                uuid_text(id),
            ) ==> r@[i] == Some(id),
{
    let mut out: Vec<Option<u128>> = Vec::new();
    let mut i: usize = 0;
    while i < internal_ids.len()
        invariant
            i <= internal_ids@.len(),
            cat.wf(),
            out@.len() == i,
            forall|k: int|
                0 <= k < i ==> #[trigger] out@[k] == as_uuid(
                    resolved(dict_in(cat@), internal_ids@[k]),
                ),
            forall|k: int, id: u128|
                #![trigger out@[k], uuid_text(id)]
                0 <= k < i && resolved(dict_in(cat@), internal_ids@[k]) == Some(uuid_text(id))
                    ==> out@[k] == Some(id),
        decreases internal_ids@.len() - i,
    {
        out.push(reverse_lookup_uuid(cat, internal_ids[i]));
        i = i + 1;
    }
    assert(out@ =~= Seq::new(
        internal_ids@.len(),
        |i: int| as_uuid(resolved(dict_in(cat@), internal_ids@[i])),
    ));
    out
}

// ---------------------------------------------------------------------------
// Laws
// ---------------------------------------------------------------------------

/// Whether both tables say the same, and every number in use was given out.
pub open spec fn dict_wf(d: DictView) -> bool {
    &&& next_of(d) <= u32::MAX + 1
    &&& forall|t: Seq<char>| #[trigger]
        d.fwd.dom().contains(t) ==> d.fwd[t] < next_of(d) && d.rev.dom().contains(d.fwd[t])
            && d.rev[d.fwd[t]] == t
    &&& forall|n: u64| #[trigger]
        d.rev.dom().contains(n) ==> d.fwd.dom().contains(d.rev[n]) && d.fwd[d.rev[n]] == n
}

/// A dictionary without entries is consistent.
pub proof fn law_empty_dict_is_consistent()
    ensures
        dict_wf(dict_in(crate::catalog::empty_catalog())),
{
}

/// Assigning keeps both tables consistent: identifiers and numbers stay in
/// one-to-one correspondence.
pub proof fn law_assign_keeps_consistency(d: DictView, id: Seq<char>)
    requires
        dict_wf(d),
        assigned(d, id) is Ok,
    ensures
        dict_wf((assigned(d, id)->Ok_0).1),
{
    let after = (assigned(d, id)->Ok_0).1;
    let n = next_of(d);
    assert forall|t: Seq<char>| #[trigger] after.fwd.dom().contains(t) implies after.fwd[t]
        < next_of(after) && after.rev.dom().contains(after.fwd[t]) && after.rev[after.fwd[t]]
        == t by {
        if t != id && !d.fwd.dom().contains(id) {
            assert(d.fwd.dom().contains(t));
        }
    }
    assert forall|m: u64| #[trigger] after.rev.dom().contains(m) implies after.fwd.dom().contains(
        after.rev[m],
    ) && after.fwd[after.rev[m]] == m by {
        if !d.fwd.dom().contains(id) && m != n {
            assert(d.rev.dom().contains(m));
        }
    }
}

/// A batch keeps both tables consistent.
pub proof fn law_batch_keeps_consistency(d: DictView, ids: Seq<Seq<char>>)
    requires
        dict_wf(d),
        assigned_in_turn(d, ids) is Ok,
    ensures
        dict_wf((assigned_in_turn(d, ids)->Ok_0).1),
    decreases ids.len(),
{
    if ids.len() > 0 {
        law_batch_keeps_consistency(d, ids.drop_last());
        law_assign_keeps_consistency(
            (assigned_in_turn(d, ids.drop_last())->Ok_0).1,
            ids.last(),
        );
    }
}

/// Deleting keeps both tables consistent and removes both directions.
pub proof fn law_delete_removes_both(d: DictView, id: Seq<char>)
    requires
        dict_wf(d),
        d.fwd.dom().contains(id),
    ensures
        dict_wf(deleted(d, id)),
        looked_up(deleted(d, id), id) is None,
        resolved(deleted(d, id), d.fwd[id] as u32) is None,
{
    let after = deleted(d, id);
    let n = d.fwd[id];
    assert(n <= u32::MAX);
    assert((n as u32) as u64 == n);
    assert forall|t: Seq<char>| #[trigger] after.fwd.dom().contains(t) implies after.fwd[t]
        < next_of(after) && after.rev.dom().contains(after.fwd[t]) && after.rev[after.fwd[t]]
        == t by {
        assert(d.fwd.dom().contains(t));
        assert(d.rev[d.fwd[id]] == id);
    }
    assert forall|m: u64| #[trigger] after.rev.dom().contains(m) implies after.fwd.dom().contains(
        after.rev[m],
    ) && after.fwd[after.rev[m]] == m by {
        assert(d.rev.dom().contains(m));
    }
}

/// Assigning again gives the same number and changes nothing.
pub proof fn law_assign_is_idempotent(d: DictView, id: Seq<char>)
    requires
        assigned(d, id) is Ok,
    ensures
        ({
            let (n, after) = assigned(d, id)->Ok_0;
            assigned(after, id) == Ok::<(u32, DictView), DictFault>((n, after))
        }),
{
}

/// An assigned identifier is found under its number, and the number under the
/// identifier.
pub proof fn law_assigned_is_found_both_ways(d: DictView, id: Seq<char>)
    requires
        dict_wf(d),
        assigned(d, id) is Ok,
    ensures
        ({
            let (n, after) = assigned(d, id)->Ok_0;
            looked_up(after, id) == Some(n) && resolved(after, n) == Some(id)
        }),
{
    let (n, after) = assigned(d, id)->Ok_0;
    assert(after.fwd.dom().contains(id));
    law_assign_keeps_consistency(d, id);
    assert(after.fwd[id] <= u32::MAX);
    assert((n as u64) == after.fwd[id]);
}

/// Different identifiers have different numbers.
pub proof fn law_numbers_are_distinct(d: DictView, a: Seq<char>, b: Seq<char>)
    requires
        dict_wf(d),
        d.fwd.dom().contains(a),
        d.fwd.dom().contains(b),
        looked_up(d, a) == looked_up(d, b),
    ensures
        a == b,
{
    assert(d.fwd[a] as u32 as u64 == d.fwd[a]);
    assert(d.fwd[b] as u32 as u64 == d.fwd[b]);
    assert(d.rev[d.fwd[a]] == a);
    assert(d.rev[d.fwd[b]] == b);
}

/// An assignment never changes the number of another identifier.
pub proof fn law_assign_leaves_others(d: DictView, id: Seq<char>, other: Seq<char>)
    requires
        assigned(d, id) is Ok,
        other != id,
    ensures
        looked_up((assigned(d, id)->Ok_0).1, other) == looked_up(d, other),
{
}

/// New identifiers get the next numbers in sequence.
pub proof fn law_new_ids_are_sequential(d: DictView, ids: Seq<Seq<char>>)
    requires
        ids.no_duplicates(),
        forall|i: int|
            0 <= i < ids.len() ==> !d.fwd.dom().contains(#[trigger] ids[i]) && ids[i].len() > 0
                && encode_utf8(ids[i]).len() <= MAX_KEY_LEN,
        next_of(d) + ids.len() <= u32::MAX + 1,
    ensures
        batch_assigned(d, ids) == Ok::<(Seq<u32>, DictView), DictFault>(
            (Seq::new(ids.len(), |i: int| (next_of(d) + i) as u32), entered_all(d, ids)),
        ),
    decreases ids.len(),
{
    if ids.len() > 0 {
        let init = ids.drop_last();
        assert forall|i: int| 0 <= i < init.len() implies !d.fwd.dom().contains(#[trigger] init[i])
            && init[i].len() > 0 && encode_utf8(init[i]).len() <= MAX_KEY_LEN by {
            assert(init[i] == ids[i]);
        }
        law_new_ids_are_sequential(d, init);
        lemma_entered_all(d, init);
        let last = ids.last();
        assert(ids[ids.len() - 1] == last);
        assert(!init.contains(last)) by {
            if init.contains(last) {
                let k = choose|k: int| 0 <= k < init.len() && init[k] == last;
                assert(ids[k] == ids[ids.len() - 1]);
            }
        }
        assert(!any_empty(init)) by {
            if any_empty(init) {
                let i = choose|i: int| 0 <= i < init.len() && (#[trigger] init[i]).len() == 0;
                assert(init[i].len() > 0);
            }
        }
        assert(Seq::new(init.len(), |i: int| (next_of(d) + i) as u32).push(
            (next_of(d) + init.len()) as u32,
        ) =~= Seq::new(ids.len(), |i: int| (next_of(d) + i) as u32));
    } else {
        assert(Seq::new(ids.len(), |i: int| (next_of(d) + i) as u32) =~= Seq::<u32>::empty());
    }
    assert(!any_empty(ids)) by {
        if any_empty(ids) {
            let i = choose|i: int| 0 <= i < ids.len() && (#[trigger] ids[i]).len() == 0;
            assert(ids[i].len() > 0);
        }
    }
}

/// A request that may change a dictionary.
pub enum DictRequest {
    /// Give an identifier its number.
    Assign(Seq<char>),
    /// Give each identifier of a batch its number.
    Batch(Seq<Seq<char>>),
    /// Delete an identifier.
    Delete(Seq<char>),
}

/// A dictionary after a request; one that fails changes nothing.
pub open spec fn after_request(d: DictView, request: DictRequest) -> DictView {
    match request {
        DictRequest::Assign(id) => match assigned(d, id) {
            Ok((_, after)) => after,
            Err(_) => d,
        },
        DictRequest::Batch(ids) => match batch_assigned(d, ids) {
            Ok((_, after)) => after,
            Err(_) => d,
        },
        DictRequest::Delete(id) => deleted(d, id),
    }
}

/// The numbers that a request gives out.
pub open spec fn given_out(d: DictView, request: DictRequest) -> Seq<u32> {
    match request {
        DictRequest::Assign(id) => match assigned(d, id) {
            Ok((n, _)) => seq![n],
            Err(_) => Seq::empty(),
        },
        DictRequest::Batch(ids) => match batch_assigned(d, ids) {
            Ok((numbers, _)) => numbers,
            Err(_) => Seq::empty(),
        },
        DictRequest::Delete(_) => Seq::empty(),
    }
}

/// A dictionary after several requests.
pub open spec fn after_requests(d: DictView, requests: Seq<DictRequest>) -> DictView
    decreases requests.len(),
{
    if requests.len() == 0 {
        d
    } else {
        after_request(after_requests(d, requests.drop_last()), requests.last())
    }
}

/// Whether a number was given out and belongs to no identifier any more.
pub open spec fn retired(d: DictView, n: u32) -> bool {
    &&& dict_wf(d)
    &&& n < next_of(d)
    &&& resolved(d, n) is None
}

proof fn lemma_assign_retired(d: DictView, id: Seq<char>, n: u32)
    requires
        retired(d, n),
        assigned(d, id) is Ok,
    ensures
        retired((assigned(d, id)->Ok_0).1, n),
        (assigned(d, id)->Ok_0).0 != n,
{
    law_assign_keeps_consistency(d, id);
    law_assigned_is_found_both_ways(d, id);
}

proof fn lemma_batch_retired(d: DictView, ids: Seq<Seq<char>>, n: u32)
    requires
        retired(d, n),
        assigned_in_turn(d, ids) is Ok,
    ensures
        retired((assigned_in_turn(d, ids)->Ok_0).1, n),
        !(assigned_in_turn(d, ids)->Ok_0).0.contains(n),
    decreases ids.len(),
{
    if ids.len() > 0 {
        lemma_batch_retired(d, ids.drop_last(), n);
        let (front, mid) = assigned_in_turn(d, ids.drop_last())->Ok_0;
        lemma_assign_retired(mid, ids.last(), n);
        let numbers = (assigned_in_turn(d, ids)->Ok_0).0;
        if numbers.contains(n) {
            let k = choose|k: int| 0 <= k < numbers.len() && numbers[k] == n;
            assert(front[k] == n);
        }
    }
}

/// A number that belongs to no identifier any more is given out by no request,
/// and stays without one after it.
pub proof fn law_retired_stays_retired(d: DictView, request: DictRequest, n: u32)
    requires
        retired(d, n),
    ensures
        retired(after_request(d, request), n),
        !given_out(d, request).contains(n),
{
    match request {
        DictRequest::Assign(id) => {
            if assigned(d, id) is Ok {
                lemma_assign_retired(d, id, n);
            }
        },
        DictRequest::Batch(ids) => {
            if batch_assigned(d, ids) is Ok {
                lemma_batch_retired(d, ids, n);
            }
        },
        DictRequest::Delete(id) => {
            if d.fwd.dom().contains(id) {
                law_delete_removes_both(d, id);
            }
        },
    }
}

/// A deleted number is never given out again: whatever requests follow the
/// deletion, single ones, batches and further deletions, none gives it out, and
/// it has no identifier after them.
pub proof fn law_numbers_are_not_recycled(
    d: DictView,
    id: Seq<char>,
    between: Seq<DictRequest>,
    request: DictRequest,
)
    requires
        dict_wf(d),
        d.fwd.dom().contains(id),
    ensures
        ({
            let later = after_requests(deleted(d, id), between);
            &&& !given_out(later, request).contains(d.fwd[id] as u32)
            &&& retired(later, d.fwd[id] as u32)
        }),
    decreases between.len(),
{
    let n = d.fwd[id] as u32;
    if between.len() == 0 {
        law_delete_removes_both(d, id);
        assert(d.fwd[id] < next_of(d));
        law_retired_stays_retired(deleted(d, id), request, n);
    } else {
        law_numbers_are_not_recycled(d, id, between.drop_last(), between.last());
        let before = after_requests(deleted(d, id), between.drop_last());
        law_retired_stays_retired(before, between.last(), n);
        law_retired_stays_retired(after_requests(deleted(d, id), between), request, n);
    }
}

/// Requests keep both tables consistent.
pub proof fn law_requests_keep_consistency(d: DictView, requests: Seq<DictRequest>)
    requires
        dict_wf(d),
    ensures
        dict_wf(after_requests(d, requests)),
    decreases requests.len(),
{
    if requests.len() > 0 {
        law_requests_keep_consistency(d, requests.drop_last());
        let before = after_requests(d, requests.drop_last());
        match requests.last() {
            DictRequest::Assign(id) => {
                if assigned(before, id) is Ok {
                    law_assign_keeps_consistency(before, id);
                }
            },
            DictRequest::Batch(ids) => {
                if batch_assigned(before, ids) is Ok {
                    law_batch_keeps_consistency(before, ids);
                }
            },
            DictRequest::Delete(id) => {
                if before.fwd.dom().contains(id) {
                    law_delete_removes_both(before, id);
                }
            },
        }
    }
}

/// Deleting an identifier leaves every other one as it was: it has the same
/// number, and every other number has the same identifier. The counter stays, and
/// deleting what is not there changes nothing.
pub proof fn law_delete_leaves_others(d: DictView, id: Seq<char>, other: Seq<char>, n: u32)
    ensures
        other != id ==> looked_up(deleted(d, id), other) == looked_up(d, other),
        looked_up(d, id) != Some(n) ==> resolved(deleted(d, id), n) == resolved(d, n),
        deleted(d, id).next == d.next,
        looked_up(d, id) is None ==> deleted(d, id) == d,
        looked_up(deleted(d, id), id) is None,
        looked_up(d, id) == Some(n) ==> resolved(deleted(d, id), n) is None,
{
}

/// The numbers and identifiers of a dictionary are those in its tables.
pub proof fn law_lookups_read_the_tables(d: DictView, id: Seq<char>, n: u32)
    ensures
        looked_up(d, id) is Some <==> d.fwd.dom().contains(id),
        d.fwd.dom().contains(id) ==> looked_up(d, id) == Some(d.fwd[id] as u32),
        resolved(d, n) is Some <==> d.rev.dom().contains(n as u64),
        d.rev.dom().contains(n as u64) ==> resolved(d, n) == Some(d.rev[n as u64]),
        d.next is None ==> next_of(d) == 0,
        d.next matches Some(next) ==> next_of(d) == next,
{
}

/// What an assignment does. It succeeds for an identifier that has a number, and
/// for a new one that can be a key while there are numbers. The new one gets the
/// next number, which the counter then leaves behind. Whatever else the dictionary
/// has stays as it was, all of it where the identifier was known.
pub proof fn law_assign_exact(
    d: DictView,
    id: Seq<char>,
    other: Seq<char>,
    m: u32,
)
    ensures
        assigned(d, id) is Ok <==> id.len() > 0 && (d.fwd.dom().contains(id) || (next_of(d)
            <= u32::MAX && encode_utf8(id).len() <= 511)),
        id.len() > 0 && !d.fwd.dom().contains(id) && next_of(d) > u32::MAX ==> assigned(d, id)
            == Err::<(u32, DictView), DictFault>(DictFault::Exhausted),
        assigned(d, id) is Err && !(id.len() > 0 && !d.fwd.dom().contains(id) && next_of(d)
            > u32::MAX) ==> assigned(d, id) == Err::<(u32, DictView), DictFault>(
            DictFault::KeySize,
        ),
        assigned(d, id) matches Ok((n, after)) ==> {
            &&& d.fwd.dom().contains(id) ==> Some(n) == looked_up(d, id) && after == d
            &&& !d.fwd.dom().contains(id) ==> n == next_of(d) && next_of(after) == n + 1
                && resolved(after, n) == Some(id)
            &&& looked_up(after, id) == Some(n)
            &&& other != id ==> looked_up(after, other) == looked_up(d, other)
            &&& m != n || d.fwd.dom().contains(id) ==> resolved(after, m) == resolved(d, m)
        },
{
}

/// The identifiers of a batch that are new to a dictionary.
pub open spec fn new_among(d: DictView, ids: Seq<Seq<char>>) -> Set<Seq<char>> {
    ids.to_set().difference(d.fwd.dom())
}

proof fn lemma_to_set_step(ids: Seq<Seq<char>>)
    requires
        ids.len() > 0,
    ensures
        ids.to_set() == ids.drop_last().to_set().insert(ids.last()),
{
    let init = ids.drop_last();
    assert forall|t: Seq<char>| #[trigger]
        ids.to_set().contains(t) <==> init.to_set().insert(ids.last()).contains(t) by {
        if ids.contains(t) {
            let k = choose|k: int| 0 <= k < ids.len() && ids[k] == t;
            if k < init.len() {
                assert(init[k] == t);
            }
        }
        if init.contains(t) {
            let k = choose|k: int| 0 <= k < init.len() && init[k] == t;
            assert(ids[k] == t);
        }
        assert(ids[ids.len() - 1] == ids.last());
    }
    assert(ids.to_set() =~= init.to_set().insert(ids.last()));
}

proof fn lemma_new_step(d: DictView, ids: Seq<Seq<char>>)
    requires
        ids.len() > 0,
    ensures
        new_among(d, ids).finite(),
        new_among(d, ids.drop_last()).finite(),
        new_among(d, ids).len() == new_among(d, ids.drop_last()).len() + (if d.fwd.dom().contains(
            ids.last(),
        ) || ids.drop_last().contains(ids.last()) {
            0nat
        } else {
            1nat
        }),
{
    let init = ids.drop_last();
    vstd::seq_lib::seq_to_set_is_finite(ids);
    vstd::seq_lib::seq_to_set_is_finite(init);
    vstd::set_lib::lemma_len_difference(ids.to_set(), d.fwd.dom());
    lemma_to_set_step(ids);
    if d.fwd.dom().contains(ids.last()) || init.contains(ids.last()) {
        assert(new_among(d, ids) =~= new_among(d, init));
    } else {
        assert(new_among(d, ids) =~= new_among(d, init).insert(ids.last()));
    }
}

/// Whether an identifier has a number or can get one.
pub open spec fn has_or_fits(d: DictView, id: Seq<char>) -> bool {
    id.len() > 0 && (d.fwd.dom().contains(id) || encode_utf8(id).len() <= 511)
}

proof fn lemma_turn(d: DictView, ids: Seq<Seq<char>>)
    ensures
        new_among(d, ids).finite(),
        assigned_in_turn(d, ids) is Ok <==> (forall|i: int|
            0 <= i < ids.len() ==> has_or_fits(d, #[trigger] ids[i])) && (new_among(d, ids).len()
            > 0 ==> next_of(d) + new_among(d, ids).len() <= u32::MAX + 1),
        assigned_in_turn(d, ids) matches Ok((ns, after)) ==> {
            &&& ns.len() == ids.len()
            &&& next_of(after) == next_of(d) + new_among(d, ids).len()
            &&& after.fwd.dom() == d.fwd.dom().union(ids.to_set())
            &&& forall|t: Seq<char>| #[trigger]
                d.fwd.dom().contains(t) ==> after.fwd[t] == d.fwd[t]
        },
    decreases ids.len(),
{
    if ids.len() == 0 {
        assert(ids.to_set() =~= Set::empty());
        assert(new_among(d, ids) =~= Set::empty());
        assert(d.fwd.dom().union(ids.to_set()) =~= d.fwd.dom());
    } else {
        let init = ids.drop_last();
        let last = ids.last();
        lemma_turn(d, init);
        lemma_new_step(d, ids);
        lemma_to_set_step(ids);
        assert(ids[ids.len() - 1] == last);
        if forall|i: int| 0 <= i < ids.len() ==> has_or_fits(d, #[trigger] ids[i]) {
            assert forall|i: int| 0 <= i < init.len() implies has_or_fits(
                d,
                #[trigger] init[i],
            ) by {
                assert(has_or_fits(d, ids[i]));
            }
        }
        if (forall|i: int| 0 <= i < init.len() ==> has_or_fits(d, #[trigger] init[i]))
            && has_or_fits(d, last) {
            assert forall|i: int| 0 <= i < ids.len() implies has_or_fits(d, #[trigger] ids[i]) by {
                if i < init.len() {
                    assert(has_or_fits(d, init[i]));
                }
            }
        }
        if assigned_in_turn(d, init) is Ok {
            let (front, mid) = assigned_in_turn(d, init)->Ok_0;
            assert(init.to_set().contains(last) <==> init.contains(last));
            if init.contains(last) {
                let k = choose|k: int| 0 <= k < init.len() && init[k] == last;
                assert(has_or_fits(d, init[k]));
            }
            if assigned_in_turn(d, ids) is Ok {
                let after = (assigned_in_turn(d, ids)->Ok_0).1;
                assert(after.fwd.dom() =~= d.fwd.dom().union(ids.to_set()));
            }
        }
    }
}

/// When a batch succeeds: no identifier is empty, every new one can be a key, and
/// there are numbers for all new ones. The counter moves on by the number of
/// different new identifiers, and exactly the identifiers of the batch are added.
pub proof fn law_batch_succeeds(d: DictView, ids: Seq<Seq<char>>, other: Seq<char>)
    ensures
        batch_assigned(d, ids) is Ok <==> (forall|i: int|
            0 <= i < ids.len() ==> (#[trigger] ids[i]).len() > 0 && (d.fwd.dom().contains(ids[i])
                || encode_utf8(ids[i]).len() <= 511)) && (ids.to_set().difference(
            d.fwd.dom(),
        ).len() > 0 ==> next_of(d) + ids.to_set().difference(d.fwd.dom()).len() <= u32::MAX + 1),
        batch_assigned(d, ids) matches Ok((ns, after)) ==> {
            &&& ns.len() == ids.len()
            &&& next_of(after) == next_of(d) + ids.to_set().difference(d.fwd.dom()).len()
            &&& after.fwd.dom().contains(other) <==> d.fwd.dom().contains(other) || ids.contains(
                other,
            )
            &&& d.fwd.dom().contains(other) ==> looked_up(after, other) == looked_up(d, other)
        },
{
    lemma_turn(d, ids);
    if any_empty(ids) {
        let i = choose|i: int| 0 <= i < ids.len() && (#[trigger] ids[i]).len() == 0;
        assert(!(ids[i].len() > 0));
    }
    assert((forall|i: int| 0 <= i < ids.len() ==> has_or_fits(d, #[trigger] ids[i])) <==> (forall|
        i: int,
    |
        0 <= i < ids.len() ==> (#[trigger] ids[i]).len() > 0 && (d.fwd.dom().contains(ids[i])
            || encode_utf8(ids[i]).len() <= 511)));
    assert(ids.to_set().contains(other) <==> ids.contains(other));
}

proof fn lemma_turn_numbers(d: DictView, ids: Seq<Seq<char>>, i: int)
    requires
        assigned_in_turn(d, ids) is Ok,
        0 <= i < ids.len(),
    ensures
        ({
            let (ns, after) = assigned_in_turn(d, ids)->Ok_0;
            &&& ns.len() == ids.len()
            &&& looked_up(after, ids[i]) == Some(ns[i])
            &&& d.fwd.dom().contains(ids[i]) ==> looked_up(d, ids[i]) == Some(ns[i])
            &&& !d.fwd.dom().contains(ids[i]) && !ids.subrange(0, i).contains(ids[i]) ==> ns[i]
                == next_of(d) + new_among(d, ids.subrange(0, i)).len()
            &&& !d.fwd.dom().contains(ids[i]) && !ids.subrange(0, i).contains(ids[i]) ==> resolved(
                after,
                ns[i],
            ) == Some(ids[i])
        }),
    decreases ids.len(),
{
    let init = ids.drop_last();
    let (front, mid) = assigned_in_turn(d, init)->Ok_0;
    let (ns, after) = assigned_in_turn(d, ids)->Ok_0;
    lemma_turn(d, init);
    lemma_turn(d, ids);
    if i < init.len() {
        lemma_turn_numbers(d, init, i);
        assert(init.subrange(0, i) =~= ids.subrange(0, i));
        assert(init[i] == ids[i]);
        assert(init.to_set().contains(ids[i]));
        if !d.fwd.dom().contains(ids[i]) && !ids.subrange(0, i).contains(ids[i]) {
            assert(ns[i] < next_of(mid)) by {
                lemma_new_grows(d, init, i + 1);
                lemma_new_step(d, init.subrange(0, i + 1));
                assert(init.subrange(0, i + 1).drop_last() =~= init.subrange(0, i));
                assert(init.subrange(0, i + 1).last() == init[i]);
            }
        }
    } else {
        assert(ids.subrange(0, i) =~= init);
        assert(init.to_set().contains(ids[i]) <==> init.contains(ids[i]));
    }
}

proof fn lemma_new_grows(d: DictView, ids: Seq<Seq<char>>, n: int)
    requires
        0 <= n <= ids.len(),
    ensures
        new_among(d, ids.subrange(0, n)).len() <= new_among(d, ids).len(),
    decreases ids.len() - n,
{
    if n < ids.len() {
        lemma_new_step(d, ids.subrange(0, n + 1));
        assert(ids.subrange(0, n + 1).drop_last() =~= ids.subrange(0, n));
        lemma_new_grows(d, ids, n + 1);
    } else {
        assert(ids.subrange(0, n) =~= ids);
    }
}

/// The numbers of a batch: each identifier is found under its number afterwards;
/// a known one keeps its number, and the new ones get the next numbers in the
/// order in which they first occur, each repeat the same again.
pub proof fn law_batch_numbers(d: DictView, ids: Seq<Seq<char>>, i: int, j: int)
    requires
        batch_assigned(d, ids) is Ok,
        0 <= i < ids.len(),
        0 <= j < ids.len(),
    ensures
        ({
            let (ns, after) = batch_assigned(d, ids)->Ok_0;
            &&& looked_up(after, ids[i]) == Some(ns[i])
            &&& d.fwd.dom().contains(ids[i]) ==> looked_up(d, ids[i]) == Some(ns[i])
            &&& ids[i] == ids[j] ==> ns[i] == ns[j]
            &&& !d.fwd.dom().contains(ids[i]) && !ids.subrange(0, i).contains(ids[i]) ==> ns[i]
                == next_of(d) + ids.subrange(0, i).to_set().difference(d.fwd.dom()).len()
            &&& !d.fwd.dom().contains(ids[i]) && !ids.subrange(0, i).contains(ids[i]) ==> resolved(
                after,
                ns[i],
            ) == Some(ids[i])
        }),
{
    lemma_turn_numbers(d, ids, i);
    lemma_turn_numbers(d, ids, j);
}

/// The dictionary of a catalog is its three tables. Putting another one in leaves
/// the rest of the catalog as it was.
pub proof fn law_dictionary_in_catalog(c: CatalogView, d: DictView)
    ensures
        dict_in(c).fwd == c.dict_fwd,
        dict_in(c).rev == c.dict_rev,
        dict_in(c).next == c.dict_next_id,
        dict_in(with_dict(c, d)) == d,
        with_dict(c, d).events == c.events,
        with_dict(c, d).parts == c.parts,
        with_dict(c, d).period_parts == c.period_parts,
        with_dict(c, d).period_deltas == c.period_deltas,
        with_dict(c, d).period_state == c.period_state,
        with_dict(c, d).compaction_log == c.compaction_log,
        with_dict(c, d).next_part_id == c.next_part_id,
{
}

/// What is said of an operation on the dictionary: where success is specified, it
/// returned that value and left that dictionary; where a fault is, it failed with
/// the error of that fault and left the catalog as it was.
pub proof fn law_dictionary_outcome<T, V>(
    before: CatalogView,
    r: Result<T, InoxSetError>,
    after: CatalogView,
    value: spec_fn(T) -> V,
    expected: Result<(V, DictView), DictFault>,
)
    requires
        enters_as(before, r, after, value, expected),
    ensures
        r is Ok <==> expected is Ok,
        expected matches Ok((w, d)) ==> value(r->Ok_0) == w && dict_in(after) == d
            && after.events == before.events && after.parts == before.parts,
        expected matches Err(f) ==> after == before && r->Err_0@ == match f {
            DictFault::KeySize => crate::catalog::key_error(),
            DictFault::Exhausted => ErrorView::Configuration(
                "global dictionary ID space exhausted (u32::MAX)"@,
            ),
        },
{
}

proof fn lemma_resolved_ids(d: DictView, ids: Seq<u32>, i: int)
    ensures
        resolved_pairs(d, ids).map_values(|pair: (u32, Seq<char>)| pair.0) == ids.filter(
            |n: u32| d.rev.dom().contains(n as u64),
        ),
        0 <= i < resolved_pairs(d, ids).len() ==> d.rev[resolved_pairs(d, ids)[i].0 as u64]
            == resolved_pairs(d, ids)[i].1,
    decreases ids.len(),
{
    reveal(Seq::filter);
    let known = |n: u32| d.rev.dom().contains(n as u64);
    let number = |pair: (u32, Seq<char>)| pair.0;
    let whole = resolved_pairs(d, ids);
    if ids.len() == 0 {
        assert(whole.map_values(number) =~= ids.filter(known));
    } else {
        let front = resolved_pairs(d, ids.drop_last());
        lemma_resolved_ids(d, ids.drop_last(), i);
        if known(ids.last()) {
            assert(whole.map_values(number) =~= front.map_values(number).push(ids.last()));
        }
    }
}

/// Resolving a list of numbers gives those that have an identifier, in order and
/// as often as they are asked for, each with its identifier; resolving them place
/// by place gives an answer for each.
pub proof fn law_resolved_lists(d: DictView, ids: Seq<u32>, i: int)
    ensures
        resolved_pairs(d, ids).map_values(|pair: (u32, Seq<char>)| pair.0) == ids.filter(
            |n: u32| d.rev.dom().contains(n as u64),
        ),
        0 <= i < resolved_pairs(d, ids).len() ==> d.rev[resolved_pairs(d, ids)[i].0 as u64]
            == resolved_pairs(d, ids)[i].1,
        resolved_all(d, ids).len() == ids.len(),
        0 <= i < ids.len() ==> resolved_all(d, ids)[i] == if d.rev.dom().contains(ids[i] as u64) {
            Some(d.rev[ids[i] as u64])
        } else {
            None
        },
{
    lemma_resolved_ids(d, ids, i);
}

proof fn lemma_pow16(n: nat)
    ensures
        pow16(n) == pow(16, n),
    decreases n,
{
    reveal(pow);
    if n > 0 {
        lemma_pow16((n - 1) as nat);
    }
}

/// The text of a UUID is its 32 hexadecimal digits, most significant first and in
/// lower case, with hyphens behind the 8th, 12th, 16th and 20th.
pub proof fn law_uuid_text(id: u128, i: int)
    requires
        0 <= i < 32,
    ensures
        ({
            let text = uuid_text(id);
            let place = if i < 8 {
                i
            } else if i < 12 {
                i + 1
            } else if i < 16 {
                i + 2
            } else if i < 20 {
                i + 3
            } else {
                i + 4
            };
            let digit = (id as int / pow(16, (31 - i) as nat)) % 16;
            &&& text.len() == 36
            &&& text[8] == '-' && text[13] == '-' && text[18] == '-' && text[23] == '-'
            &&& digit < 10 ==> text[place] == (48 + digit) as char
            &&& digit >= 10 ==> text[place] == (87 + digit) as char
        }),
{
    lemma_pow16((31 - i) as nat);
    vstd::arithmetic::power::lemma_pow_positive(16, (31 - i) as nat);
}

/// Lists of texts and numbers are seen place by place.
pub proof fn law_dictionary_views(
    a: Seq<&str>,
    b: Seq<Option<String>>,
    c: Seq<(u32, String)>,
    ids: Seq<u128>,
    i: int,
)
    ensures
        str_texts(a).len() == a.len(),
        0 <= i < a.len() ==> str_texts(a)[i] == a[i]@,
        option_texts(b).len() == b.len(),
        0 <= i < b.len() && b[i] is Some ==> option_texts(b)[i] == Some(b[i]->0@),
        0 <= i < b.len() && b[i] is None ==> option_texts(b)[i] is None,
        0 <= i < b.len() ==> option_texts(b)[i] == text_option(b[i]),
        pair_texts(c).len() == c.len(),
        0 <= i < c.len() ==> pair_texts(c)[i] == (c[i].0, c[i].1@),
        uuid_texts(ids).len() == ids.len(),
        0 <= i < ids.len() ==> uuid_texts(ids)[i] == uuid_text(ids[i]),
{
}

/// A number resolves to a UUID exactly where its identifier is one.
pub proof fn law_as_uuid(text: Option<Seq<char>>)
    ensures
        text is None ==> as_uuid(text) is None,
        text matches Some(t) ==> as_uuid(text) == parsed_uuid(t),
{
}

} // verus!
