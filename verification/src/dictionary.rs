//! A dictionary on its own, for callers that only need identifiers.

use vstd::prelude::*;

use crate::catalog::{Catalog, CatalogView};
use crate::dict;
use crate::dict::{
    any_empty, as_uuid, assigned, batch_assigned, deleted, dict_in, enters_as, fault_error,
    looked_up, option_texts, resolved, resolved_all, str_texts, text_option, uuid_text, uuid_texts,
    DictFault,
};
use crate::error::InoxSetError;

verus! {

/// External identifiers and their numbers, in the tables of a catalog.
pub struct Dictionary {
    catalog: Catalog,
}

impl View for Dictionary {
    type V = CatalogView;

    closed spec fn view(&self) -> CatalogView {
        self.catalog@
    }
}

impl Dictionary {
    /// No table has a duplicate key.
    pub closed spec fn wf(self) -> bool {
        self.catalog.wf()
    }

    /// Works on the tables of a catalog.
    pub fn new(catalog: Catalog) -> (r: Dictionary)
        requires
            catalog.wf(),
        ensures
            r.wf(),
            r@ == catalog@,
    {
        Dictionary { catalog }
    }

    /// Hands the catalog back.
    pub fn into_catalog(self) -> (r: Catalog)
        requires
            self.wf(),
        ensures
            r.wf(),
            r@ == self@,
    {
        self.catalog
    }

    /// Returns the number of an identifier; a new one gets the next number.
    pub fn get_or_assign(&mut self, external_id: &str) -> (r: Result<u32, InoxSetError>)
        requires
            old(self).wf(),
        ensures
            final(self).wf(),
            enters_as(
                old(self)@,
                r,
                final(self)@,
                |v: u32| v,
                assigned(dict_in(old(self)@), external_id@),
            ),
    {
        dict::assign_or_get(&mut self.catalog, external_id)
    }

    /// Returns the numbers of identifiers in their order; new ones get the next
    /// numbers.
    pub fn get_or_assign_batch(&mut self, external_ids: &[&str]) -> (r: Result<
        Vec<u32>,
        InoxSetError,
    >)
        requires
            old(self).wf(),
        ensures
            final(self).wf(),
            enters_as(
                old(self)@,
                r,
                final(self)@,
                |v: Vec<u32>| v@,
                batch_assigned(dict_in(old(self)@), str_texts(external_ids@)),
            ),
    {
        dict::batch_assign_or_get(&mut self.catalog, external_ids)
    }

    /// Returns the number of an identifier, or `None` if it has none.
    pub fn lookup(&self, external_id: &str) -> (r: Result<Option<u32>, InoxSetError>)
        requires
            self.wf(),
        ensures
            match r {
                Ok(v) => external_id@.len() > 0 && v == looked_up(dict_in(self@), external_id@),
                Err(e) => external_id@.len() == 0 && e@ == fault_error(DictFault::KeySize),
            },
    {
        dict::lookup(&self.catalog, external_id)
    }

    /// Returns whether an identifier has a number.
    pub fn contains(&self, external_id: &str) -> (r: Result<bool, InoxSetError>)
        requires
            self.wf(),
        ensures
            match r {
                Ok(v) => external_id@.len() > 0 && v == dict_in(self@).fwd.dom().contains(
                    external_id@,
                ),
                Err(e) => external_id@.len() == 0 && e@ == fault_error(DictFault::KeySize),
            },
    {
        match dict::lookup(&self.catalog, external_id) {
            Ok(v) => Ok(v.is_some()),
            Err(e) => Err(e),
        }
    }

    /// Returns the numbers of identifiers in their order, with `None` for those
    /// that have none.
    pub fn lookup_batch(&self, external_ids: &[&str]) -> (r: Result<
        Vec<Option<u32>>,
        InoxSetError,
    >)
        requires
            self.wf(),
        ensures
            match r {
                Ok(v) => {
                    &&& !any_empty(str_texts(external_ids@))
                    &&& v@ == Seq::new(
                        external_ids@.len(),
                        |i: int| looked_up(dict_in(self@), external_ids@[i]@),
                    )
                },
                Err(e) => any_empty(str_texts(external_ids@)) && e@ == fault_error(
                    DictFault::KeySize,
                ),
            },
    {
        dict::batch_lookup(&self.catalog, external_ids)
    }

    /// Returns the identifier of a number, or `None` if there is none.
    pub fn resolve(&self, internal_id: u32) -> (r: Option<String>)
        requires
            self.wf(),
        ensures
            text_option(r) == resolved(dict_in(self@), internal_id),
    {
        dict::reverse_lookup(&self.catalog, internal_id)
    }

    /// Returns the identifiers of numbers in their order, with `None` for those
    /// that have none.
    pub fn resolve_batch(&self, internal_ids: &[u32]) -> (r: Vec<Option<String>>)
        requires
            self.wf(),
        ensures
            option_texts(r@) == resolved_all(dict_in(self@), internal_ids@),
    {
        dict::batch_reverse_lookup(&self.catalog, internal_ids)
    }

    /// Removes an identifier and its number, and returns the number it had. The
    /// number is not given out again.
    pub fn delete(&mut self, external_id: &str) -> (r: Result<Option<u32>, InoxSetError>)
        requires
            old(self).wf(),
        ensures
            final(self).wf(),
            enters_as(
                old(self)@,
                r,
                final(self)@,
                |v: Option<u32>| v,
                if external_id@.len() == 0 {
                    Err(DictFault::KeySize)
                } else {
                    Ok(
                        (
                            looked_up(dict_in(old(self)@), external_id@),
                            deleted(dict_in(old(self)@), external_id@),
                        ),
                    )
                },
            ),
    {
        dict::delete(&mut self.catalog, external_id)
    }

    /// Returns the number of entries.
    pub fn len(&self) -> (r: u64)
        requires
            self.wf(),
        ensures
            dict_in(self@).fwd.dom().finite(),
            r == dict_in(self@).fwd.dom().len(),
    {
        self.catalog.dict_fwd.len() as u64
    }

    /// Returns whether there are no entries.
    pub fn is_empty(&self) -> (r: bool)
        requires
            self.wf(),
        ensures
            r == (dict_in(self@).fwd.dom() == Set::<Seq<char>>::empty()),
    {
        let n: u64 = self.len();
        proof {
            let dom = dict_in(self@).fwd.dom();
            if dom.len() == 0 {
                assert(dom =~= Set::empty());
            }
        }
        n == 0
    }

    /// Returns the number of a UUID, given as its 128 bits; a new one gets the
    /// next number.
    pub fn get_or_assign_uuid(&mut self, id: u128) -> (r: Result<u32, InoxSetError>)
        requires
            old(self).wf(),
        ensures
            final(self).wf(),
            enters_as(
                old(self)@,
                r,
                final(self)@,
                |v: u32| v,
                assigned(dict_in(old(self)@), uuid_text(id)),
            ),
    {
        dict::assign_or_get_uuid(&mut self.catalog, id)
    }

    /// Returns the UUID of a number, or `None` if there is none.
    pub fn resolve_uuid(&self, internal_id: u32) -> (r: Option<u128>)
        requires
            self.wf(),
        ensures
            r == as_uuid(resolved(dict_in(self@), internal_id)),
            forall|id: u128|
                resolved(dict_in(self@), internal_id) == Some(#[trigger] uuid_text(id)) ==> r
                    == Some(id),
    {
        dict::reverse_lookup_uuid(&self.catalog, internal_id)
    }

    /// Returns the numbers of UUIDs in their order; new ones get the next
    /// numbers.
    pub fn get_or_assign_uuid_batch(&mut self, ids: &[u128]) -> (r: Result<Vec<u32>, InoxSetError>)
        requires
            old(self).wf(),
        ensures
            final(self).wf(),
            enters_as(
                old(self)@,
                r,
                final(self)@,
                |v: Vec<u32>| v@,
                batch_assigned(dict_in(old(self)@), uuid_texts(ids@)),
            ),
    {
        dict::batch_assign_or_get_uuids(&mut self.catalog, ids)
    }

    /// Returns the UUIDs of numbers in their order, with `None` for those that
    /// have none.
    pub fn resolve_uuid_batch(&self, internal_ids: &[u32]) -> (r: Vec<Option<u128>>)
        requires
            self.wf(),
        ensures
            r@ == Seq::new(
                internal_ids@.len(),
                |i: int| as_uuid(resolved(dict_in(self@), internal_ids@[i])),
            ),
            forall|i: int, id: u128|
                #![trigger r@[i], uuid_text(id)]
                0 <= i < internal_ids@.len() && resolved(dict_in(self@), internal_ids@[i])
                    == Some(uuid_text(id)) ==> r@[i] == Some(id),
    {
        dict::batch_reverse_lookup_uuids(&self.catalog, internal_ids)
    }
}

} // verus!
