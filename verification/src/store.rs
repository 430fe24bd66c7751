//! The persisted sketch store, as the query engine sees it: one optional
//! encoded byte stream per sample identifier, loaded and decoded on demand
//! so that only the sketches a query touches are ever materialised.
use vstd::prelude::*;

verus! {

use crate::QueryError;
use crate::codec::decodable;
use crate::codec::decoded_set;
use crate::codec::decode_sketch;
use crate::sketch::Sketch;

/// The store: `entries[id]` holds the encoded sketch of sample `id`, or
/// nothing when that sample was never indexed.
pub struct SketchStore {
    entries: Vec<Option<Vec<u8>>>,
}

impl SketchStore {
    /// Number of sample identifiers the store spans.
    pub closed spec fn len(self) -> int {
        self.entries@.len() as int
    }

    /// Sample `i` has no persisted bytes.
    pub closed spec fn missing_at(self, i: int) -> bool {
        !(0 <= i < self.len()) || self.entries@[i] is None
    }

    /// Sample `i` has persisted bytes that do not decode.
    pub closed spec fn corrupt_at(self, i: int) -> bool {
        &&& 0 <= i < self.len()
        &&& self.entries@[i] matches Some(b) && !decodable(b@)
    }

    /// Sample `i` has persisted bytes that decode.
    pub open spec fn valid_at(self, i: int) -> bool {
        !self.missing_at(i) && !self.corrupt_at(i)
    }

    /// The element set persisted for sample `i`.
    pub closed spec fn set_at(self, i: int) -> Set<Seq<u8>> {
        decoded_set(self.entries@[i]->0@)
    }

    /// An empty store.
    pub fn new() -> (r: SketchStore)
        ensures
            r.len() == 0,
    {
        SketchStore { entries: Vec::new() }
    }

    /// Appends the encoded sketch for the next sample identifier.
    pub fn push_encoded(&mut self, bytes: Vec<u8>)
        ensures
            final(self).len() == old(self).len() + 1,
            final(self).missing_at(old(self).len()) == false,
            final(self).corrupt_at(old(self).len()) == !decodable(bytes@),
            decodable(bytes@) ==> final(self).set_at(old(self).len()) == decoded_set(bytes@),
            forall|i: int| 0 <= i < old(self).len() ==> unchanged_at(*old(self), *final(self), i),
    {
        self.entries.push(Some(bytes));
    }

    /// Records the next sample identifier as never indexed.
    pub fn push_absent(&mut self)
        ensures
            final(self).len() == old(self).len() + 1,
            final(self).missing_at(old(self).len()),
            forall|i: int| 0 <= i < old(self).len() ==> unchanged_at(*old(self), *final(self), i),
    {
        self.entries.push(None);
    }

    /// Number of sample identifiers the store spans.
    pub fn sample_count(&self) -> (r: usize)
        ensures
            r == self.len(),
    {
        self.entries.len()
    }

    /// Loads and decodes the sketch persisted for sample `id`.
    pub fn load(&self, id: i32) -> (r: Result<Sketch, QueryError>)
        ensures
            match r {
                Ok(s) => self.valid_at(id as int) && s.wf() && s@ == self.set_at(id as int),
                Err(QueryError::MissingSketch(j)) => j == id && self.missing_at(id as int),
                Err(QueryError::CorruptSketch(j)) => j == id && self.corrupt_at(id as int),
                Err(_) => false,
            },
            r is Ok <==> self.valid_at(id as int),
    {
        if id < 0 {
            return Err(QueryError::MissingSketch(id));
        }
        let idx = id as usize;
        if idx >= self.entries.len() {
            return Err(QueryError::MissingSketch(id));
        }
        match &self.entries[idx] {
            None => Err(QueryError::MissingSketch(id)),
            Some(bytes) => match decode_sketch(bytes) {
                None => Err(QueryError::CorruptSketch(id)),
                Some(s) => Ok(s),
            },
        }
    }
}

/// Entry `i` reads the same in both stores.
pub open spec fn unchanged_at(a: SketchStore, b: SketchStore, i: int) -> bool {
    &&& b.missing_at(i) == a.missing_at(i)
    &&& b.corrupt_at(i) == a.corrupt_at(i)
    &&& a.valid_at(i) ==> b.set_at(i) == a.set_at(i)
}

} // verus!
