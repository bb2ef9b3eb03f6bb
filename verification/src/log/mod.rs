//! The replicated log: a byte-level `Store`, and the typed `Log` over it.

pub mod laws;
pub mod log;
pub mod memory_store;

use crate::error::RaftError;
use vstd::prelude::*;

verus! {

/// One end of a range of log indices.
#[derive(Clone, Copy, Debug, PartialEq, Eq, Structural)]
pub enum Bound {
    Included(u64),
    Excluded(u64),
    Unbounded,
}

/// A range of log indices. Indices start at 1.
#[derive(Clone, Copy, Debug, PartialEq, Eq, Structural)]
pub struct Range {
    pub start: Bound,
    pub end: Bound,
}

impl Range {
    /// The range between the two bounds.
    pub fn from(start: Bound, end: Bound) -> (range: Range)
        ensures
            range.start == start,
            range.end == end,
    {
        Range { start, end }
    }

    /// The first index that the start bound admits.
    pub open spec fn first(&self) -> int {
        match self.start {
            Bound::Included(n) => if n == 0 { 1 } else { n as int },
            Bound::Excluded(n) => n + 1,
            Bound::Unbounded => 1,
        }
    }

    /// The last index that the end bound admits.
    pub open spec fn last(&self) -> int {
        match self.end {
            Bound::Included(n) => n as int,
            Bound::Excluded(n) => n - 1,
            Bound::Unbounded => u64::MAX as int,
        }
    }

    /// Whether `index` lies in the range.
    pub open spec fn contains(&self, index: int) -> bool {
        self.first() <= index <= self.last()
    }

    /// The items of `items` whose index lies in the range, in order, the
    /// first item having index 1.
    pub open spec fn select<T>(&self, items: Seq<T>) -> Seq<T> {
        let stop = if self.last() < items.len() { self.last() } else { items.len() as int };
        if self.first() <= stop {
            items.subrange(self.first() - 1, stop)
        } else {
            Seq::empty()
        }
    }
}

/// The byte strings that `items` holds, in order.
pub open spec fn rows(items: &Vec<Vec<u8>>) -> Seq<Seq<u8>> {
    Seq::new(items@.len(), |i: int| items@[i]@)
}

/// Byte-level persistence: a metadata table, an ordered log of opaque
/// entries addressed from index 1, and a commit index.
///
/// A store either performs an operation or reports an error and stays as
/// it was. A store that is `infallible` reports an error only where the
/// operation itself is refused.
pub trait Store: Send + Sync {
    /// The entries held, the first at index 1.
    spec fn entries(&self) -> Seq<Seq<u8>>;

    /// The commit index.
    spec fn committed_index(&self) -> nat;

    /// The metadata table.
    spec fn metadata(&self) -> Map<Seq<u8>, Seq<u8>>;

    /// The store's own invariant.
    spec fn wf(&self) -> bool;

    /// Whether the medium never fails.
    spec fn infallible(&self) -> bool;

    /// Writes `value` under `key`, replacing what was there.
    fn set_metadata(&mut self, key: Vec<u8>, value: Vec<u8>) -> (r: Result<(), RaftError>)
        requires
            old(self).wf(),
        ensures
            final(self).wf(),
            final(self).infallible() == old(self).infallible(),
            final(self).entries() == old(self).entries(),
            final(self).committed_index() == old(self).committed_index(),
            r is Ok ==> final(self).metadata() == old(self).metadata().insert(key@, value@),
            r is Err ==> final(self).metadata() == old(self).metadata(),
            old(self).infallible() ==> r is Ok,
    ;

    /// Reads the value under `key`; `NotFound` where there is none.
    fn get_metadata(&self, key: Vec<u8>) -> (r: Result<Vec<u8>, RaftError>)
        requires
            self.wf(),
        ensures
            r matches Ok(value) ==> self.metadata().contains_key(key@) && value@
                == self.metadata()[key@],
            r == Err::<Vec<u8>, RaftError>(RaftError::NotFound) ==> !self.metadata().contains_key(
                key@,
            ),
            self.infallible() ==> (r is Ok <==> self.metadata().contains_key(key@)),
            self.infallible() ==> (r is Err ==> r->Err_0 == RaftError::NotFound),
    ;

    /// Reads the entry at `index`; `None` at index 0 and beyond the last.
    fn get(&self, index: u64) -> (r: Result<Option<Vec<u8>>, RaftError>)
        requires
            self.wf(),
        ensures
            r matches Ok(Some(bytes)) ==> 1 <= index <= self.entries().len() && bytes@
                == self.entries()[index - 1],
            r matches Ok(None) ==> index == 0 || index > self.entries().len(),
            self.infallible() ==> r is Ok,
    ;

    /// Appends an entry and returns its index.
    fn append(&mut self, entry: Vec<u8>) -> (r: Result<u64, RaftError>)
        requires
            old(self).wf(),
        ensures
            final(self).wf(),
            final(self).infallible() == old(self).infallible(),
            final(self).committed_index() == old(self).committed_index(),
            final(self).metadata() == old(self).metadata(),
            r matches Ok(index) ==> final(self).entries() == old(self).entries().push(entry@)
                && index == final(self).entries().len(),
            r is Err ==> final(self).entries() == old(self).entries(),
            old(self).infallible() ==> r is Ok,
    ;

    /// Reads the entries whose index lies in `range`, in ascending order.
    fn scan(&self, range: Range) -> (r: Result<Vec<Vec<u8>>, RaftError>)
        requires
            self.wf(),
        ensures
            r matches Ok(found) ==> rows(&found) == range.select(self.entries()),
            self.infallible() ==> r is Ok,
    ;

    /// Drops the entries after `index` and returns the new last index.
    /// Refused where that would drop a committed entry.
    fn truncate(&mut self, index: u64) -> (r: Result<u64, RaftError>)
        requires
            old(self).wf(),
        ensures
            final(self).wf(),
            final(self).infallible() == old(self).infallible(),
            final(self).committed_index() == old(self).committed_index(),
            final(self).metadata() == old(self).metadata(),
            r matches Ok(last) ==> index >= old(self).committed_index() && final(self).entries()
                == old(self).entries().take(
                if index < old(self).entries().len() {
                    index as int
                } else {
                    old(self).entries().len() as int
                },
            ) && last == final(self).entries().len(),
            r is Err ==> final(self).entries() == old(self).entries(),
            old(self).infallible() ==> (r is Ok <==> index >= old(self).committed_index()),
    ;

    /// Moves the commit index up to `index`; it never moves down.
    /// Refused where the store holds no entry at `index`.
    fn commit(&mut self, index: u64) -> (r: Result<(), RaftError>)
        requires
            old(self).wf(),
        ensures
            final(self).wf(),
            final(self).infallible() == old(self).infallible(),
            final(self).entries() == old(self).entries(),
            final(self).metadata() == old(self).metadata(),
            r is Ok ==> index <= old(self).entries().len() && final(self).committed_index() == (
            if index > old(self).committed_index() {
                index as nat
            } else {
                old(self).committed_index()
            }),
            r is Err ==> final(self).committed_index() == old(self).committed_index(),
            old(self).infallible() ==> (r is Ok <==> index <= old(self).entries().len()),
    ;

    /// Reads the commit index.
    fn committed(&self) -> (r: Result<u64, RaftError>)
        requires
            self.wf(),
        ensures
            r matches Ok(index) ==> index == self.committed_index(),
            self.infallible() ==> r is Ok,
    ;
}

} // verus!
