use crate::bytes::{clone_bytes, same_bytes};
use crate::error::RaftError;
use crate::log::{Bound, Range, rows, Store};
use vstd::prelude::*;

verus! {

/// A store that keeps everything in memory. It never fails.
pub struct MemoryStore {
    log: Vec<Vec<u8>>,
    committed: u64,
    keys: Vec<Vec<u8>>,
    values: Vec<Vec<u8>>,
    table: Ghost<Map<Seq<u8>, Seq<u8>>>,
}

impl MemoryStore {
    /// An empty store: no entries, nothing committed, no metadata.
    pub fn new() -> (store: MemoryStore)
        ensures
            store.wf(),
            store.infallible(),
            store.entries() == Seq::<Seq<u8>>::empty(),
            store.committed_index() == 0,
            store.metadata() == Map::<Seq<u8>, Seq<u8>>::empty(),
    {
        let store = MemoryStore {
            log: Vec::new(),
            committed: 0,
            keys: Vec::new(),
            values: Vec::new(),
            table: Ghost(Map::empty()),
        };
        assert(rows(&store.log) =~= Seq::<Seq<u8>>::empty());
        store
    }

    /// The position of `key` among the keys held, if it is there.
    fn find(&self, key: &Vec<u8>) -> (at: Option<usize>)
        requires
            self.wf(),
        ensures
            match at {
                Some(i) => i < self.keys.len() && self.keys[i as int]@ == key@,
                None => !self.table@.contains_key(key@),
            },
    {
        let mut i: usize = 0;
        while i < self.keys.len()
            invariant
                i <= self.keys.len(),
                forall|j: int| 0 <= j < i ==> self.keys[j]@ != key@,
            decreases self.keys.len() - i,
        {
            if same_bytes(&self.keys[i], key) {
                return Some(i);
            }
            i += 1;
        }
        None
    }
}

impl Store for MemoryStore {
    closed spec fn entries(&self) -> Seq<Seq<u8>> {
        rows(&self.log)
    }

    closed spec fn committed_index(&self) -> nat {
        self.committed as nat
    }

    closed spec fn metadata(&self) -> Map<Seq<u8>, Seq<u8>> {
        self.table@
    }

    closed spec fn wf(&self) -> bool {
        &&& self.committed <= self.log.len()
        &&& self.keys.len() == self.values.len()
        &&& forall|i: int, j: int|
            0 <= i < j < self.keys.len() ==> self.keys[i]@ != self.keys[j]@
        &&& forall|i: int|
            0 <= i < self.keys.len() ==> self.table@.contains_key(#[trigger] self.keys[i]@)
                && self.table@[self.keys[i]@] == self.values[i]@
        &&& forall|k: Seq<u8>|
            self.table@.contains_key(k) ==> exists|i: int|
                0 <= i < self.keys.len() && #[trigger] self.keys[i]@ == k
    }

    closed spec fn infallible(&self) -> bool {
        true
    }

    fn set_metadata(&mut self, key: Vec<u8>, value: Vec<u8>) -> (r: Result<(), RaftError>) {
        let ghost before = self.table@;
        let ghost k = key@;
        let ghost v = value@;
        match self.find(&key) {
            Some(i) => {
                self.values[i] = value;
                self.table = Ghost(before.insert(k, v));
            },
            None => {
                self.keys.push(key);
                self.values.push(value);
                self.table = Ghost(before.insert(k, v));
                assert forall|x: Seq<u8>| self.table@.contains_key(x) implies exists|i: int|
                    0 <= i < self.keys.len() && #[trigger] self.keys[i]@ == x by {
                    if x == k {
                        assert(self.keys[self.keys.len() - 1]@ == x);
                    } else {
                        let i = choose|i: int|
                            0 <= i < old(self).keys.len() && #[trigger] old(self).keys[i]@ == x;
                        assert(self.keys[i]@ == x);
                    }
                }
            },
        }
        Ok(())
    }

    fn get_metadata(&self, key: Vec<u8>) -> (r: Result<Vec<u8>, RaftError>) {
        match self.find(&key) {
            Some(i) => Ok(clone_bytes(&self.values[i])),
            None => Err(RaftError::NotFound),
        }
    }

    fn get(&self, index: u64) -> (r: Result<Option<Vec<u8>>, RaftError>) {
        if index == 0 || index > self.log.len() as u64 {
            Ok(None)
        } else {
            let at = (index - 1) as usize;
            Ok(Some(clone_bytes(&self.log[at])))
        }
    }

    fn append(&mut self, entry: Vec<u8>) -> (r: Result<u64, RaftError>) {
        let ghost bytes = entry@;
        self.log.push(entry);
        assert(rows(&self.log) =~= rows(&old(self).log).push(bytes));
        Ok(self.log.len() as u64)
    }

    fn scan(&self, range: Range) -> (r: Result<Vec<Vec<u8>>, RaftError>) {
        let len = self.log.len();
        let stop: usize = match range.end {
            Bound::Included(n) => if n < len as u64 { n as usize } else { len },
            Bound::Excluded(n) => if n == 0 { 0 } else if n - 1 < len as u64 { (n - 1) as usize } else { len },
            Bound::Unbounded => len,
        };
        let skip: usize = match range.start {
            Bound::Included(n) => if n == 0 { 0 } else if n - 1 < len as u64 { (n - 1) as usize } else { len },
            Bound::Excluded(n) => if n < len as u64 { n as usize } else { len },
            Bound::Unbounded => 0,
        };
        let mut found: Vec<Vec<u8>> = Vec::new();
        if skip >= stop {
            assert(rows(&found) =~= range.select(self.entries()));
            return Ok(found);
        }
        let mut i: usize = skip;
        while i < stop
            invariant
                skip <= i <= stop <= self.log.len(),
                rows(&found) == rows(&self.log).subrange(skip as int, i as int),
            decreases stop - i,
        {
            let ghost before = rows(&found);
            found.push(clone_bytes(&self.log[i]));
            assert(rows(&found) =~= before.push(self.log[i as int]@));
            i += 1;
            assert(rows(&found) =~= rows(&self.log).subrange(skip as int, i as int));
        }
        Ok(found)
    }

    fn truncate(&mut self, index: u64) -> (r: Result<u64, RaftError>) {
        if index < self.committed {
            return Err(RaftError::LogInconsistency);
        }
        if index < self.log.len() as u64 {
            self.log.truncate(index as usize);
            assert(rows(&self.log) =~= rows(&old(self).log).take(index as int));
        } else {
            assert(rows(&self.log) =~= rows(&old(self).log).take(
                old(self).log.len() as int,
            ));
        }
        Ok(self.log.len() as u64)
    }

    fn commit(&mut self, index: u64) -> (r: Result<(), RaftError>) {
        if index > self.log.len() as u64 {
            return Err(RaftError::LogInconsistency);
        }
        if index > self.committed {
            self.committed = index;
        }
        Ok(())
    }

    fn committed(&self) -> (r: Result<u64, RaftError>) {
        Ok(self.committed)
    }
}

} // verus!
