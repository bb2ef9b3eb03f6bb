use crate::bytes::{clone_optional_bytes, optional_bytes};
use crate::codec::{
    deserialize_entry,
    deserialize_metadata,
    entry_decoding,
    entry_encoding,
    metadata_decoding,
    metadata_encoding,
    optional_string,
    optional_text,
    serialize_entry,
    serialize_metadata,
};
use crate::error::RaftError;
use crate::log::{Range, rows, Store};
use vstd::prelude::*;

verus! {

/// The key under which the log keeps its metadata in the store.
#[derive(Clone, Copy, Debug, PartialEq, Eq, Structural)]
pub struct MetadateKey;

impl MetadateKey {
    /// The bytes of the key.
    pub open spec fn bytes() -> Seq<u8> {
        seq![0u8]
    }

    /// The key as the store takes it: the single byte 0.
    pub fn encode(&self) -> (key: Vec<u8>)
        ensures
            key@ == Self::bytes(),
    {
        let mut key: Vec<u8> = Vec::new();
        key.push(0u8);
        assert(key@ =~= Self::bytes());
        key
    }
}

/// What an entry holds.
pub struct EntryView {
    pub index: u64,
    pub term: u64,
    pub command: Option<Seq<u8>>,
}

/// One entry of the log.
#[derive(Debug, PartialEq, Eq)]
pub struct Entry {
    /// The entry's position in the log, from 1.
    pub index: u64,
    /// The term of the leader that created the entry.
    pub term: u64,
    /// The command, opaque to the engine.
    pub command: Option<Vec<u8>>,
}

impl View for Entry {
    type V = EntryView;

    open spec fn view(&self) -> EntryView {
        EntryView { index: self.index, term: self.term, command: optional_bytes(self.command) }
    }
}

impl Clone for Entry {
    fn clone(&self) -> (copy: Entry)
        ensures
            copy@ == self@,
    {
        Entry { index: self.index, term: self.term, command: clone_optional_bytes(&self.command) }
    }
}

/// What a list of entries holds.
pub open spec fn entry_views(entries: &Vec<Entry>) -> Seq<EntryView> {
    Seq::new(entries@.len(), |i: int| entries@[i]@)
}

/// What an optional entry holds.
pub open spec fn optional_entry(entry: Option<Entry>) -> Option<EntryView> {
    match entry {
        Some(e) => Some(e@),
        None => None,
    }
}

/// A copy of a list of entries.
pub fn clone_entries(entries: &Vec<Entry>) -> (copy: Vec<Entry>)
    ensures
        entry_views(&copy) == entry_views(entries),
{
    let mut copy: Vec<Entry> = Vec::with_capacity(entries.len());
    let mut i: usize = 0;
    while i < entries.len()
        invariant
            i <= entries.len(),
            entry_views(&copy) == entry_views(entries).take(i as int),
        decreases entries.len() - i,
    {
        let ghost before = entry_views(&copy);
        copy.push(entries[i].clone());
        assert(entry_views(&copy) =~= before.push(entries[i as int]@));
        i += 1;
        assert(entry_views(&copy) =~= entry_views(entries).take(i as int));
    }
    assert(entry_views(entries).take(entries.len() as int) =~= entry_views(entries));
    copy
}

/// The entry that stored bytes stand for.
pub open spec fn stored_entry(bytes: Seq<u8>) -> EntryView {
    let triple = entry_decoding(bytes)->Some_0;
    EntryView { index: triple.0, term: triple.1, command: triple.2 }
}

/// What a log holds: its entries, how far they are committed, and the
/// metadata last saved (term 0 and no vote where none was).
pub struct LogView {
    pub entries: Seq<EntryView>,
    pub commit_index: nat,
    pub term: u64,
    pub voted_for: Option<Seq<char>>,
}

impl LogView {
    /// A log with no entries and no metadata.
    pub open spec fn empty() -> LogView {
        LogView { entries: Seq::empty(), commit_index: 0, term: 0, voted_for: None }
    }

    /// The index of the last entry; 0 where there is none.
    pub open spec fn last_index(self) -> nat {
        self.entries.len()
    }

    /// The entry at `index`.
    pub open spec fn get(self, index: int) -> Option<EntryView> {
        if 1 <= index <= self.entries.len() {
            Some(self.entries[index - 1])
        } else {
            None
        }
    }

    /// The term of the entry at `index`; 0 where there is none.
    pub open spec fn term_at(self, index: int) -> u64 {
        if 1 <= index <= self.entries.len() {
            self.entries[index - 1].term
        } else {
            0
        }
    }

    /// The term of the last entry; 0 where there is none.
    pub open spec fn last_term(self) -> u64 {
        self.term_at(self.entries.len() as int)
    }

    /// The term of the last committed entry; 0 where there is none.
    pub open spec fn commit_term(self) -> u64 {
        self.term_at(self.commit_index as int)
    }

    /// Whether the log holds an entry at `index` with term `term`. The empty
    /// prefix, index 0 with term 0, is always held.
    pub open spec fn has(self, index: int, term: u64) -> bool {
        if 1 <= index <= self.entries.len() {
            self.entries[index - 1].term == term
        } else {
            index == 0 && term == 0
        }
    }

    /// Entries are numbered from 1 without a gap, the index after the last
    /// is a number, and the commit index points into the entries.
    pub open spec fn well_formed(self) -> bool {
        &&& self.commit_index <= self.entries.len() < u64::MAX
        &&& forall|i: int| 0 <= i < self.entries.len() ==> (#[trigger] self.entries[i]).index == i + 1
    }

    /// The log with one more entry.
    pub open spec fn append(self, term: u64, command: Option<Seq<u8>>) -> LogView {
        LogView {
            entries: self.entries.push(
                EntryView { index: (self.entries.len() + 1) as u64, term, command },
            ),
            ..self
        }
    }

    /// The log without the entries after `index`.
    pub open spec fn truncate(self, index: int) -> LogView {
        if 0 <= index < self.entries.len() {
            LogView { entries: self.entries.take(index), ..self }
        } else {
            self
        }
    }

    /// The log committed up to `index`.
    pub open spec fn commit(self, index: nat) -> LogView {
        LogView { commit_index: index, ..self }
    }

    /// The log with new metadata.
    pub open spec fn save(self, term: u64, voted_for: Option<Seq<char>>) -> LogView {
        LogView { term, voted_for, ..self }
    }
}

/// The typed log: entries and metadata, kept as bytes in a `Store`.
pub struct Log<S: Store> {
    store: S,
    last_index: u64,
    last_term: u64,
    commit_index: u64,
    commit_term: u64,
}

impl<S: Store> View for Log<S> {
    type V = LogView;

    closed spec fn view(&self) -> LogView {
        let found = self.store.metadata().contains_key(MetadateKey::bytes());
        let pair = metadata_decoding(self.store.metadata()[MetadateKey::bytes()])->Some_0;
        LogView {
            entries: self.store.entries().map_values(|bytes: Seq<u8>| stored_entry(bytes)),
            commit_index: self.store.committed_index(),
            term: if found { pair.0 } else { 0 },
            voted_for: if found { pair.1 } else { None },
        }
    }
}

impl<S: Store> Log<S> {
    /// What ties the fields to the store.
    pub closed spec fn inv(&self) -> bool {
        &&& self.store.wf()
        &&& self.store.entries().len() == self.last_index
        &&& forall|i: int|
            0 <= i < self.store.entries().len() ==> entry_decoding(
                #[trigger] self.store.entries()[i],
            ) is Some
        &&& self.last_term == self@.last_term()
        &&& self.commit_index == self.store.committed_index()
        &&& self.commit_term == self@.commit_term()
        &&& self.store.metadata().contains_key(MetadateKey::bytes()) ==> metadata_decoding(
            self.store.metadata()[MetadateKey::bytes()],
        ) is Some
    }

    /// The log's invariant.
    pub open spec fn wf(&self) -> bool {
        self.inv() && self@.well_formed()
    }

    /// Whether the store under the log never fails.
    pub closed spec fn infallible(&self) -> bool {
        self.store.infallible()
    }

    /// Whether `store` holds nothing at all.
    pub open spec fn fresh(store: &S) -> bool {
        &&& store.wf()
        &&& store.entries().len() == 0
        &&& store.committed_index() == 0
        &&& store.metadata() == Map::<Seq<u8>, Seq<u8>>::empty()
    }

    /// A log over `store`, taken to hold nothing yet.
    pub fn new(store: S) -> (log: Log<S>)
        ensures
            log.infallible() == store.infallible(),
            Self::fresh(&store) ==> log.wf() && log@ == LogView::empty(),
    {
        let log = Log { store, last_term: 0, last_index: 0, commit_index: 0, commit_term: 0 };
        proof {
            if Self::fresh(&store) {
                assert(log@.entries =~= Seq::<EntryView>::empty());
            }
        }
        log
    }

    /// The store under the log.
    pub fn store(&self) -> (store: &S)
        ensures
            self.wf() ==> store.wf() && store.entries().len() == self@.last_index()
                && store.committed_index() == self@.commit_index,
            store.infallible() == self.infallible(),
    {
        &self.store
    }

    /// The index of the last entry; 0 where the log is empty.
    pub fn last_index(&self) -> (index: u64)
        requires
            self.wf(),
        ensures
            index == self@.last_index(),
    {
        self.last_index
    }

    /// The term of the last entry; 0 where the log is empty.
    pub fn last_term(&self) -> (term: u64)
        requires
            self.wf(),
        ensures
            term == self@.last_term(),
    {
        self.last_term
    }

    /// The index of the last committed entry; 0 where there is none.
    pub fn commit_index(&self) -> (index: u64)
        requires
            self.wf(),
        ensures
            index == self@.commit_index,
    {
        self.commit_index
    }

    /// The term of the last committed entry; 0 where there is none.
    pub fn commit_term(&self) -> (term: u64)
        requires
            self.wf(),
        ensures
            term == self@.commit_term(),
    {
        self.commit_term
    }

    /// Saves the term and the vote, replacing what was saved before.
    pub fn save_metadata(&mut self, term: u64, voted_for: Option<&str>) -> (r: Result<
        (),
        RaftError,
    >)
        requires
            old(self).wf(),
        ensures
            final(self).wf(),
            final(self).infallible() == old(self).infallible(),
            r is Ok ==> final(self)@ == old(self)@.save(term, optional_text(voted_for)),
            r is Err ==> final(self)@ == old(self)@,
            metadata_encoding(term, optional_text(voted_for)) is None ==> r == Err::<
                (),
                RaftError,
            >(RaftError::Decode),
            old(self).infallible() ==> (r is Ok <==> metadata_encoding(
                term,
                optional_text(voted_for),
            ) is Some),
    {
        let value = match serialize_metadata(term, voted_for) {
            Ok(bytes) => bytes,
            Err(_) => {
                return Err(RaftError::Decode);
            },
        };
        let r = self.store.set_metadata(MetadateKey.encode(), value);
        proof {
            assert(final(self)@.entries =~= old(self)@.entries);
        }
        r
    }

    /// Reads the term and the vote last saved; term 0 and no vote where
    /// nothing was saved.
    pub fn get_metadata(&self) -> (r: Result<(u64, Option<String>), RaftError>)
        requires
            self.wf(),
        ensures
            r matches Ok(pair) ==> pair.0 == self@.term && optional_string(pair.1)
                == self@.voted_for,
            self.infallible() ==> r is Ok,
    {
        match self.store.get_metadata(MetadateKey.encode()) {
            Ok(value) => match deserialize_metadata(&value) {
                Ok(pair) => Ok(pair),
                Err(_) => Err(RaftError::Decode),
            },
            Err(RaftError::NotFound) => Ok((0, None)),
            Err(e) => Err(e),
        }
    }

    /// Reads the entry at `index`: `None` at index 0 and beyond the last.
    pub fn get(&self, index: u64) -> (r: Result<Option<Entry>, RaftError>)
        requires
            self.wf(),
        ensures
            r matches Ok(found) ==> optional_entry(found) == self@.get(index as int),
            self.infallible() ==> r is Ok,
    {
        match self.store.get(index) {
            Ok(Some(bytes)) => match deserialize_entry(&bytes) {
                Ok(triple) => Ok(Some(Entry { index: triple.0, term: triple.1, command: triple.2 })),
                Err(_) => Err(RaftError::Decode),
            },
            Ok(None) => Ok(None),
            Err(e) => Err(e),
        }
    }

    /// Appends an entry with the given term and command at the index after
    /// the last, and returns it.
    pub fn append(&mut self, term: u64, command: Option<Vec<u8>>) -> (r: Result<Entry, RaftError>)
        requires
            old(self).wf(),
        ensures
            final(self).wf(),
            final(self).infallible() == old(self).infallible(),
            r matches Ok(entry) ==> final(self)@ == old(self)@.append(term, optional_bytes(command))
                && entry@ == final(self)@.entries.last(),
            r is Err ==> final(self)@ == old(self)@,
            old(self)@.last_index() + 1 == u64::MAX ==> r == Err::<Entry, RaftError>(
                RaftError::Exhausted,
            ),
            old(self)@.last_index() + 1 < u64::MAX && entry_encoding(
                (old(self)@.last_index() + 1) as u64,
                term,
                optional_bytes(command),
            ) is None ==> r == Err::<Entry, RaftError>(RaftError::Decode),
            old(self).infallible() ==> (r is Ok <==> old(self)@.last_index() + 1 < u64::MAX
                && entry_encoding(
                (old(self)@.last_index() + 1) as u64,
                term,
                optional_bytes(command),
            ) is Some),
    {
        if self.last_index >= u64::MAX - 1 {
            return Err(RaftError::Exhausted);
        }
        let index = self.last_index + 1;
        let bytes = match serialize_entry(index, term, &command) {
            Ok(bytes) => bytes,
            Err(_) => {
                return Err(RaftError::Decode);
            },
        };
        match self.store.append(bytes) {
            Ok(_) => {
                self.last_index = index;
                self.last_term = term;
                proof {
                    assert(final(self)@.entries =~= old(self)@.append(
                        term,
                        optional_bytes(command),
                    ).entries);
                }
                Ok(Entry { index, term, command })
            },
            Err(e) => {
                proof {
                    assert(final(self)@.entries =~= old(self)@.entries);
                }
                Err(e)
            },
        }
    }

    /// Reads the entries whose index lies in `range`, in ascending order.
    pub fn scan(&self, range: Range) -> (r: Result<Vec<Entry>, RaftError>)
        requires
            self.wf(),
        ensures
            r matches Ok(found) ==> entry_views(&found) == range.select(self@.entries),
            self.infallible() ==> r is Ok,
    {
        let stored = match self.store.scan(range) {
            Ok(stored) => stored,
            Err(e) => {
                return Err(e);
            },
        };
        let ghost all = self.store.entries();
        let ghost picked = range.select(all);
        let ghost offset = if picked.len() > 0 { range.first() - 1 } else { 0 };
        assert(forall|i: int| 0 <= i < picked.len() ==> picked[i] == all[offset + i]);
        let mut found: Vec<Entry> = Vec::with_capacity(stored.len());
        let mut i: usize = 0;
        while i < stored.len()
            invariant
                self.wf(),
                all == self.store.entries(),
                picked == range.select(all),
                rows(&stored) == picked,
                forall|j: int| 0 <= j < picked.len() ==> picked[j] == all[offset + j],
                0 <= offset,
                offset + picked.len() <= all.len(),
                i <= stored.len(),
                entry_views(&found) == range.select(self@.entries).take(i as int),
            decreases stored.len() - i,
        {
            assert(rows(&stored)[i as int] == stored[i as int]@);
            assert(picked[i as int] == all[offset + i]);
            let entry = match deserialize_entry(&stored[i]) {
                Ok(triple) => Entry { index: triple.0, term: triple.1, command: triple.2 },
                Err(_) => {
                    return Err(RaftError::Decode);
                },
            };
            let ghost before = entry_views(&found);
            found.push(entry);
            assert(entry_views(&found) =~= before.push(entry@));
            i += 1;
            assert(entry_views(&found) =~= range.select(self@.entries).take(i as int));
        }
        assert(range.select(self@.entries).take(stored.len() as int) =~= range.select(
            self@.entries,
        ));
        Ok(found)
    }

    /// Whether the log holds an entry at `index` with term `term`. The empty
    /// prefix, index 0 with term 0, is always held.
    pub fn has(&self, index: u64, term: u64) -> (r: Result<bool, RaftError>)
        requires
            self.wf(),
        ensures
            r matches Ok(held) ==> held == self@.has(index as int, term),
            self.infallible() ==> r is Ok,
    {
        match self.get(index) {
            Ok(Some(entry)) => Ok(entry.term == term),
            Ok(None) => Ok(index == 0 && term == 0),
            Err(e) => Err(e),
        }
    }

    /// Drops the entries after `index`. Refused, with `LogInconsistency`,
    /// where one of them is committed.
    pub fn truncate(&mut self, index: u64) -> (r: Result<(), RaftError>)
        requires
            old(self).wf(),
        ensures
            final(self).wf(),
            final(self).infallible() == old(self).infallible(),
            r is Ok ==> index >= old(self)@.commit_index && final(self)@ == old(self)@.truncate(
                index as int,
            ),
            r is Err ==> final(self)@ == old(self)@,
            index < old(self)@.commit_index ==> r == Err::<(), RaftError>(
                RaftError::LogInconsistency,
            ),
            old(self).infallible() ==> (r is Ok <==> index >= old(self)@.commit_index),
    {
        if index < self.commit_index {
            return Err(RaftError::LogInconsistency);
        }
        if index >= self.last_index {
            return Ok(());
        }
        let term = if index == 0 {
            0
        } else {
            match self.get(index) {
                Ok(Some(entry)) => entry.term,
                Ok(None) => {
                    return Err(RaftError::LogInconsistency);
                },
                Err(e) => {
                    return Err(e);
                },
            }
        };
        match self.store.truncate(index) {
            Ok(_) => {
                self.last_index = index;
                self.last_term = term;
                proof {
                    assert(final(self)@.entries =~= old(self)@.truncate(index as int).entries);
                }
                Ok(())
            },
            Err(e) => {
                proof {
                    assert(final(self)@.entries =~= old(self)@.entries);
                }
                Err(e)
            },
        }
    }

    /// Moves the commit index up to `index` and returns it. Refused, with
    /// `LogInconsistency`, where the log holds no entry at `index` or has
    /// committed further already.
    pub fn commit(&mut self, index: u64) -> (r: Result<u64, RaftError>)
        requires
            old(self).wf(),
        ensures
            final(self).wf(),
            final(self).infallible() == old(self).infallible(),
            r matches Ok(committed) ==> committed == index && old(self)@.commit_index <= index
                <= old(self)@.last_index() && final(self)@ == old(self)@.commit(index as nat),
            r is Err ==> final(self)@ == old(self)@,
            !(old(self)@.commit_index <= index <= old(self)@.last_index()) ==> r == Err::<
                u64,
                RaftError,
            >(RaftError::LogInconsistency),
            old(self).infallible() ==> (r is Ok <==> old(self)@.commit_index <= index <= old(
                self,
            )@.last_index()),
    {
        if index > self.last_index || index < self.commit_index {
            return Err(RaftError::LogInconsistency);
        }
        if index == self.commit_index {
            return Ok(index);
        }
        let term = match self.get(index) {
            Ok(Some(entry)) => entry.term,
            Ok(None) => {
                return Err(RaftError::LogInconsistency);
            },
            Err(e) => {
                return Err(e);
            },
        };
        match self.store.commit(index) {
            Ok(()) => {
                self.commit_index = index;
                self.commit_term = term;
                proof {
                    assert(final(self)@.entries =~= old(self)@.entries);
                }
                Ok(index)
            },
            Err(e) => {
                proof {
                    assert(final(self)@.entries =~= old(self)@.entries);
                }
                Err(e)
            },
        }
    }
}

} // verus!
