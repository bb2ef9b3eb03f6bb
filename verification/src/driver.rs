//! The applied-state driver: it hands committed commands to the user's
//! state in log order, answers reads, and tallies the peers that have
//! confirmed the leader.

use crate::error::RaftError;
use crate::instruction::{Instruction, InstructionView};
use crate::message::{Address, AddressView};
use vstd::prelude::*;

verus! {

/// One command as the driver has handed it to the state: its index and
/// its bytes.
pub struct Applied {
    pub index: u64,
    pub command: Seq<u8>,
}

/// What a state has replied: the bytes of its result, or its error.
pub open spec fn reply_view(reply: Result<Vec<u8>, RaftError>) -> Result<Seq<u8>, RaftError> {
    match reply {
        Ok(bytes) => Ok(bytes@),
        Err(e) => Err(e),
    }
}

/// The state machine that the cluster replicates. The engine hands it
/// every committed command once, in log order. What it does with a
/// command, what it answers to a read and how far it has applied the log
/// is what `applies`, `answers` and `stands_at` say. A state that does not
/// say any of it may do and answer anything.
pub trait State: Send {
    /// Whether `index` is the index of the last command that the state, as
    /// it stands, has applied.
    open spec fn stands_at(&self, index: u64) -> bool {
        true
    }

    /// Whether the state, as it stands, may become the state `after` and
    /// answer `reply` when it applies `command` at `index`.
    open spec fn applies(
        &self,
        index: u64,
        command: Seq<u8>,
        after: &Self,
        reply: Result<Seq<u8>, RaftError>,
    ) -> bool {
        true
    }

    /// Whether `reply` is what the state, as it stands, may answer to the
    /// read `command`.
    open spec fn answers(&self, command: Seq<u8>, reply: Result<Seq<u8>, RaftError>) -> bool {
        true
    }

    /// The index of the last command that the state has applied; 0 where
    /// it has applied none.
    fn applied_index(&self) -> (index: u64)
        ensures
            self.stands_at(index),
    ;

    /// Applies the command at `index` and returns its result.
    fn mutate(&mut self, index: u64, command: Vec<u8>) -> (r: Result<Vec<u8>, RaftError>)
        ensures
            old(self).applies(index, command@, final(self), reply_view(r)),
    ;

    /// Answers a read against the state as it stands.
    fn query(&self, command: Vec<u8>) -> (r: Result<Vec<u8>, RaftError>)
        ensures
            self.answers(command@, reply_view(r)),
    ;
}

/// A state that keeps nothing but how far it has applied the log.
#[derive(Debug)]
pub struct MVCC {
    index: u64,
}

impl MVCC {
    /// The index of the last command applied.
    pub closed spec fn last(&self) -> u64 {
        self.index
    }

    /// A state that has applied nothing.
    pub fn new() -> (state: MVCC)
        ensures
            state.last() == 0,
    {
        MVCC { index: 0 }
    }
}

impl State for MVCC {
    open spec fn stands_at(&self, index: u64) -> bool {
        index == self.last()
    }

    open spec fn applies(
        &self,
        index: u64,
        command: Seq<u8>,
        after: &Self,
        reply: Result<Seq<u8>, RaftError>,
    ) -> bool {
        after.last() == index && reply == Ok::<Seq<u8>, RaftError>(Seq::empty())
    }

    open spec fn answers(&self, command: Seq<u8>, reply: Result<Seq<u8>, RaftError>) -> bool {
        reply == Ok::<Seq<u8>, RaftError>(Seq::empty())
    }

    fn applied_index(&self) -> (index: u64)
        ensures
            index == self.last(),
    {
        self.index
    }

    fn mutate(&mut self, index: u64, command: Vec<u8>) -> (r: Result<Vec<u8>, RaftError>)
        ensures
            final(self).last() == index,
            r matches Ok(result) && result@ == Seq::<u8>::empty(),
    {
        self.index = index;
        Ok(Vec::new())
    }

    fn query(&self, command: Vec<u8>) -> (r: Result<Vec<u8>, RaftError>)
        ensures
            r matches Ok(result) && result@ == Seq::<u8>::empty(),
    {
        Ok(Vec::new())
    }
}

/// What the driver has done with an instruction.
#[derive(Debug, PartialEq, Eq)]
pub enum Outcome {
    /// The command at `index` was handed to the state; `result` is what the
    /// state returned, none where it reported an error.
    Applied { index: u64, result: Option<Vec<u8>> },
    /// The command at `index` had been applied before and was passed over.
    Skipped { index: u64 },
    /// A read was answered; `result` is none where the state reported an
    /// error.
    Answered { result: Option<Vec<u8>> },
    /// A confirmation was counted. `reached` says whether the leader and
    /// the peers that have confirmed `index` in `term` are a quorum: the
    /// leader may then take `index` as committed by a quorum.
    Tallied { term: u64, index: u64, reached: bool },
    /// A confirmation of an earlier term was dropped.
    Stale,
}

impl Outcome {
    /// The outcome of applying the command at `index`, to which the state
    /// has replied `reply`: its result, or none where it is an error.
    pub fn applied(index: u64, reply: Result<Vec<u8>, RaftError>) -> (r: Outcome)
        ensures
            match reply {
                Ok(bytes) => r matches Outcome::Applied { index: told, result: Some(held) } && told
                    == index && held@ == bytes@,
                Err(_) => r == (Outcome::Applied { index, result: None }),
            },
    {
        match reply {
            Ok(bytes) => Outcome::Applied { index, result: Some(bytes) },
            Err(_) => Outcome::Applied { index, result: None },
        }
    }

    /// The outcome of a read that the state has answered with `reply`: its
    /// result, or none where it is an error.
    pub fn answered(reply: Result<Vec<u8>, RaftError>) -> (r: Outcome)
        ensures
            match reply {
                Ok(bytes) => r matches Outcome::Answered { result: Some(held) } && held@ == bytes@,
                Err(_) => r == (Outcome::Answered { result: None }),
            },
    {
        match reply {
            Ok(bytes) => Outcome::Answered { result: Some(bytes) },
            Err(_) => Outcome::Answered { result: None },
        }
    }
}

/// One peer's confirmation: its address and the index it has confirmed.
pub struct Ballot {
    pub address: Address,
    pub index: u64,
}

/// What a ballot holds.
pub struct BallotView {
    pub address: AddressView,
    pub index: u64,
}

impl View for Ballot {
    type V = BallotView;

    open spec fn view(&self) -> BallotView {
        BallotView { address: self.address@, index: self.index }
    }
}

/// What a list of ballots holds.
pub open spec fn ballot_views(ballots: &Vec<Ballot>) -> Seq<BallotView> {
    Seq::new(ballots@.len(), |i: int| ballots@[i]@)
}

/// The position of the ballot of `address`; the number of ballots where
/// it has none.
pub open spec fn ballot_of(ballots: Seq<BallotView>, address: AddressView) -> int
    decreases ballots.len(),
{
    if ballots.len() == 0 {
        0
    } else if ballots[0].address == address {
        0
    } else {
        1 + ballot_of(ballots.drop_first(), address)
    }
}

/// The ballots after `address` has confirmed `index`: its ballot holds the
/// greater of what it held and `index`, and a new ballot comes last.
pub open spec fn record(ballots: Seq<BallotView>, address: AddressView, index: u64) -> Seq<
    BallotView,
> {
    let at = ballot_of(ballots, address);
    if 0 <= at < ballots.len() {
        if ballots[at].index >= index {
            ballots
        } else {
            ballots.update(at, BallotView { address, index })
        }
    } else {
        ballots.push(BallotView { address, index })
    }
}

/// How many ballots have confirmed `index`.
pub open spec fn confirming(ballots: Seq<BallotView>, index: u64) -> nat
    decreases ballots.len(),
{
    if ballots.len() == 0 {
        0
    } else {
        confirming(ballots.drop_last(), index) + if ballots.last().index >= index {
            1nat
        } else {
            0nat
        }
    }
}

/// What the driver holds besides the state: the index it has applied, the
/// term of the confirmations it counts, and those confirmations.
pub struct DriverView {
    pub applied_index: u64,
    pub quorum: u64,
    pub term: u64,
    pub ballots: Seq<BallotView>,
}

impl DriverView {
    /// The driver after a confirmation of `index` in `term` by `address`.
    pub open spec fn vote(self, term: u64, index: u64, address: AddressView) -> DriverView {
        if term < self.term {
            self
        } else if term > self.term {
            DriverView { term, ballots: seq![BallotView { address, index }], ..self }
        } else {
            DriverView { ballots: record(self.ballots, address, index), ..self }
        }
    }

    /// Whether the leader and the peers that have confirmed `index` are a
    /// quorum.
    pub open spec fn reached(self, index: u64) -> bool {
        confirming(self.ballots, index) + 1 >= self.quorum
    }
}

/// Whether two addresses are the same.
pub fn same_address(a: &Address, b: &Address) -> (same: bool)
    ensures
        same == (a@ == b@),
{
    match (a, b) {
        (Address::Peers, Address::Peers) => true,
        (Address::Local, Address::Local) => true,
        (Address::Client, Address::Client) => true,
        (Address::Peer(x), Address::Peer(y)) => *x == *y,
        _ => false,
    }
}

/// The driver: it owns the user's state.
pub struct Driver<T: State> {
    state: T,
    applied_index: u64,
    first_index: u64,
    quorum: u64,
    term: u64,
    ballots: Vec<Ballot>,
    handed: Ghost<Seq<Applied>>,
}

impl<T: State> Driver<T> {
    /// What the driver holds besides the state.
    pub closed spec fn view(&self) -> DriverView {
        DriverView {
            applied_index: self.applied_index,
            quorum: self.quorum,
            term: self.term,
            ballots: ballot_views(&self.ballots),
        }
    }

    /// The commands that the driver has handed to the state, oldest first.
    pub closed spec fn handed(&self) -> Seq<Applied> {
        self.handed@
    }

    /// The index that the state had applied when the driver took it.
    pub closed spec fn first_index(&self) -> u64 {
        self.first_index
    }

    /// What ties the driver to the state.
    pub closed spec fn inv(&self) -> bool {
        self.first_index <= self.applied_index
    }

    /// The driver's invariant: it has handed the state one command for
    /// each index after the first up to the one it has applied, in order
    /// and without a gap.
    pub open spec fn wf(&self) -> bool {
        &&& self.inv()
        &&& self.first_index() <= self@.applied_index
        &&& self.handed().len() == self@.applied_index - self.first_index()
        &&& forall|k: int|
            0 <= k < self.handed().len() ==> (#[trigger] self.handed()[k]).index
                == self.first_index() + 1 + k
    }

    /// A driver for `state`, which counts confirmations against `quorum`.
    /// It starts where the state stands: the first command that it hands
    /// to the state is the one after the last that the state has applied.
    pub fn new(state: T, quorum: u64) -> (driver: Driver<T>)
        ensures
            driver.wf(),
            driver@.quorum == quorum,
            driver@.term == 0,
            driver@.ballots == Seq::<BallotView>::empty(),
            driver.state() == state,
            state.stands_at(driver@.applied_index),
            driver@.applied_index == driver.first_index(),
            driver.handed() == Seq::<Applied>::empty(),
    {
        let applied_index = state.applied_index();
        let driver = Driver {
            state,
            applied_index,
            first_index: applied_index,
            quorum,
            term: 0,
            ballots: Vec::new(),
            handed: Ghost(Seq::empty()),
        };
        assert(driver@.ballots =~= Seq::<BallotView>::empty());
        assert(driver.handed() =~= Seq::<Applied>::empty());
        driver
    }

    /// The index of the last command that the driver has applied.
    pub fn applied_index(&self) -> (index: u64)
        ensures
            index == self@.applied_index,
    {
        self.applied_index
    }

    /// Applies the command at `index`: hands it to the state where it is
    /// the next in order, passes it over where it was applied before, and
    /// refuses it, with `InvalidTransition`, where it would leave a gap.
    pub fn apply(&mut self, index: u64, command: Vec<u8>) -> (r: Result<Outcome, RaftError>)
        requires
            old(self).wf(),
        ensures
            final(self).wf(),
            old(self).applied(index, command@, final(self), r),
    {
        if index <= self.applied_index {
            return Ok(Outcome::Skipped { index });
        }
        if index - 1 > self.applied_index {
            return Err(RaftError::InvalidTransition);
        }
        let ghost before = self.handed();
        let ghost asked = command@;
        let reply = self.state.mutate(index, command);
        self.applied_index = index;
        self.handed = Ghost(before.push(Applied { index, command: asked }));
        proof {
            assert(old(self).state().applies(index, asked, &self.state(), reply_view(reply)));
            if reply is Err {
                assert(old(self).state().applies(
                    index,
                    asked,
                    &self.state(),
                    Err::<Seq<u8>, RaftError>(reply->Err_0),
                ));
            }
        }
        Ok(Outcome::applied(index, reply))
    }

    /// Whether `after` and `r` are the driver and the outcome after the
    /// command at `index` was to be applied. Where it is the next in order,
    /// the state has applied it, the outcome holds what the state replied,
    /// its result or none where it is an error, and the command is the
    /// last that the driver has handed out. Where it was applied before,
    /// it is passed over, and where it would leave a gap, it is refused:
    /// the driver and the state are then as they were.
    pub open spec fn applied(
        &self,
        index: u64,
        command: Seq<u8>,
        after: &Self,
        r: Result<Outcome, RaftError>,
    ) -> bool {
        &&& after.first_index() == self.first_index()
        &&& if index <= self@.applied_index {
            &&& r == Ok::<Outcome, RaftError>(Outcome::Skipped { index })
            &&& after.same_as(self)
        } else if index == self@.applied_index + 1 {
            &&& after@ == (DriverView { applied_index: index, ..self@ })
            &&& after.handed() == self.handed().push(Applied { index, command })
            &&& match r {
                Ok(Outcome::Applied { index: told, result: Some(bytes) }) => told == index
                    && self.state().applies(index, command, &after.state(), Ok(bytes@)),
                Ok(Outcome::Applied { index: told, result: None }) => told == index && exists|
                    e: RaftError,
                | #[trigger]
                    self.state().applies(
                        index,
                        command,
                        &after.state(),
                        Err::<Seq<u8>, RaftError>(e),
                    ),
                _ => false,
            }
        } else {
            &&& r == Err::<Outcome, RaftError>(RaftError::InvalidTransition)
            &&& after.same_as(self)
        }
    }

    /// Whether the driver holds what `other` holds, and its state is the
    /// state of `other`.
    pub open spec fn same_as(&self, other: &Self) -> bool {
        &&& self@ == other@
        &&& self.handed() == other.handed()
        &&& self.state() == other.state()
    }

    /// Answers a read against the state as it stands: hands the command
    /// to the state, and gives back what the state answers, its result or,
    /// where it reports an error, none.
    pub fn query(&self, command: Vec<u8>) -> (r: Outcome)
        ensures
            self.answered(command@, r),
    {
        let ghost asked = command@;
        let reply = self.state.query(command);
        proof {
            assert(self.state().answers(asked, reply_view(reply)));
            if reply is Err {
                assert(self.state().answers(asked, Err::<Seq<u8>, RaftError>(reply->Err_0)));
            }
        }
        Outcome::answered(reply)
    }

    /// The state that the driver owns.
    pub closed spec fn state(&self) -> T {
        self.state
    }

    /// Whether `r` is the outcome of a read of `command` against the state
    /// as it stands: it holds the result that the state may answer, or none
    /// where the state may answer with an error.
    pub open spec fn answered(&self, command: Seq<u8>, r: Outcome) -> bool {
        match r {
            Outcome::Answered { result: Some(bytes) } => self.state().answers(
                command,
                Ok(bytes@),
            ),
            Outcome::Answered { result: None } => exists|e: RaftError| #[trigger]
                self.state().answers(command, Err::<Seq<u8>, RaftError>(e)),
            _ => false,
        }
    }

    /// Counts the confirmation of `index` in `term` by the peer at
    /// `address`. A confirmation of an earlier term than one seen is
    /// dropped; one of a later term starts the count anew.
    pub fn vote(&mut self, term: u64, index: u64, address: Address) -> (r: Outcome)
        requires
            old(self).wf(),
        ensures
            final(self).wf(),
            final(self).first_index() == old(self).first_index(),
            final(self).handed() == old(self).handed(),
            final(self).state() == old(self).state(),
            final(self)@ == old(self)@.vote(term, index, address@),
            term < old(self)@.term ==> r == Outcome::Stale,
            term >= old(self)@.term ==> r == (Outcome::Tallied {
                term,
                index,
                reached: final(self)@.reached(index),
            }),
    {
        if term < self.term {
            return Outcome::Stale;
        }
        if term > self.term {
            self.term = term;
            self.ballots = Vec::new();
            self.ballots.push(Ballot { address, index });
            assert(ballot_views(&self.ballots) =~= seq![BallotView { address: address@, index }]);
        } else {
            let ghost held = ballot_views(&self.ballots);
            assert(held.skip(0) =~= held);
            let mut i: usize = 0;
            let mut found = false;
            while i < self.ballots.len() && !found
                invariant
                    i <= self.ballots.len(),
                    held == ballot_views(&self.ballots),
                    ballot_of(held, address@) == i + ballot_of(held.skip(i as int), address@),
                    found ==> i < self.ballots.len() && held[i as int].address == address@,
                decreases self.ballots.len() - i + if found { 0int } else { 1int },
            {
                let ghost rest = held.skip(i as int);
                assert(rest[0] == self.ballots[i as int]@);
                assert(rest.drop_first() =~= held.skip(i + 1));
                if same_address(&self.ballots[i].address, &address) {
                    found = true;
                } else {
                    i += 1;
                }
            }
            assert(ballot_of(held, address@) == i) by {
                if i == self.ballots.len() {
                    assert(held.skip(i as int).len() == 0);
                } else {
                    assert(held.skip(i as int)[0] == held[i as int]);
                }
            }
            if i < self.ballots.len() {
                if self.ballots[i].index < index {
                    self.ballots[i] = Ballot { address, index };
                    assert(ballot_views(&self.ballots) =~= held.update(
                        i as int,
                        BallotView { address: address@, index },
                    ));
                }
            } else {
                self.ballots.push(Ballot { address, index });
                assert(ballot_views(&self.ballots) =~= held.push(
                    BallotView { address: address@, index },
                ));
            }
        }
        let count = self.count_confirming(index);
        let reached = self.quorum == 0 || count >= self.quorum - 1;
        Outcome::Tallied { term, index, reached }
    }

    /// How many ballots have confirmed `index`.
    fn count_confirming(&self, index: u64) -> (count: u64)
        ensures
            count == confirming(self@.ballots, index),
    {
        let ghost held = ballot_views(&self.ballots);
        let mut count: u64 = 0;
        let mut i: usize = 0;
        assert(held.take(0).len() == 0);
        while i < self.ballots.len()
            invariant
                i <= self.ballots.len(),
                held == ballot_views(&self.ballots),
                count <= i,
                count == confirming(held.take(i as int), index),
            decreases self.ballots.len() - i,
        {
            assert(held.take(i + 1).drop_last() =~= held.take(i as int));
            assert(held.take(i + 1).last() == self.ballots[i as int]@);
            if self.ballots[i].index >= index {
                count += 1;
            }
            i += 1;
        }
        assert(held.take(self.ballots.len() as int) =~= held);
        count
    }

    /// Does what an instruction asks.
    pub fn execute(&mut self, instruction: Instruction) -> (r: Result<Outcome, RaftError>)
        requires
            old(self).wf(),
        ensures
            final(self).wf(),
            final(self).first_index() == old(self).first_index(),
            match instruction@ {
                InstructionView::Apply { index, command } => old(self).applied(
                    index,
                    command,
                    final(self),
                    r,
                ),
                InstructionView::Query { command } => {
                    &&& r matches Ok(outcome) && old(self).answered(command, outcome)
                    &&& final(self)@ == old(self)@
                    &&& final(self).handed() == old(self).handed()
                    &&& final(self).state() == old(self).state()
                },
                InstructionView::Vote { term, index, address } => {
                    &&& final(self)@ == old(self)@.vote(term, index, address)
                    &&& final(self).handed() == old(self).handed()
                    &&& final(self).state() == old(self).state()
                    &&& term < old(self)@.term ==> r == Ok::<Outcome, RaftError>(Outcome::Stale)
                    &&& term >= old(self)@.term ==> r == Ok::<Outcome, RaftError>(
                        Outcome::Tallied { term, index, reached: final(self)@.reached(index) },
                    )
                },
            },
    {
        match instruction {
            Instruction::Apply { index, command } => self.apply(index, command),
            Instruction::Query { command } => Ok(self.query(command)),
            Instruction::Vote { term, index, address } => Ok(self.vote(term, index, address)),
        }
    }
}

} // verus!
