//! The tally of votes, proved on the cluster: every leader was elected by
//! a quorum of voters whose logs were no more up to date than its own.

use crate::cluster::{Action, cleared, Cluster, lemma_one_leader, lemma_votes_stay};
use crate::cluster::lineage::{lemma_advance_traced, lemma_initial_lined, lemma_restart_traced};
use crate::log::log::EntryView;
use crate::message::{AddressView, MessageView};
use crate::node::effects::{answer, lemma_effects, votes};
use crate::node::election::{counts, grants_vote, lemma_elects, put_out_by};
use crate::node::laws::{Input, lemma_advance};
use crate::node::model::{NodeView, quorum};
use crate::node::replication::lemma_writes;
use crate::transport::stamped;
use vstd::prelude::*;

verus! {

/// The term of the last of the entries; 0 where there is none.
pub open spec fn last_term_of(entries: Seq<EntryView>) -> u64 {
    if entries.len() == 0 {
        0
    } else {
        entries.last().term
    }
}

/// Whether a log whose last entry has index `last_index` and term
/// `last_term` is at least as up to date as one whose last entry has the
/// index and term of `ballot`.
pub open spec fn outdoes(last_index: nat, last_term: u64, ballot: (nat, u64)) -> bool {
    last_term > ballot.1 || (last_term == ballot.1 && last_index >= ballot.0)
}

impl Cluster {
    /// Whether all of `tally` have voted for `leader` in `term` while the
    /// term had no leader, each with a log that the log `won` outdoes.
    pub open spec fn backed_by(
        self,
        tally: Seq<Seq<char>>,
        term: u64,
        leader: Seq<char>,
        won: Seq<EntryView>,
    ) -> bool {
        forall|k: int|
            #![trigger tally[k]]
            0 <= k < tally.len() ==> {
                &&& self.voted(tally[k], term, leader)
                &&& self.open_ballots.contains((tally[k], term))
                &&& outdoes(won.len(), last_term_of(won), self.ballot_logs[(tally[k], term)])
            }
    }

    /// Whether a quorum has elected `leader` in `term` with the log `won`.
    pub open spec fn chosen(self, term: u64, leader: Seq<char>, won: Seq<EntryView>) -> bool {
        exists|tally: Seq<Seq<char>>|
            #![trigger tally.no_duplicates()]
            {
                &&& tally.no_duplicates()
                &&& tally.len() >= quorum((self.nodes.len() - 1) as nat)
                &&& self.backed_by(tally, term, leader, won)
            }
    }

    /// What holds of the votes in every cluster that was started and left
    /// to run.
    pub open spec fn polled(self) -> bool {
        &&& forall|voter: Seq<char>, term: u64|
            self.ballots.contains_key((voter, term)) <==> #[trigger] self.ballot_logs.contains_key(
                (voter, term),
            )
        &&& forall|m: MessageView, j: int|
            #![trigger self.sent.contains(m), self.nodes[j]]
            self.sent.contains(m) && m.event is SolicitVote && 0 <= j < self.nodes.len() && m.from
                == AddressView::Peer(self.nodes[j].id) && self.nodes[j].term == m.term
                && self.nodes[j].role is Candidate ==> m.event->SolicitVote_last_index
                == self.nodes[j].log.last_index() && m.event->SolicitVote_last_term
                == self.nodes[j].log.last_term()
        &&& forall|voter: Seq<char>, term: u64, j: int|
            #![trigger self.ballots.contains_key((voter, term)), self.nodes[j]]
            self.ballots.contains_key((voter, term)) && 0 <= j < self.nodes.len()
                && self.nodes[j].id == self.ballots[(voter, term)] ==> {
                &&& self.nodes[j].term >= term
                &&& self.nodes[j].term == term && self.nodes[j].role is Candidate ==> outdoes(
                    self.nodes[j].log.last_index(),
                    self.nodes[j].log.last_term(),
                    self.ballot_logs[(voter, term)],
                )
            }
        &&& forall|voter: Seq<char>, term: u64| #[trigger]
            self.ballots.contains_key((voter, term)) && !self.won_with.contains_key(term)
                ==> self.open_ballots.contains((voter, term))
        &&& forall|term: u64, l: Seq<char>| #[trigger]
            self.elected.contains((term, l)) ==> self.chosen(term, l, self.won_with[term])
    }

    /// Whether the cluster is in line and its votes are polled.
    pub open spec fn counted(self) -> bool {
        self.lined() && self.polled()
    }
}

/// The votes of a cluster stay polled when one of its nodes takes an
/// input.
pub proof fn lemma_advance_polled(c: Cluster, i: int, input: Input)
    requires
        c.counted(),
        c.enabled(Action::Advance { node: i, input }),
    ensures
        c.apply(Action::Advance { node: i, input }).counted(),
{
    let pre = c.nodes[i];
    let post = pre.advance(input)->Ok_0;
    let d = c.settle(i, post);
    assert(d == c.apply(Action::Advance { node: i, input }));
    lemma_advance_traced(c, i, input);
    lemma_advance(pre, input);
    lemma_elects(pre, input);
    lemma_writes(pre, input);
    lemma_effects(pre, input);
    lemma_votes_stay(c, i, post);
    assert(c.stands(i));
    assert(c.on_record(i));
    assert(d.nodes[i] == cleared(post));
    assert(d.nodes.len() == c.nodes.len());
    assert forall|j: int| 0 <= j < c.nodes.len() && j != i implies #[trigger] d.nodes[j]
        == c.nodes[j] && c.nodes[j].id != pre.id by {
        assert(c.ids()[j] == c.nodes[j].id);
        assert(c.ids()[i] == pre.id);
    }
    let key = (post.id, post.term);
    let anew_vote = post.voted_for() is Some && !c.ballots.contains_key(key);
    assert(post.voted_for() is Some ==> (anew_vote <==> (pre.voted_for() is None || post.term
        > pre.term)));
    let anew = post.role is Leader && !(pre.role is Leader && post.term == pre.term);
    if anew {
        assert(pre.role is Candidate && post.term == pre.term);
        if c.won_with.contains_key(post.term) {
            let l = choose|l: Seq<char>| #[trigger] c.elected.contains((post.term, l));
            assert(d.elected.contains((post.term, l)));
            assert(d.elected.contains((post.term, post.id)));
            lemma_one_leader(d, post.term, l, post.id);
            assert(c.led(post.term, pre.id));
            let w = choose|w: int|
                0 <= w < c.nodes.len() && (#[trigger] c.nodes[w]).id == pre.id && c.nodes[w].term
                    >= post.term && (c.nodes[w].term == post.term ==> !(c.nodes[w].role
                    is Candidate));
            assert(c.ids()[w] == pre.id);
            assert(c.ids()[i] == pre.id);
            assert(w == i);
            assert(false);
        }
    } else if post.role is Leader {
        assert(c.won_with.contains_key(post.term));
    }

    assert forall|voter: Seq<char>, term: u64|
        d.ballots.contains_key((voter, term)) <==> #[trigger] d.ballot_logs.contains_key(
            (voter, term),
        ) by {
        assert(c.ballots.contains_key((voter, term)) <==> c.ballot_logs.contains_key(
            (voter, term),
        ));
    }
    assert forall|m: MessageView, j: int|
        #![trigger d.sent.contains(m), d.nodes[j]]
        d.sent.contains(m) && m.event is SolicitVote && 0 <= j < d.nodes.len() && m.from
            == AddressView::Peer(d.nodes[j].id) && d.nodes[j].term == m.term
            && d.nodes[j].role is Candidate implies m.event->SolicitVote_last_index
        == d.nodes[j].log.last_index() && m.event->SolicitVote_last_term
        == d.nodes[j].log.last_term() by {
        if c.sent.contains(m) {
            assert(m.from == AddressView::Peer(c.nodes[j].id));
            assert(m.term <= c.nodes[j].term);
            if j == i {
                assert(pre.role is Candidate && post.term == pre.term);
                assert(post.log.entries == pre.log.entries);
            }
        } else {
            let k = choose|k: int|
                0 <= k < post.outbox.len() && m == stamped(#[trigger] post.outbox[k], post.id);
            assert(put_out_by(post.outbox[k], post));
            assert(answer(pre, input, post, post.outbox[k]));
            assert(j == i);
        }
    }
    assert forall|voter: Seq<char>, term: u64, j: int|
        #![trigger d.ballots.contains_key((voter, term)), d.nodes[j]]
        d.ballots.contains_key((voter, term)) && 0 <= j < d.nodes.len() && d.nodes[j].id
            == d.ballots[(voter, term)] implies {
        &&& d.nodes[j].term >= term
        &&& d.nodes[j].term == term && d.nodes[j].role is Candidate ==> outdoes(
            d.nodes[j].log.last_index(),
            d.nodes[j].log.last_term(),
            d.ballot_logs[(voter, term)],
        )
    } by {
        if c.ballots.contains_key((voter, term)) {
            assert(c.voted(voter, term, c.ballots[(voter, term)]));
            assert(d.voted(voter, term, c.ballots[(voter, term)]));
            assert(d.ballot_logs[(voter, term)] == c.ballot_logs[(voter, term)]);
            assert(c.nodes[j].id == c.ballots[(voter, term)]);
            assert(c.nodes[j].term >= term);
            if j == i && post.role is Candidate && post.term == term {
                assert(pre.role is Candidate && post.term == pre.term);
                assert(post.log.entries == pre.log.entries);
            }
        } else {
            assert(voter == post.id && term == post.term && anew_vote);
            let candidate = post.voted_for()->Some_0;
            assert(post.log.entries == pre.log.entries);
            if post.role is Candidate {
                assert(c.ids()[j] == c.nodes[j].id);
                assert(j == i);
            } else {
                let msg = input->Receive_msg;
                assert(c.deliverable(i, msg));
                assert(c.sent.contains(msg));
                if j != i {
                    assert(msg.from == AddressView::Peer(c.nodes[j].id));
                    assert(msg.term <= c.nodes[j].term);
                }
            }
        }
    }
    assert forall|voter: Seq<char>, term: u64| #[trigger]
        d.ballots.contains_key((voter, term)) && !d.won_with.contains_key(
            term,
        ) implies d.open_ballots.contains((voter, term)) by {
        if c.ballots.contains_key((voter, term)) {
            assert(!c.won_with.contains_key(term));
        }
    }
    assert forall|term: u64, l: Seq<char>| #[trigger]
        d.elected.contains((term, l)) implies d.chosen(term, l, d.won_with[term]) by {
        if c.elected.contains((term, l)) {
            assert(c.won_with.contains_key(term));
            let won = c.won_with[term];
            assert(d.won_with[term] == won);
            let tally = choose|tally: Seq<Seq<char>>|
                #![trigger tally.no_duplicates()]
                {
                    &&& tally.no_duplicates()
                    &&& tally.len() >= quorum((c.nodes.len() - 1) as nat)
                    &&& c.backed_by(tally, term, l, won)
                };
            assert(tally.no_duplicates());
            assert forall|k: int| #![trigger tally[k]] 0 <= k < tally.len() implies {
                &&& d.voted(tally[k], term, l)
                &&& d.open_ballots.contains((tally[k], term))
                &&& outdoes(won.len(), last_term_of(won), d.ballot_logs[(tally[k], term)])
            } by {
                assert(c.voted(tally[k], term, l));
            }
        } else {
            assert(anew && term == post.term && l == post.id);
            let won = post.log.entries;
            assert(d.won_with[term] == won);
            let tally = choose|tally: Seq<Seq<char>>|
                #![trigger tally.no_duplicates()]
                {
                    &&& counts(pre.role->Candidate_votes, tally, input, pre)
                    &&& tally.no_duplicates()
                    &&& tally.len() >= quorum(pre.peers.len())
                };
            assert(tally.no_duplicates());
            assert(pre.peers.len() == d.nodes.len() - 1);
            assert(c.all_voted(pre.role->Candidate_votes, pre.term, pre.id));
            assert forall|k: int| #![trigger tally[k]] 0 <= k < tally.len() implies {
                &&& d.voted(tally[k], term, l)
                &&& d.open_ballots.contains((tally[k], term))
                &&& outdoes(won.len(), last_term_of(won), d.ballot_logs[(tally[k], term)])
            } by {
                let before = pre.role->Candidate_votes;
                if k < before.len() {
                    assert(tally[k] == before[k]);
                    assert(c.voted(before[k], pre.term, pre.id));
                } else {
                    let p = choose|p: Seq<char>| #[trigger]
                        grants_vote(input, pre, p) && tally == before.push(p);
                    let msg = input->Receive_msg;
                    assert(c.deliverable(i, msg));
                    assert(c.sent.contains(msg));
                    assert(c.voted(p, pre.term, pre.id));
                }
                assert(c.voted(tally[k], pre.term, pre.id));
                assert(c.ballots.contains_key((tally[k], term)));
                assert(c.open_ballots.contains((tally[k], term)));
                assert(d.ballot_logs[(tally[k], term)] == c.ballot_logs[(tally[k], term)]);
                assert(c.nodes[i].id == c.ballots[(tally[k], term)]);
            }
        }
    }
}

/// The votes of a cluster stay polled when one of its nodes starts again
/// from its log.
pub proof fn lemma_restart_polled(c: Cluster, i: int, applied_index: u64, timeout: u64)
    requires
        c.counted(),
        c.enabled(Action::Restart { node: i, applied_index, timeout }),
    ensures
        c.apply(Action::Restart { node: i, applied_index, timeout }).counted(),
{
    let pre = c.nodes[i];
    let post = NodeView::start(pre.id, pre.peers, pre.log, applied_index, timeout)->Ok_0;
    let d = c.settle(i, post);
    assert(d == c.apply(Action::Restart { node: i, applied_index, timeout }));
    lemma_restart_traced(c, i, applied_index, timeout);
    assert(d.sent =~= c.sent) by {
        assert(Cluster::leaving(post) =~= Set::<MessageView>::empty());
    }
    assert(c.on_record(i));
    assert(post.voted_for() == pre.voted_for());
    assert(d.ballots =~= c.ballots);
    assert(d.elected == c.elected);
    assert(d.won_with == c.won_with);
    assert(d.ballot_logs == c.ballot_logs);
    assert(d.open_ballots == c.open_ballots);
    assert(d.nodes[i] == cleared(post));
    assert(d.nodes.len() == c.nodes.len());
    assert forall|j: int| 0 <= j < c.nodes.len() && j != i implies #[trigger] d.nodes[j]
        == c.nodes[j] by {}
    assert forall|m: MessageView, j: int|
        #![trigger d.sent.contains(m), d.nodes[j]]
        d.sent.contains(m) && m.event is SolicitVote && 0 <= j < d.nodes.len() && m.from
            == AddressView::Peer(d.nodes[j].id) && d.nodes[j].term == m.term
            && d.nodes[j].role is Candidate implies m.event->SolicitVote_last_index
        == d.nodes[j].log.last_index() && m.event->SolicitVote_last_term
        == d.nodes[j].log.last_term() by {
        assert(j != i);
        assert(d.nodes[j] == c.nodes[j]);
    }
    assert forall|voter: Seq<char>, term: u64, j: int|
        #![trigger d.ballots.contains_key((voter, term)), d.nodes[j]]
        d.ballots.contains_key((voter, term)) && 0 <= j < d.nodes.len() && d.nodes[j].id
            == d.ballots[(voter, term)] implies {
        &&& d.nodes[j].term >= term
        &&& d.nodes[j].term == term && d.nodes[j].role is Candidate ==> outdoes(
            d.nodes[j].log.last_index(),
            d.nodes[j].log.last_term(),
            d.ballot_logs[(voter, term)],
        )
    } by {
        assert(c.ballots.contains_key((voter, term)));
        assert(c.nodes[j].id == c.ballots[(voter, term)]);
        if j != i {
            assert(d.nodes[j] == c.nodes[j]);
        }
    }
    assert forall|term: u64, l: Seq<char>| #[trigger]
        d.elected.contains((term, l)) implies d.chosen(term, l, d.won_with[term]) by {
        let won = c.won_with[term];
        let tally = choose|tally: Seq<Seq<char>>|
            #![trigger tally.no_duplicates()]
            {
                &&& tally.no_duplicates()
                &&& tally.len() >= quorum((c.nodes.len() - 1) as nat)
                &&& c.backed_by(tally, term, l, won)
            };
        assert(tally.no_duplicates());
        assert(d.backed_by(tally, term, l, won));
    }
}

/// The votes of a cluster that has just been started are polled.
pub proof fn lemma_initial_counted(c: Cluster)
    requires
        c.initial(),
    ensures
        c.counted(),
{
    lemma_initial_lined(c);
}

} // verus!
