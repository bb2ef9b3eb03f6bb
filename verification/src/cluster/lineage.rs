//! The lineage of entries, proved on the cluster: every entry of a term
//! stands after the log that the leader of the term was elected with, in
//! a row of entries of the term.

use crate::cluster::{Action, cleared, Cluster, lemma_one_leader};
use crate::cluster::matching::{
    agree,
    Chain,
    lemma_advance_sound,
    lemma_agree_prefix,
    lemma_chains_after,
    lemma_initial_sound,
    lemma_restart_sound,
};
use crate::cluster::ordering::{bounded, lemma_advance_ordered, lemma_restart_ordered, rising};
use crate::log::log::{EntryView, LogView};
use crate::message::{AddressView, EventView, MessageView};
use crate::node::effects::{answer, answers, lemma_effects};
use crate::node::election::{lemma_elects, put_out_by};
use crate::node::laws::{Input, lemma_advance, lemma_agreeing_bounds};
use crate::node::model::{accepts, agreeing, NodeView, splice};
use crate::node::replication::{cut, lemma_writes};
use crate::transport::stamped;
use vstd::prelude::*;

verus! {

/// Whether the chain stands in the line of the leader of `term`, who was
/// elected with the log `won`: where it holds an entry of the term, the
/// entry lies after `won`, the chain holds `won` up to there, and after
/// `won` it holds entries of the term only.
pub open spec fn in_line(x: Chain, term: u64, won: Seq<EntryView>) -> bool {
    forall|j: int|
        #![trigger x.holds(j)]
        x.holds(j) && x.at(j).term == term ==> {
            &&& j > won.len()
            &&& forall|k: int|
                #![trigger x.holds(k)]
                x.holds(k) && k <= won.len() ==> x.at(k) == won[k - 1]
            &&& forall|k: int|
                #![trigger x.holds(k)]
                x.holds(k) && won.len() < k <= j ==> x.at(k).term == term
            &&& 1 <= x.base <= won.len() ==> x.base_term == won[x.base - 1].term
            &&& x.base > won.len() ==> x.base_term == term
        }
}

/// Whether the message is of a kind that only a leader, or a node that
/// answers a leader, sends.
pub open spec fn of_a_reign(m: MessageView) -> bool {
    m.event is Heartbeat || m.event is ReplicateEntries || m.event is ConfirmLeader || m.event
        is AcceptEntries || m.event is RejectEntries
}

impl Cluster {
    /// What holds of the lineage of entries in every cluster that was
    /// started and left to run.
    pub open spec fn traced(self) -> bool {
        &&& forall|m: MessageView| #[trigger]
            self.sent.contains(m) && of_a_reign(m) ==> self.won_with.contains_key(m.term)
        &&& forall|m: MessageView, j: int|
            #![trigger self.sent.contains(m), self.nodes[j]]
            self.sent.contains(m) && 0 <= j < self.nodes.len() && m.from == AddressView::Peer(
                self.nodes[j].id,
            ) ==> m.term <= self.nodes[j].term
        &&& forall|term: u64| #[trigger]
            self.won_with.contains_key(term) ==> exists|l: Seq<char>| #[trigger]
                self.elected.contains((term, l))
        &&& forall|term: u64, l: Seq<char>| #[trigger]
            self.elected.contains((term, l)) ==> self.won_with.contains_key(term)
        &&& forall|j: int|
            0 <= j < self.nodes.len() && (#[trigger] self.nodes[j]).role is Leader ==> {
                let node = self.nodes[j];
                &&& self.won_with.contains_key(node.term)
                &&& self.won_with[node.term].len() <= node.log.entries.len()
                &&& forall|k: int|
                    0 <= k < self.won_with[node.term].len() ==> #[trigger] node.log.entries[k]
                        == self.won_with[node.term][k]
                &&& forall|k: int|
                    self.won_with[node.term].len() <= k < node.log.entries.len() ==> (
                    #[trigger] node.log.entries[k]).term == node.term
            }
        &&& forall|term: u64, k: int|
            #![trigger self.won_with[term][k]]
            self.won_with.contains_key(term) && 0 <= k < self.won_with[term].len()
                ==> self.won_with[term][k].term < term
        &&& forall|j: int, k: int|
            #![trigger self.nodes[j].log.entries[k]]
            0 <= j < self.nodes.len() && self.nodes[j].role is Candidate && 0 <= k
                < self.nodes[j].log.entries.len() ==> self.nodes[j].log.entries[k].term
                < self.nodes[j].term
        &&& forall|x: Chain, term: u64|
            #![trigger self.chain(x), self.won_with.contains_key(term)]
            self.chain(x) && self.won_with.contains_key(term) ==> in_line(
                x,
                term,
                self.won_with[term],
            )
    }

    /// Whether the cluster is sound, its terms are in order and its
    /// entries are traced.
    pub open spec fn lined(self) -> bool {
        self.sound() && self.ordered() && self.traced()
    }
}

/// A cut of a log that stands in a line stands in the line.
proof fn lemma_cut_in_line(log: LogView, next: u64, term: u64, won: Seq<EntryView>)
    requires
        log.well_formed(),
        next >= 1,
        in_line(Chain::of_log(log), term, won),
    ensures
        in_line(Chain::of_event(cut(log, next)), term, won),
{
    let s = Chain::of_event(cut(log, next));
    let l = Chain::of_log(log);
    assert forall|j: int| #![trigger s.holds(j)] s.holds(j) && s.at(j).term == term implies {
        &&& j > won.len()
        &&& forall|k: int|
            #![trigger s.holds(k)]
            s.holds(k) && k <= won.len() ==> s.at(k) == won[k - 1]
        &&& forall|k: int|
            #![trigger s.holds(k)]
            s.holds(k) && won.len() < k <= j ==> s.at(k).term == term
        &&& 1 <= s.base <= won.len() ==> s.base_term == won[s.base - 1].term
        &&& s.base > won.len() ==> s.base_term == term
    } by {
        assert(s.entries.len() > 0);
        assert(next <= log.entries.len());
        assert(s.entries == log.entries.subrange(next - 1, log.entries.len() as int));
        assert(l.holds(j) && l.at(j) == s.at(j));
        assert forall|k: int| #![trigger s.holds(k)] s.holds(k) implies l.holds(k) && l.at(k)
            == s.at(k) by {}
        if s.base >= 1 {
            assert(l.holds(s.base as int));
            assert(s.base_term == l.at(s.base as int).term);
        }
    }
}

/// The log that a follower has after it took the entries of a message
/// stands in a line in which its log of before and the message stand.
proof fn lemma_splice_in_line(
    log: LogView,
    after: LogView,
    event: EventView,
    term: u64,
    won: Seq<EntryView>,
)
    requires
        log.well_formed(),
        event is ReplicateEntries,
        Chain::of_event(event).sound(),
        accepts(
            log,
            event->ReplicateEntries_base_index,
            event->ReplicateEntries_base_term,
            event->ReplicateEntries_entries,
        ),
        splice(log, event->ReplicateEntries_base_index, event->ReplicateEntries_entries) == Ok::<
            LogView,
            crate::error::RaftError,
        >(after),
        in_line(Chain::of_log(log), term, won),
        in_line(Chain::of_event(event), term, won),
        agree(Chain::of_log(log), Chain::of_entries(won)),
    ensures
        in_line(Chain::of_log(after), term, won),
{
    let base_index = event->ReplicateEntries_base_index;
    let entries = event->ReplicateEntries_entries;
    let n = Chain::of_log(after);
    let p = Chain::of_log(log);
    let m = Chain::of_event(event);
    let e = Chain::of_entries(won);
    lemma_agreeing_bounds(log, base_index, entries);
    let agreed = agreeing(log, base_index, entries);
    let keep = base_index + agreed;
    if agreed != entries.len() {
        assert(after.entries == log.entries.take(keep) + entries.subrange(
            agreed as int,
            entries.len() as int,
        ));
        assert forall|k: int| #![trigger n.holds(k)] n.holds(k) && k <= keep implies p.holds(k)
            && n.at(k) == p.at(k) by {}
        assert forall|k: int| #![trigger n.holds(k)] n.holds(k) && k > keep implies m.holds(k)
            && n.at(k) == m.at(k) by {
            assert(n.at(k) == entries[k - base_index - 1]);
        }
        assert forall|j: int| #![trigger n.holds(j)] n.holds(j) && n.at(j).term == term implies {
            &&& j > won.len()
            &&& forall|k: int|
                #![trigger n.holds(k)]
                n.holds(k) && k <= won.len() ==> n.at(k) == won[k - 1]
            &&& forall|k: int|
                #![trigger n.holds(k)]
                n.holds(k) && won.len() < k <= j ==> n.at(k).term == term
            &&& 1 <= n.base <= won.len() ==> n.base_term == won[n.base - 1].term
            &&& n.base > won.len() ==> n.base_term == term
        } by {
            if j <= keep {
                assert(p.holds(j) && p.at(j).term == term);
                assert forall|k: int|
                    #![trigger n.holds(k)]
                    n.holds(k) && k <= j implies p.holds(k) && n.at(k) == p.at(k) by {}
            } else {
                assert(m.holds(j) && m.at(j).term == term);
                // What the follower kept below the entries of the message.
                assert forall|k: int|
                    #![trigger n.holds(k)]
                    n.holds(k) && k <= keep && k <= won.len() implies n.at(k) == won[k - 1] by {
                    assert(p.holds(k));
                    if k > base_index {
                        assert(m.holds(k));
                        assert(log.entries[base_index + (k - base_index - 1)].term == entries[k
                            - base_index - 1].term);
                        assert(p.at(k).term == m.at(k).term);
                        assert(m.at(k) == won[k - 1]);
                        assert(e.holds(k) && p.holds(k));
                        assert(e.at(k) == won[k - 1]);
                    } else {
                        assert(base_index >= 1);
                        assert(log.has(base_index as int, m.base_term));
                        assert(p.holds(base_index as int));
                        if base_index <= won.len() {
                            assert(m.base_term == won[base_index - 1].term);
                            lemma_agree_prefix(
                                log,
                                LogView { entries: won, ..log },
                                base_index as int,
                                k,
                            );
                        } else {
                            assert(p.at(base_index as int).term == term);
                        }
                    }
                }
                assert forall|k: int|
                    #![trigger n.holds(k)]
                    n.holds(k) && won.len() < k <= j implies n.at(k).term == term by {
                    if k > keep {
                        assert(m.holds(k));
                    } else {
                        assert(p.holds(k));
                        if k > base_index {
                            assert(m.holds(k));
                            assert(log.entries[base_index + (k - base_index - 1)].term
                                == entries[k - base_index - 1].term);
                        } else {
                            assert(base_index >= 1);
                            assert(log.has(base_index as int, m.base_term));
                            assert(p.holds(base_index as int));
                            assert(p.at(base_index as int).term == term);
                        }
                    }
                }
            }
        }
    }
}

/// A node that becomes leader, and did not lead its term before, was a
/// candidate of the term, and is the first to lead it.
pub proof fn lemma_first_to_lead(c: Cluster, i: int, input: Input)
    requires
        c.sound(),
        c.traced(),
        c.enabled(Action::Advance { node: i, input }),
        c.nodes[i].advance(input)->Ok_0.role is Leader,
        !(c.nodes[i].role is Leader && c.nodes[i].advance(input)->Ok_0.term == c.nodes[i].term),
    ensures
        c.nodes[i].role is Candidate,
        c.nodes[i].advance(input)->Ok_0.term == c.nodes[i].term,
        c.nodes[i].advance(input)->Ok_0.log == c.nodes[i].log,
        !c.won_with.contains_key(c.nodes[i].term),
{
    let pre = c.nodes[i];
    let post = pre.advance(input)->Ok_0;
    let d = c.settle(i, post);
    assert(d == c.apply(Action::Advance { node: i, input }));
    lemma_advance_sound(c, i, input);
    lemma_advance(pre, input);
    lemma_elects(pre, input);
    lemma_effects(pre, input);
    assert(pre.role is Candidate && post.term == pre.term);
    if c.won_with.contains_key(post.term) {
        let l = choose|l: Seq<char>| #[trigger] c.elected.contains((post.term, l));
        assert(d.elected.contains((post.term, l)));
        assert(d.elected.contains((post.term, post.id)));
        lemma_one_leader(d, post.term, l, post.id);
        assert(c.led(post.term, pre.id));
        let w = choose|w: int|
            0 <= w < c.nodes.len() && (#[trigger] c.nodes[w]).id == pre.id && c.nodes[w].term
                >= post.term && (c.nodes[w].term == post.term ==> !(c.nodes[w].role is Candidate));
        assert(c.ids()[w] == pre.id);
        assert(c.ids()[i] == pre.id);
        assert(w == i);
    }
}

/// Two nodes that lead the same term are one node.
pub proof fn lemma_sole_leader(c: Cluster, a: int, b: int)
    requires
        c.safe(),
        0 <= a < c.nodes.len(),
        0 <= b < c.nodes.len(),
        c.nodes[a].role is Leader,
        c.nodes[b].role is Leader,
        c.nodes[a].term == c.nodes[b].term,
    ensures
        a == b,
{
    assert(c.stands(a));
    assert(c.stands(b));
    lemma_one_leader(c, c.nodes[a].term, c.nodes[a].id, c.nodes[b].id);
    assert(c.ids()[a] == c.nodes[a].id);
    assert(c.ids()[b] == c.nodes[b].id);
}

/// The entries of a cluster that is in line stay traced when one of its
/// nodes takes an input.
pub proof fn lemma_advance_traced(c: Cluster, i: int, input: Input)
    requires
        c.lined(),
        c.enabled(Action::Advance { node: i, input }),
    ensures
        c.apply(Action::Advance { node: i, input }).lined(),
{
    let pre = c.nodes[i];
    let post = pre.advance(input)->Ok_0;
    let d = c.settle(i, post);
    assert(d == c.apply(Action::Advance { node: i, input }));
    let p = Chain::of_log(post.log);
    let old = Chain::of_log(pre.log);
    lemma_advance_sound(c, i, input);
    lemma_advance_ordered(c, i, input);
    lemma_advance(pre, input);
    lemma_elects(pre, input);
    lemma_writes(pre, input);
    lemma_effects(pre, input);
    assert(c.chain(old));
    assert(c.stands(i));
    assert(d.nodes[i] == cleared(post));
    assert(d.nodes.len() == c.nodes.len());
    assert forall|j: int| 0 <= j < c.nodes.len() && j != i implies #[trigger] d.nodes[j]
        == c.nodes[j] by {}
    assert(c.ids()[i] == pre.id);
    assert(rising(old) && bounded(old, pre.term));

    // A node that is elected now is the first to lead its term.
    let anew = post.role is Leader && !(pre.role is Leader && post.term == pre.term);
    if anew {
        assert(pre.role is Candidate && post.term == pre.term);
        if c.won_with.contains_key(post.term) {
            let l = choose|l: Seq<char>| #[trigger] c.elected.contains((post.term, l));
            assert(d.elected.contains((post.term, l)));
            assert(d.elected.contains((post.term, post.id)));
            lemma_one_leader(d, post.term, l, post.id);
            assert(c.led(post.term, pre.id));
            let w = choose|w: int|
                0 <= w < c.nodes.len() && (#[trigger] c.nodes[w]).id == pre.id && c.nodes[w].term
                    >= post.term && (c.nodes[w].term == post.term ==> !(c.nodes[w].role
                    is Candidate));
            assert(c.ids()[w] == pre.id);
            assert(w == i);
            assert(false);
        }
        assert(post.log == pre.log);
    } else if post.role is Leader {
        assert(c.won_with.contains_key(post.term));
    }
    assert(d.won_with == if anew {
        c.won_with.insert(post.term, post.log.entries)
    } else {
        c.won_with
    });

    assert forall|m: MessageView| #[trigger]
        d.sent.contains(m) && of_a_reign(m) implies d.won_with.contains_key(m.term) by {
        if !c.sent.contains(m) {
            let k = choose|k: int|
                0 <= k < post.outbox.len() && m == stamped(#[trigger] post.outbox[k], post.id);
            assert(put_out_by(post.outbox[k], post));
            assert(answer(pre, input, post, post.outbox[k]));
            if !(post.role is Leader) {
                let msg = input->Receive_msg;
                assert(c.deliverable(i, msg));
                assert(c.sent.contains(msg));
                assert(of_a_reign(msg));
            }
        }
    }
    assert forall|m: MessageView, j: int|
        #![trigger d.sent.contains(m), d.nodes[j]]
        d.sent.contains(m) && 0 <= j < d.nodes.len() && m.from == AddressView::Peer(
            d.nodes[j].id,
        ) implies m.term <= d.nodes[j].term by {
        if c.sent.contains(m) {
            assert(m.from == AddressView::Peer(c.nodes[j].id));
            assert(m.term <= c.nodes[j].term);
        } else {
            let k = choose|k: int|
                0 <= k < post.outbox.len() && m == stamped(#[trigger] post.outbox[k], post.id);
            assert(put_out_by(post.outbox[k], post));
            assert(c.ids()[j] == c.nodes[j].id);
            assert(j == i);
        }
    }
    assert forall|term: u64| #[trigger] d.won_with.contains_key(term) implies exists|
        l: Seq<char>,
    | #[trigger] d.elected.contains((term, l)) by {
        if c.won_with.contains_key(term) {
            let l = choose|l: Seq<char>| #[trigger] c.elected.contains((term, l));
            assert(d.elected.contains((term, l)));
        } else {
            assert(d.elected.contains((term, post.id)));
        }
    }
    assert forall|term: u64, l: Seq<char>| #[trigger]
        d.elected.contains((term, l)) implies d.won_with.contains_key(term) by {
        if c.elected.contains((term, l)) {
        } else {
        }
    }
    assert forall|j: int|
        0 <= j < d.nodes.len() && (#[trigger] d.nodes[j]).role is Leader implies {
        let node = d.nodes[j];
        &&& d.won_with.contains_key(node.term)
        &&& d.won_with[node.term].len() <= node.log.entries.len()
        &&& forall|k: int|
            0 <= k < d.won_with[node.term].len() ==> #[trigger] node.log.entries[k]
                == d.won_with[node.term][k]
        &&& forall|k: int|
            d.won_with[node.term].len() <= k < node.log.entries.len() ==> (
            #[trigger] node.log.entries[k]).term == node.term
    } by {
        if j != i {
            assert(d.nodes[j] == c.nodes[j]);
            assert(c.stands(j));
            if anew && c.nodes[j].term == post.term {
                assert(false);
            }
        } else if !anew {
            let won = c.won_with[pre.term];
            if post.log.entries != pre.log.entries {
                assert forall|k: int| 0 <= k < pre.log.entries.len() implies post.log.entries[k]
                    == pre.log.entries[k] by {
                    assert(post.log.entries.drop_last()[k] == post.log.entries[k]);
                }
            }
        }
    }
    assert forall|term: u64, k: int|
        #![trigger d.won_with[term][k]]
        d.won_with.contains_key(term) && 0 <= k < d.won_with[term].len() implies d.won_with[term][k].term
        < term by {
        if c.won_with.contains_key(term) {
            assert(d.won_with[term] == c.won_with[term]);
        } else {
            assert(pre.log.entries[k].term < pre.term);
        }
    }
    assert forall|j: int, k: int|
        #![trigger d.nodes[j].log.entries[k]]
        0 <= j < d.nodes.len() && d.nodes[j].role is Candidate && 0 <= k
            < d.nodes[j].log.entries.len() implies d.nodes[j].log.entries[k].term
        < d.nodes[j].term by {
        if j != i {
            assert(d.nodes[j] == c.nodes[j]);
        } else {
            assert(post.log.entries == pre.log.entries);
            assert(old.holds(k + 1));
            if pre.role is Candidate && post.term == pre.term {
                assert(pre.log.entries[k].term < pre.term);
            }
        }
    }
    lemma_log_in_line(c, i, input);
    assert forall|x: Chain, term: u64|
        #![trigger d.chain(x), d.won_with.contains_key(term)]
        d.chain(x) && d.won_with.contains_key(term) implies in_line(x, term, d.won_with[term]) by {
        lemma_chain_in_line(c, i, input, x, term);
    }
}

/// The log that a node of a cluster in line has after an input stands in
/// the line of every term that has had a leader.
proof fn lemma_log_in_line(c: Cluster, i: int, input: Input)
    requires
        c.lined(),
        c.enabled(Action::Advance { node: i, input }),
    ensures
        forall|term: u64| #[trigger]
            c.won_with.contains_key(term) ==> in_line(
                Chain::of_log(c.nodes[i].advance(input)->Ok_0.log),
                term,
                c.won_with[term],
            ),
{
    let pre = c.nodes[i];
    let post = pre.advance(input)->Ok_0;
    let p = Chain::of_log(post.log);
    let old = Chain::of_log(pre.log);
    lemma_advance(pre, input);
    lemma_writes(pre, input);
    assert(c.chain(old));
    assert(c.stands(i));
    assert(rising(old) && bounded(old, pre.term));
    assert forall|term: u64| #[trigger] c.won_with.contains_key(term) implies in_line(
        p,
        term,
        c.won_with[term],
    ) by {
        let won = c.won_with[term];
        assert(in_line(old, term, won));
        assert(c.chain(Chain::of_entries(won)));
        if post.log.entries == pre.log.entries {
            assert(p == old);
        } else if pre.role is Leader && post.role is Leader && post.term == pre.term
            && post.log.entries.len() == pre.log.entries.len() + 1
            && post.log.entries.last().term == pre.term && post.log.entries.drop_last()
            == pre.log.entries {
            let n = pre.log.entries.len() as int;
            assert forall|k: int| #![trigger p.holds(k)] p.holds(k) && k <= n implies old.holds(k)
                && p.at(k) == old.at(k) by {
                assert(post.log.entries.drop_last()[k - 1] == post.log.entries[k - 1]);
            }
            assert forall|j: int| #![trigger p.holds(j)] p.holds(j) && p.at(j).term == term implies {
                &&& j > won.len()
                &&& forall|k: int|
                    #![trigger p.holds(k)]
                    p.holds(k) && k <= won.len() ==> p.at(k) == won[k - 1]
                &&& forall|k: int|
                    #![trigger p.holds(k)]
                    p.holds(k) && won.len() < k <= j ==> p.at(k).term == term
                &&& 1 <= p.base <= won.len() ==> p.base_term == won[p.base - 1].term
                &&& p.base > won.len() ==> p.base_term == term
            } by {
                if j <= n {
                    assert(old.holds(j) && old.at(j).term == term);
                    assert forall|k: int|
                        #![trigger p.holds(k)]
                        p.holds(k) && k <= j implies old.holds(k) && p.at(k) == old.at(k) by {}
                } else {
                    assert(p.at(j) == post.log.entries.last());
                    assert(term == pre.term);
                    assert(won == c.won_with[pre.term]);
                    assert forall|k: int|
                        #![trigger p.holds(k)]
                        p.holds(k) && k <= won.len() implies p.at(k) == won[k - 1] by {
                        assert(pre.log.entries[k - 1] == won[k - 1]);
                    }
                    assert forall|k: int|
                        #![trigger p.holds(k)]
                        p.holds(k) && won.len() < k <= j implies p.at(k).term == term by {
                        if k <= n {
                            assert(pre.log.entries[k - 1].term == term);
                        }
                    }
                }
            }
        } else {
            let msg = input->Receive_msg;
            assert(c.deliverable(i, msg));
            assert(c.sent.contains(msg));
            let m = Chain::of_event(msg.event);
            assert(c.chain(m));
            lemma_splice_in_line(
                pre.log,
                LogView { entries: post.log.entries, ..pre.log },
                msg.event,
                term,
                won,
            );
        }
    }
}

/// Every chain of a cluster in line stands, after a node has taken an
/// input, in the line of every term that has had a leader.
proof fn lemma_chain_in_line(c: Cluster, i: int, input: Input, x: Chain, term: u64)
    requires
        c.lined(),
        c.enabled(Action::Advance { node: i, input }),
        c.apply(Action::Advance { node: i, input }).chain(x),
        c.apply(Action::Advance { node: i, input }).won_with.contains_key(term),
    ensures
        in_line(x, term, c.apply(Action::Advance { node: i, input }).won_with[term]),
{
    let pre = c.nodes[i];
    let post = pre.advance(input)->Ok_0;
    let d = c.settle(i, post);
    assert(d == c.apply(Action::Advance { node: i, input }));
    let p = Chain::of_log(post.log);
    lemma_advance_sound(c, i, input);
    lemma_advance(pre, input);
    lemma_elects(pre, input);
    lemma_writes(pre, input);
    lemma_log_in_line(c, i, input);
    let won = d.won_with[term];
    if c.won_with.contains_key(term) {
        assert(won == c.won_with[term]);
        assert(in_line(p, term, won));
        if exists|j: int|
            0 <= j < d.nodes.len() && x == Chain::of_log((#[trigger] d.nodes[j]).log) {
            let j = choose|j: int|
                0 <= j < d.nodes.len() && x == Chain::of_log((#[trigger] d.nodes[j]).log);
            if j != i {
                assert(d.nodes[j] == c.nodes[j]);
                assert(c.chain(x));
            } else {
                assert(x == p);
            }
        } else if exists|m: MessageView| #[trigger]
            d.sent.contains(m) && m.event is ReplicateEntries && x == Chain::of_event(m.event) {
            let m = choose|m: MessageView| #[trigger]
                d.sent.contains(m) && m.event is ReplicateEntries && x == Chain::of_event(
                    m.event,
                );
            if !c.sent.contains(m) {
                let k = choose|k: int|
                    0 <= k < post.outbox.len() && m == stamped(#[trigger] post.outbox[k], post.id);
                assert(post.outbox[k].event == m.event);
                let next = choose|next: u64|
                    next >= 1 && post.outbox[k].event == #[trigger] cut(post.log, next);
                lemma_cut_in_line(post.log, next, term, won);
            } else {
                assert(c.chain(x));
            }
        } else {
            let t = choose|t: u64| #[trigger]
                d.won_with.contains_key(t) && x == Chain::of_entries(d.won_with[t]);
            if c.won_with.contains_key(t) {
                assert(d.won_with[t] == c.won_with[t]);
                assert(c.chain(x));
            } else {
                assert(x == p);
            }
        }
    } else {
        // The term has its first leader now: no chain holds an entry of it.
        assert(post.role is Leader && term == post.term);
        assert(won == post.log.entries);
        assert(d.chain(x));
        assert forall|j: int| #![trigger x.holds(j)] x.holds(j) implies x.at(j).term != term by {
            if x.at(j).term == term {
                assert(d.backed(x));
                lemma_no_entry_before_leader(c, i, input, x, j);
            }
        }
    }
}

/// Every entry that a chain holds after a node has taken an input is of
/// a term that had a leader before.
proof fn lemma_no_entry_before_leader(c: Cluster, i: int, input: Input, x: Chain, j: int)
    requires
        c.lined(),
        c.enabled(Action::Advance { node: i, input }),
        c.apply(Action::Advance { node: i, input }).chain(x),
        x.holds(j),
    ensures
        c.won_with.contains_key(x.at(j).term),
{
    let pre = c.nodes[i];
    let post = pre.advance(input)->Ok_0;
    let d = c.settle(i, post);
    assert(d == c.apply(Action::Advance { node: i, input }));
    let p = Chain::of_log(post.log);
    let old = Chain::of_log(pre.log);
    lemma_advance(pre, input);
    lemma_writes(pre, input);
    assert(c.chain(old));
    assert(c.stands(i));
    let term = x.at(j).term;
    // Every entry of a chain of before is of a term that has had a leader.
    assert forall|y: Chain, k: int|
        #![trigger c.chain(y), y.holds(k)]
        c.chain(y) && y.holds(k) implies c.won_with.contains_key(y.at(k).term) by {
        assert(c.backed(y));
        let l = choose|l: Seq<char>| #[trigger] c.elected.contains((y.at(k).term, l));
    }
    // So is every entry of the log of the node now.
    assert forall|k: int| #![trigger p.holds(k)] p.holds(k) implies c.won_with.contains_key(
        p.at(k).term,
    ) by {
        if post.log.entries == pre.log.entries {
            assert(p == old);
            assert(c.chain(old) && old.holds(k));
        } else if pre.role is Leader && post.role is Leader && post.term == pre.term
            && post.log.entries.len() == pre.log.entries.len() + 1
            && post.log.entries.last().term == pre.term && post.log.entries.drop_last()
            == pre.log.entries {
            if k <= pre.log.entries.len() {
                assert(post.log.entries.drop_last()[k - 1] == post.log.entries[k - 1]);
                assert(c.chain(old) && old.holds(k));
            } else {
                assert(p.at(k) == post.log.entries.last());
                assert(c.elected.contains((pre.term, pre.id)));
            }
        } else {
            let msg = input->Receive_msg;
            assert(c.deliverable(i, msg));
            assert(c.sent.contains(msg));
            let m = Chain::of_event(msg.event);
            assert(c.chain(m));
            assert(m.sound());
            crate::cluster::matching::lemma_splice_either(
                pre.log,
                LogView { entries: post.log.entries, ..pre.log },
                msg.event,
            );
            if old.holds(k) && p.at(k) == old.at(k) {
                assert(c.chain(old) && old.holds(k));
            } else {
                assert(c.chain(m) && m.holds(k));
            }
        }
    }
    lemma_chains_after(c, i, input, x);
    if c.chain(x) {
        assert(c.chain(x) && x.holds(j));
    } else {
        assert(p.holds(j) && x.at(j) == p.at(j));
    }
}

/// The entries of a cluster that is in line stay traced when one of its
/// nodes starts again from its log.
pub proof fn lemma_restart_traced(c: Cluster, i: int, applied_index: u64, timeout: u64)
    requires
        c.lined(),
        c.enabled(Action::Restart { node: i, applied_index, timeout }),
    ensures
        c.apply(Action::Restart { node: i, applied_index, timeout }).lined(),
{
    let pre = c.nodes[i];
    let post = NodeView::start(pre.id, pre.peers, pre.log, applied_index, timeout)->Ok_0;
    let d = c.settle(i, post);
    assert(d == c.apply(Action::Restart { node: i, applied_index, timeout }));
    lemma_restart_sound(c, i, applied_index, timeout);
    lemma_restart_ordered(c, i, applied_index, timeout);
    assert(d.sent =~= c.sent) by {
        assert(Cluster::leaving(post) =~= Set::<MessageView>::empty());
    }
    assert(d.elected == c.elected);
    assert(d.won_with == c.won_with);
    assert(d.nodes[i] == cleared(post));
    assert forall|j: int| 0 <= j < c.nodes.len() && j != i implies #[trigger] d.nodes[j]
        == c.nodes[j] by {}
    assert forall|m: MessageView, j: int|
        #![trigger d.sent.contains(m), d.nodes[j]]
        d.sent.contains(m) && 0 <= j < d.nodes.len() && m.from == AddressView::Peer(
            d.nodes[j].id,
        ) implies m.term <= d.nodes[j].term by {
        assert(m.from == AddressView::Peer(c.nodes[j].id));
        assert(m.term <= c.nodes[j].term);
    }
    assert forall|j: int|
        0 <= j < d.nodes.len() && (#[trigger] d.nodes[j]).role is Leader implies {
        let node = d.nodes[j];
        &&& d.won_with.contains_key(node.term)
        &&& d.won_with[node.term].len() <= node.log.entries.len()
        &&& forall|k: int|
            0 <= k < d.won_with[node.term].len() ==> #[trigger] node.log.entries[k]
                == d.won_with[node.term][k]
        &&& forall|k: int|
            d.won_with[node.term].len() <= k < node.log.entries.len() ==> (
            #[trigger] node.log.entries[k]).term == node.term
    } by {
        assert(j != i);
        assert(d.nodes[j] == c.nodes[j]);
    }
    assert forall|j: int, k: int|
        #![trigger d.nodes[j].log.entries[k]]
        0 <= j < d.nodes.len() && d.nodes[j].role is Candidate && 0 <= k
            < d.nodes[j].log.entries.len() implies d.nodes[j].log.entries[k].term
        < d.nodes[j].term by {
        assert(j != i);
        assert(d.nodes[j] == c.nodes[j]);
    }
    assert forall|x: Chain, term: u64|
        #![trigger d.chain(x), d.won_with.contains_key(term)]
        d.chain(x) && d.won_with.contains_key(term) implies in_line(x, term, d.won_with[term]) by {
        if exists|j: int|
            0 <= j < d.nodes.len() && x == Chain::of_log((#[trigger] d.nodes[j]).log) {
            let j = choose|j: int|
                0 <= j < d.nodes.len() && x == Chain::of_log((#[trigger] d.nodes[j]).log);
            if j != i {
                assert(d.nodes[j] == c.nodes[j]);
            } else {
                assert(x == Chain::of_log(c.nodes[i].log));
            }
            assert(c.chain(x));
        } else if exists|m: MessageView| #[trigger]
            d.sent.contains(m) && m.event is ReplicateEntries && x == Chain::of_event(m.event) {
            let m = choose|m: MessageView| #[trigger]
                d.sent.contains(m) && m.event is ReplicateEntries && x == Chain::of_event(
                    m.event,
                );
            assert(c.sent.contains(m));
            assert(c.chain(x));
        } else {
            let t = choose|t: u64| #[trigger]
                d.won_with.contains_key(t) && x == Chain::of_entries(d.won_with[t]);
            assert(c.chain(x));
        }
    }
}

/// A cluster that has just been started is in line.
pub proof fn lemma_initial_lined(c: Cluster)
    requires
        c.initial(),
    ensures
        c.lined(),
{
    lemma_initial_sound(c);
}

} // verus!
