//! The truth of acknowledgements, proved on the cluster: a follower that
//! tells the leader of its term how far its log goes holds the leader's
//! log up to there.

use crate::cluster::{Action, cleared, Cluster, lemma_one_leader};
use crate::cluster::matching::{agree, Chain, covers, lemma_agree_prefix};
use crate::cluster::ordering::{bounded, rising};
use crate::cluster::tally::{lemma_advance_polled, lemma_initial_counted, lemma_restart_polled};
use crate::log::log::{EntryView, LogView};
use crate::message::{AddressView, EventView, MessageView};
use crate::node::effects::{answer, leads, lemma_effects, prompted, tracks, votes};
use crate::node::election::{lemma_elects, put_out_by};
use crate::node::laws::{Input, lemma_advance, lemma_agreeing_bounds};
use crate::node::model::{accepts, agreeing, NodeView, RoleView, splice};
use crate::node::replication::{cut, lemma_writes};
use crate::transport::stamped;
use vstd::prelude::*;

verus! {

/// Whether the log `p` is the beginning of the log `l`.
pub open spec fn synced(p: LogView, l: LogView) -> bool {
    p.entries.len() <= l.entries.len() && forall|k: int|
        0 <= k < p.entries.len() ==> #[trigger] p.entries[k] == l.entries[k]
}

/// Whether the log `p` lacks the entry that the log `l` holds at `index`.
pub open spec fn lacks(p: LogView, l: LogView, index: int) -> bool {
    1 <= index <= l.entries.len() && !p.has(index, l.term_at(index))
}

/// Whether the log `p` lacks an entry that the log `l` holds.
pub open spec fn behind(p: LogView, l: LogView) -> bool {
    exists|index: int| #[trigger] lacks(p, l, index)
}

/// Whether the log accepts the entries of the event and holds them all
/// already.
pub open spec fn full_match(log: LogView, event: EventView) -> bool {
    &&& accepts(
        log,
        event->ReplicateEntries_base_index,
        event->ReplicateEntries_base_term,
        event->ReplicateEntries_entries,
    )
    &&& agreeing(log, event->ReplicateEntries_base_index, event->ReplicateEntries_entries)
        == event->ReplicateEntries_entries.len()
}

/// Whether the entries of the event are a part of the log `l`, with the
/// term before them as the log has it.
pub open spec fn window(event: EventView, l: LogView) -> bool {
    let x = Chain::of_event(event);
    &&& x.base + x.entries.len() <= l.entries.len()
    &&& forall|k: int| #![trigger x.holds(k)] x.holds(k) ==> x.at(k) == l.entries[k - 1]
    &&& x.base_term == l.term_at(x.base as int)
}

/// Whether the entries of the event, sent in `term`, are a part of what
/// the leader of the term holds: they reach the end of the log `won` that
/// it was elected with, are those of `won` up to there, and entries of the
/// term after it.
pub open spec fn reign_window(event: EventView, term: u64, won: Seq<EntryView>) -> bool {
    let x = Chain::of_event(event);
    &&& x.base + x.entries.len() >= won.len()
    &&& forall|k: int|
        #![trigger x.holds(k)]
        x.holds(k) ==> if k <= won.len() {
            x.at(k) == won[k - 1]
        } else {
            x.at(k).term == term
        }
    &&& 1 <= x.base <= won.len() ==> x.base_term == won[x.base - 1].term
    &&& x.base > won.len() ==> x.base_term == term
    &&& x.base == 0 ==> x.base_term == 0
}

impl Cluster {
    /// What holds of a leader's knowledge of its peers.
    pub open spec fn knows(self, j: int) -> bool {
        let node = self.nodes[j];
        node.role matches RoleView::Leader { next_index, match_index, .. } ==> forall|q: int|
            #![trigger node.peers[q]]
            0 <= q < node.peers.len() ==> {
                &&& next_index[q] <= node.log.last_index() + 1
                &&& match_index[q] <= node.log.last_index()
                &&& forall|n: nat|
                    1 <= n <= match_index[q] && node.log.term_at(n as int) == node.term
                        ==> #[trigger] self.held.contains((node.peers[q], node.term, n))
            }
    }

    /// What holds of a message with respect to the leader at position `j`,
    /// where the message is of the leader's term.
    pub open spec fn told(self, m: MessageView, j: int) -> bool {
        let leader = self.nodes[j];
        match m.event {
            EventView::ReplicateEntries { .. } => window(m.event, leader.log),
            EventView::AcceptEntries { last_index } => {
                &&& last_index <= leader.log.last_index()
                &&& m.from is Peer
                &&& forall|n: nat|
                    1 <= n <= last_index && leader.log.term_at(n as int) == leader.term
                        ==> #[trigger] self.held.contains((m.from->Peer_0, leader.term, n))
            },
            EventView::Heartbeat { commit_index, commit_term } => {
                &&& commit_index <= leader.log.last_index()
                &&& commit_term == leader.log.term_at(commit_index as int)
            },
            _ => true,
        }
    }

    /// What holds of a message with respect to the leader at position `j`
    /// and the node at position `f`, where the message is of the leader's
    /// term.
    pub open spec fn heard(self, m: MessageView, j: int, f: int) -> bool {
        let leader = self.nodes[j];
        let node = self.nodes[f];
        match m.event {
            EventView::ReplicateEntries { entries, .. } => m.to == AddressView::Peer(node.id) ==> {
                ||| entries.len() > 0 && entries.last().term == leader.term
                ||| node.term > leader.term
                ||| node.term == leader.term && (synced(node.log, leader.log) || !full_match(
                    node.log,
                    m.event,
                ))
            },
            EventView::ConfirmLeader { has_committed, .. } => m.from == AddressView::Peer(node.id)
                && !has_committed && node.term == leader.term && !synced(node.log, leader.log)
                ==> behind(node.log, leader.log),
            EventView::RejectEntries => m.from == AddressView::Peer(node.id) && node.term
                == leader.term && !synced(node.log, leader.log) ==> behind(node.log, leader.log),
            _ => true,
        }
    }

    /// What holds of the acknowledgements in every cluster that was
    /// started and left to run.
    pub open spec fn acknowledged(self) -> bool {
        &&& forall|j: int| 0 <= j < self.nodes.len() ==> #[trigger] self.knows(j)
        &&& forall|m: MessageView, j: int|
            #![trigger self.sent.contains(m), self.nodes[j]]
            self.sent.contains(m) && 0 <= j < self.nodes.len() && self.nodes[j].role is Leader
                && self.nodes[j].term == m.term ==> self.told(m, j)
        &&& forall|m: MessageView, j: int, f: int|
            #![trigger self.sent.contains(m), self.nodes[j], self.nodes[f]]
            self.sent.contains(m) && 0 <= j < self.nodes.len() && 0 <= f < self.nodes.len()
                && self.nodes[j].role is Leader && self.nodes[j].term == m.term ==> self.heard(
                m,
                j,
                f,
            )
        &&& forall|m: MessageView| #[trigger]
            self.sent.contains(m) && m.event is ReplicateEntries ==> m.to is Peer && reign_window(
                m.event,
                m.term,
                self.won_with[m.term],
            )
    }

    /// Whether the votes of the cluster are counted and its
    /// acknowledgements are true.
    pub open spec fn trusted(self) -> bool {
        self.counted() && self.acknowledged()
    }
}

/// A log that holds an entry of the term of a leader holds the leader's
/// log up to its own end, where it is of the leader's term itself.
proof fn lemma_synced_by_term(c: Cluster, p: LogView, term: u64, j: int, e: int)
    requires
        c.lined(),
        0 <= j < c.nodes.len(),
        c.nodes[j].role is Leader,
        c.nodes[j].term == term,
        c.chain(Chain::of_log(p)),
        rising(Chain::of_log(p)),
        bounded(Chain::of_log(p), term),
        1 <= e <= p.entries.len(),
        p.entries[e - 1].term == term,
    ensures
        synced(p, c.nodes[j].log),
{
    let l = c.nodes[j].log;
    let x = Chain::of_log(p);
    let y = Chain::of_log(l);
    assert(c.chain(y));
    assert(covers(y, term, x));
    assert(agree(x, y));
    assert forall|k: int| #![trigger x.holds(k)] x.holds(k) && e <= k implies x.at(k).term
        == term && y.holds(k) by {
        lemma_rises(p, e, k);
    }
    let last = p.entries.len() as int;
    assert(x.holds(last) && x.at(last).term == term);
    assert(y.holds(last) && y.at(last).term == term);
    assert forall|k: int| 0 <= k < p.entries.len() implies #[trigger] p.entries[k]
        == l.entries[k] by {
        lemma_agree_prefix(p, l, last, k + 1);
    }
}

/// Along a log whose terms rise, the term at an index is no later than
/// the term at a later index.
proof fn lemma_rises(p: LogView, i: int, j: int)
    requires
        rising(Chain::of_log(p)),
        1 <= i <= j <= p.entries.len(),
    ensures
        p.entries[i - 1].term <= p.entries[j - 1].term,
    decreases j - i,
{
    let x = Chain::of_log(p);
    if i < j {
        lemma_rises(p, i, j - 1);
        assert(x.holds(j));
        assert(x.before(j) == p.entries[j - 2].term);
    }
}

/// A log that holds a part of the leader's log in full, and the term
/// before it, holds the leader's log up to the end of the part.
proof fn lemma_full_match_holds(c: Cluster, p: LogView, event: EventView, l: LogView, n: int)
    requires
        c.chain(Chain::of_log(p)),
        c.chain(Chain::of_log(l)),
        c.sound(),
        p.well_formed(),
        event is ReplicateEntries,
        window(event, l),
        full_match(p, event),
        1 <= n <= Chain::of_event(event).base + Chain::of_event(event).entries.len(),
    ensures
        p.has(n, l.term_at(n)),
        n <= p.entries.len(),
        p.entries[n - 1] == l.entries[n - 1],
{
    let base_index = event->ReplicateEntries_base_index;
    let entries = event->ReplicateEntries_entries;
    let x = Chain::of_event(event);
    lemma_agreeing_bounds(p, base_index, entries);
    assert(agree(Chain::of_log(p), Chain::of_log(l)));
    let end = x.base + x.entries.len();
    if n > x.base {
        assert(x.holds(n));
        assert(p.entries[base_index + (n - base_index - 1)].term == entries[n - base_index
            - 1].term);
        lemma_agree_prefix(p, l, n, n);
    } else {
        assert(p.has(base_index as int, x.base_term));
        lemma_agree_prefix(p, l, base_index as int, n);
    }
}

/// A log that has taken a part of the leader's log, of which it lacked an
/// entry, holds the beginning of the leader's log.
proof fn lemma_spliced_synced(p: LogView, after: Seq<EntryView>, event: EventView, l: LogView)
    requires
        p.well_formed(),
        event is ReplicateEntries,
        window(event, l),
        agree(Chain::of_log(p), Chain::of_log(l)),
        accepts(
            p,
            event->ReplicateEntries_base_index,
            event->ReplicateEntries_base_term,
            event->ReplicateEntries_entries,
        ),
        agreeing(p, event->ReplicateEntries_base_index, event->ReplicateEntries_entries)
            != event->ReplicateEntries_entries.len(),
        splice(p, event->ReplicateEntries_base_index, event->ReplicateEntries_entries) is Ok,
        after == splice(
            p,
            event->ReplicateEntries_base_index,
            event->ReplicateEntries_entries,
        )->Ok_0.entries,
    ensures
        synced(LogView { entries: after, ..p }, l),
{
    let base_index = event->ReplicateEntries_base_index;
    let base_term = event->ReplicateEntries_base_term;
    let entries = event->ReplicateEntries_entries;
    let x = Chain::of_event(event);
    lemma_agreeing_bounds(p, base_index, entries);
    let agreed = agreeing(p, base_index, entries);
    let keep = base_index + agreed;
    assert(after == p.entries.take(keep) + entries.subrange(agreed as int, entries.len() as int));
    assert forall|k: int| 0 <= k < after.len() implies #[trigger] after[k] == l.entries[k] by {
        if k >= keep {
            assert(after[k] == entries[k - base_index]);
            assert(x.holds(k + 1));
        } else {
            assert(after[k] == p.entries[k]);
            if agreed > 0 {
                assert(p.entries[base_index + (agreed - 1)].term == entries[agreed - 1].term);
                assert(x.holds(keep as int));
                lemma_agree_prefix(p, l, keep as int, k + 1);
            } else {
                assert(p.has(base_index as int, base_term));
                lemma_agree_prefix(p, l, base_index as int, k + 1);
            }
        }
    }
}

/// A follower that has taken entries of the leader of its term holds the
/// beginning of the leader's log.
proof fn lemma_synced_after(c: Cluster, i: int, input: Input, j: int)
    requires
        c.trusted(),
        c.enabled(Action::Advance { node: i, input }),
        0 <= j < c.nodes.len(),
        j != i,
        c.nodes[j].role is Leader,
        c.nodes[i].advance(input)->Ok_0.term == c.nodes[j].term,
        c.nodes[i].advance(input)->Ok_0.role is Follower,
        input matches Input::Receive { msg, .. } && msg.term == c.nodes[j].term && msg.from
            is Peer && (msg.event matches EventView::ReplicateEntries {
            base_index,
            base_term,
            entries,
        } && accepts(c.nodes[i].log, base_index, base_term, entries)),
    ensures
        synced(c.nodes[i].advance(input)->Ok_0.log, c.nodes[j].log),
{
    let pre = c.nodes[i];
    let post = pre.advance(input)->Ok_0;
    let leader = c.nodes[j];
    let l = leader.log;
    let term = leader.term;
    let msg = input->Receive_msg;
    let base_index = msg.event->ReplicateEntries_base_index;
    let entries = msg.event->ReplicateEntries_entries;
    lemma_advance(pre, input);
    assert(c.deliverable(i, msg));
    assert(c.sent.contains(msg));
    assert(c.told(msg, j));
    assert(c.heard(msg, j, i));
    assert(c.stands(j));
    assert(c.stands(i));
    if pre.role is Leader && pre.term == term {
        lemma_one_leader(c, term, pre.id, leader.id);
        assert(c.ids()[i] == pre.id);
        assert(c.ids()[j] == leader.id);
    }
    lemma_step_takes(pre, input);
    let old = Chain::of_log(pre.log);
    assert(c.chain(old));
    assert(c.chain(Chain::of_log(l)));
    assert(agree(old, Chain::of_log(l)));
    assert(rising(old) && bounded(old, pre.term));
    lemma_agreeing_bounds(pre.log, base_index, entries);
    let agreed = agreeing(pre.log, base_index, entries);
    if agreed == entries.len() {
        assert(post.log.entries == pre.log.entries);
        assert(full_match(pre.log, msg.event));
        assert(c.sent.contains(msg) && msg.event is ReplicateEntries);
        assert(msg.to is Peer);
        assert(msg.to == AddressView::Peer(pre.id));
        if entries.len() > 0 && entries.last().term == term {
            let e = base_index + entries.len();
            assert(pre.log.entries[base_index + (entries.len() - 1)].term == entries[entries.len()
                - 1].term);
            assert(old.holds(e as int));
            assert(pre.term == term);
            lemma_synced_by_term(c, pre.log, term, j, e as int);
        } else {
            assert(pre.term == term);
        }
    } else {
        lemma_spliced_synced(pre.log, post.log.entries, msg.event, l);
    }
}

/// The entry after those that a log and entries agree on is not one that
/// they agree on.
pub proof fn lemma_first_differs(log: LogView, base_index: u64, entries: Seq<EntryView>)
    requires
        base_index <= log.entries.len(),
        base_index + entries.len() < u64::MAX,
        agreeing(log, base_index, entries) < entries.len(),
        base_index + agreeing(log, base_index, entries) < log.entries.len(),
    ensures
        log.entries[base_index + agreeing(log, base_index, entries)].term != entries[agreeing(
            log,
            base_index,
            entries,
        ) as int].term,
    decreases entries.len(),
{
    if entries.len() == 0 || base_index + 1 > log.entries.len() || log.entries[base_index as int].term
        != entries[0].term {
    } else {
        let rest = entries.drop_first();
        lemma_first_differs(log, (base_index + 1) as u64, rest);
        let a = agreeing(log, (base_index + 1) as u64, rest);
        assert(rest[a as int] == entries[a as int + 1]);
    }
}

/// A follower that takes the entries of a message of its term has the log
/// that taking them leaves.
pub proof fn lemma_step_takes(pre: NodeView, input: Input)
    requires
        pre.well_formed(),
        input.in_window(),
        pre.advance(input) is Ok,
        pre.advance(input)->Ok_0.role is Follower,
        input matches Input::Receive { msg, .. } && msg.term == pre.advance(input)->Ok_0.term && (
        msg.event matches EventView::ReplicateEntries { base_index, base_term, entries } && accepts(
            pre.log,
            base_index,
            base_term,
            entries,
        )),
        !(pre.role is Leader && pre.term == pre.advance(input)->Ok_0.term),
        input->Receive_msg.from is Peer,
    ensures
        splice(
            pre.log,
            input->Receive_msg.event->ReplicateEntries_base_index,
            input->Receive_msg.event->ReplicateEntries_entries,
        ) is Ok,
        pre.advance(input)->Ok_0.log.entries == splice(
            pre.log,
            input->Receive_msg.event->ReplicateEntries_base_index,
            input->Receive_msg.event->ReplicateEntries_entries,
        )->Ok_0.entries,
{
    let msg = input->Receive_msg;
    let timeout = input->Receive_timeout;
    let base_index = msg.event->ReplicateEntries_base_index;
    let entries = msg.event->ReplicateEntries_entries;
    lemma_advance(pre, input);
    if msg.term > pre.term {
        let follower = pre.demote(msg, timeout)->Ok_0;
        crate::node::replication::lemma_agreeing_same(follower.log, pre.log, base_index, entries);
    } else {
        match pre.role {
            RoleView::Candidate { .. } => {
                let follower = pre.follow(Some(msg.from->Peer_0), Some(pre.id), timeout);
            },
            _ => {},
        }
    }
}

/// A cut of a log from an index that the log reaches is a part of the
/// log, and reaches its end.
proof fn lemma_cut_window(log: LogView, next: u64)
    requires
        log.well_formed(),
        1 <= next <= log.entries.len() + 1,
    ensures
        window(cut(log, next), log),
        Chain::of_event(cut(log, next)).base + Chain::of_event(cut(log, next)).entries.len()
            == log.entries.len(),
        Chain::of_event(cut(log, next)).base == next - 1,
{
    let x = Chain::of_event(cut(log, next));
    if next <= log.entries.len() {
        assert(x.entries == log.entries.subrange(next - 1, log.entries.len() as int));
    } else {
        assert(x.entries.len() == 0);
    }
}

/// What a leader knows of its peers stays true when a node takes an
/// input.
proof fn lemma_knows_after(c: Cluster, i: int, input: Input, j: int)
    requires
        c.trusted(),
        c.enabled(Action::Advance { node: i, input }),
        0 <= j < c.nodes.len(),
    ensures
        c.apply(Action::Advance { node: i, input }).knows(j),
{
    let pre = c.nodes[i];
    let post = pre.advance(input)->Ok_0;
    let d = c.settle(i, post);
    assert(d == c.apply(Action::Advance { node: i, input }));
    lemma_advance(pre, input);
    lemma_writes(pre, input);
    lemma_effects(pre, input);
    assert(c.knows(j));
    if j != i {
        assert(d.nodes[j] == c.nodes[j]);
    } else if post.role is Leader {
        assert(d.nodes[i] == cleared(post));
        let next_index = post.role->Leader_next_index;
        let match_index = post.role->Leader_match_index;
        assert forall|q: int| #![trigger post.peers[q]] 0 <= q < post.peers.len() implies {
            &&& next_index[q] <= post.log.last_index() + 1
            &&& match_index[q] <= post.log.last_index()
            &&& forall|n: nat|
                1 <= n <= match_index[q] && post.log.term_at(n as int) == post.term
                    ==> #[trigger] d.held.contains((post.peers[q], post.term, n))
        } by {
            if pre.role is Leader && post.term == pre.term {
                assert(tracks(pre, input, post, q));
                assert(pre.peers[q] == post.peers[q]);
                let before = pre.role->Leader_match_index[q];
                assert forall|n: nat| 1 <= n <= before implies post.log.term_at(n as int)
                    == pre.log.term_at(n as int) by {
                    if post.log.entries != pre.log.entries {
                        assert(post.log.entries.drop_last()[n - 1] == post.log.entries[n - 1]);
                    }
                }
                if match_index[q] != before || next_index[q] != pre.role->Leader_next_index[q] {
                    let msg = input->Receive_msg;
                    assert(c.deliverable(i, msg));
                    assert(c.sent.contains(msg));
                    assert(c.told(msg, i));
                    if msg.event is AcceptEntries {
                        let m = msg.event->AcceptEntries_last_index;
                        assert(post.log.entries == pre.log.entries || post.log.entries.len()
                            > pre.log.entries.len());
                        assert forall|n: nat| 1 <= n <= m implies post.log.term_at(n as int)
                            == pre.log.term_at(n as int) by {
                            if post.log.entries != pre.log.entries {
                                assert(post.log.entries.drop_last()[n - 1]
                                    == post.log.entries[n - 1]);
                            }
                        }
                    }
                }
            }
        }
    }
}

/// What holds of a message with respect to a leader of its term stays
/// true, and holds of a new message, when a node takes an input.
proof fn lemma_told_after(c: Cluster, i: int, input: Input, m: MessageView, j: int)
    requires
        c.trusted(),
        c.enabled(Action::Advance { node: i, input }),
        0 <= j < c.nodes.len(),
        c.apply(Action::Advance { node: i, input }).sent.contains(m),
        c.apply(Action::Advance { node: i, input }).nodes[j].role is Leader,
        c.apply(Action::Advance { node: i, input }).nodes[j].term == m.term,
    ensures
        c.apply(Action::Advance { node: i, input }).told(m, j),
{
    let pre = c.nodes[i];
    let post = pre.advance(input)->Ok_0;
    let d = c.settle(i, post);
    assert(d == c.apply(Action::Advance { node: i, input }));
    lemma_advance_polled(c, i, input);
    lemma_advance(pre, input);
    lemma_writes(pre, input);
    lemma_effects(pre, input);
    lemma_elects(pre, input);
    lemma_knows_after(c, i, input, i);
    assert(d.nodes[i] == cleared(post));
    if j != i {
        assert(d.nodes[j] == c.nodes[j]);
    }
    let leader = d.nodes[j];
    if c.sent.contains(m) {
        if j != i {
            assert(c.told(m, j));
        } else if of_reign(m) {
            if !(pre.role is Leader && post.term == pre.term) {
                crate::cluster::lineage::lemma_first_to_lead(c, i, input);
                assert(crate::cluster::lineage::of_a_reign(m));
                assert(c.won_with.contains_key(m.term));
            }
            assert(c.told(m, i));
            assert forall|n: int| 0 <= n < pre.log.entries.len() implies #[trigger] post.log.entries[n]
                == pre.log.entries[n] by {
                if post.log.entries != pre.log.entries {
                    assert(post.log.entries.drop_last()[n] == post.log.entries[n]);
                }
            }
            if m.event is ReplicateEntries {
                let x = Chain::of_event(m.event);
                assert forall|k: int| #![trigger x.holds(k)] x.holds(k) implies x.at(k)
                    == post.log.entries[k - 1] by {}
            }
        }
    } else {
        let k = choose|k: int|
            0 <= k < post.outbox.len() && m == stamped(#[trigger] post.outbox[k], post.id);
        assert(put_out_by(post.outbox[k], post));
        assert(answer(pre, input, post, post.outbox[k]));
        assert(m.event == post.outbox[k].event);
        assert(m.term == post.term);
        if j != i {
            if post.role is Leader {
                crate::cluster::lineage::lemma_sole_leader(d, i, j);
            } else if m.event is AcceptEntries {
                let msg = input->Receive_msg;
                lemma_synced_after(c, i, input, j);
                let last_index = m.event->AcceptEntries_last_index;
                assert forall|n: nat|
                    1 <= n <= last_index && leader.log.term_at(n as int)
                        == leader.term implies #[trigger] d.held.contains(
                    (m.from->Peer_0, leader.term, n),
                ) by {
                    assert(post.log.entries[n - 1] == leader.log.entries[n - 1]);
                    assert(Cluster::holding(post).contains((post.id, post.term, n)));
                }
            }
        } else {
            if m.event is ReplicateEntries {
                let q = choose|q: int|
                    #![trigger post.peers[q]]
                    {
                        &&& 0 <= q < post.peers.len()
                        &&& post.outbox[k].to == AddressView::Peer(post.peers[q])
                        &&& post.outbox[k].event == cut(post.log, post.role->Leader_next_index[q])
                        &&& prompted(pre, input, post, post.peers[q])
                    };
                assert(d.knows(i));
                assert(post.role->Leader_next_index[q] >= 1);
                lemma_cut_window(post.log, post.role->Leader_next_index[q]);
            }
        }
    }
}

/// Whether what holds of the message with respect to a leader says
/// anything.
spec fn of_reign(m: MessageView) -> bool {
    m.event is ReplicateEntries || m.event is AcceptEntries || m.event is Heartbeat
}

/// A log that lacks an entry of the leader's log does not hold in full
/// a part of the leader's log that reaches the entry.
proof fn lemma_behind_no_match(c: Cluster, p: LogView, event: EventView, l: LogView)
    requires
        c.sound(),
        c.chain(Chain::of_log(p)),
        c.chain(Chain::of_log(l)),
        p.well_formed(),
        event is ReplicateEntries,
        window(event, l),
        Chain::of_event(event).base + Chain::of_event(event).entries.len() == l.entries.len(),
        behind(p, l),
    ensures
        !full_match(p, event),
{
    if full_match(p, event) {
        let n = choose|n: int| #[trigger] lacks(p, l, n);
        lemma_full_match_holds(c, p, event, l, n);
    }
}

/// A log that holds the beginning of a log holds the beginning of what
/// that log has grown to.
proof fn lemma_synced_grows(p: LogView, l: LogView, grown: LogView)
    requires
        synced(p, l),
        synced(l, grown),
    ensures
        synced(p, grown),
{
}

/// A log that lacks an entry of a log lacks it of what that log has grown
/// to.
proof fn lemma_behind_grows(p: LogView, l: LogView, grown: LogView)
    requires
        behind(p, l),
        synced(l, grown),
    ensures
        behind(p, grown),
{
    let n = choose|n: int| #[trigger] lacks(p, l, n);
    assert(l.entries[n - 1] == grown.entries[n - 1]);
    assert(lacks(p, grown, n));
}

/// A leader's log only grows while it leads its term.
proof fn lemma_leader_grows(pre: NodeView, input: Input)
    requires
        pre.well_formed(),
        input.in_window(),
        pre.advance(input) is Ok,
        pre.role is Leader,
        pre.advance(input)->Ok_0.role is Leader,
        pre.advance(input)->Ok_0.term == pre.term,
    ensures
        synced(pre.log, pre.advance(input)->Ok_0.log),
{
    let post = pre.advance(input)->Ok_0;
    lemma_advance(pre, input);
    lemma_writes(pre, input);
    assert forall|k: int| 0 <= k < pre.log.entries.len() implies #[trigger] pre.log.entries[k]
        == post.log.entries[k] by {
        if post.log.entries != pre.log.entries {
            assert(post.log.entries.drop_last()[k] == post.log.entries[k]);
        }
    }
}

/// What holds of a message that was sent before, with respect to a
/// leader of its term and a node, stays true when a node takes an input.
proof fn lemma_heard_still(c: Cluster, i: int, input: Input, m: MessageView, j: int, f: int)
    requires
        c.trusted(),
        c.enabled(Action::Advance { node: i, input }),
        0 <= j < c.nodes.len(),
        0 <= f < c.nodes.len(),
        c.sent.contains(m),
        c.apply(Action::Advance { node: i, input }).nodes[j].role is Leader,
        c.apply(Action::Advance { node: i, input }).nodes[j].term == m.term,
    ensures
        c.apply(Action::Advance { node: i, input }).heard(m, j, f),
{
    let pre = c.nodes[i];
    let post = pre.advance(input)->Ok_0;
    let d = c.settle(i, post);
    assert(d == c.apply(Action::Advance { node: i, input }));
    lemma_advance_polled(c, i, input);
    lemma_advance(pre, input);
    lemma_writes(pre, input);
    lemma_effects(pre, input);
    lemma_elects(pre, input);
    assert(d.nodes[i] == cleared(post));
    if j != i {
        assert(d.nodes[j] == c.nodes[j]);
    }
    if f != i {
        assert(d.nodes[f] == c.nodes[f]);
    }
    let term = m.term;
    let speaks = m.event is ReplicateEntries || m.event is ConfirmLeader || m.event
        is RejectEntries;
    if speaks {
        assert(crate::cluster::lineage::of_a_reign(m));
        assert(c.won_with.contains_key(term));
        if j == i {
            if !(pre.role is Leader && post.term == pre.term) {
                crate::cluster::lineage::lemma_first_to_lead(c, i, input);
            }
            lemma_leader_grows(pre, input);
            assert(c.heard(m, i, f));
            if f == i {
                assert(synced(post.log, post.log));
            } else {
                let node = c.nodes[f];
                if synced(node.log, pre.log) {
                    lemma_synced_grows(node.log, pre.log, post.log);
                }
                if behind(node.log, pre.log) {
                    lemma_behind_grows(node.log, pre.log, post.log);
                }
            }
        } else {
            let leader = c.nodes[j];
            assert(c.heard(m, j, f));
            if f == i {
                // The node that takes the input is the one spoken of.
                if m.from == AddressView::Peer(pre.id) {
                    assert(m.term <= pre.term);
                }
                if post.term == term && post.log.entries != pre.log.entries {
                    if pre.role is Leader && post.role is Leader && post.term == pre.term {
                        crate::cluster::lineage::lemma_sole_leader(d, i, j);
                    } else {
                        lemma_synced_after(c, i, input, j);
                    }
                } else if post.term == term {
                    assert(synced(post.log, leader.log) == synced(pre.log, leader.log));
                    assert(behind(post.log, leader.log) == behind(pre.log, leader.log)) by {
                        if behind(pre.log, leader.log) {
                            let n = choose|n: int| #[trigger] lacks(pre.log, leader.log, n);
                            assert(lacks(post.log, leader.log, n));
                        }
                        if behind(post.log, leader.log) {
                            let n = choose|n: int| #[trigger] lacks(post.log, leader.log, n);
                            assert(lacks(pre.log, leader.log, n));
                        }
                    }
                    if m.event is ReplicateEntries {
                        let base_index = m.event->ReplicateEntries_base_index;
                        let entries = m.event->ReplicateEntries_entries;
                        crate::node::replication::lemma_agreeing_same(
                            post.log,
                            pre.log,
                            base_index,
                            entries,
                        );
                        assert(full_match(post.log, m.event) == full_match(pre.log, m.event));
                    }
                }
            }
        }
    }
}

/// What holds of a message that a node sends, with respect to a leader
/// of its term and a node, holds when it is sent.
proof fn lemma_heard_anew(c: Cluster, i: int, input: Input, m: MessageView, j: int, f: int)
    requires
        c.trusted(),
        c.enabled(Action::Advance { node: i, input }),
        0 <= j < c.nodes.len(),
        0 <= f < c.nodes.len(),
        !c.sent.contains(m),
        c.apply(Action::Advance { node: i, input }).sent.contains(m),
        c.apply(Action::Advance { node: i, input }).nodes[j].role is Leader,
        c.apply(Action::Advance { node: i, input }).nodes[j].term == m.term,
    ensures
        c.apply(Action::Advance { node: i, input }).heard(m, j, f),
{
    let pre = c.nodes[i];
    let post = pre.advance(input)->Ok_0;
    let d = c.settle(i, post);
    assert(d == c.apply(Action::Advance { node: i, input }));
    lemma_advance_polled(c, i, input);
    lemma_advance(pre, input);
    lemma_writes(pre, input);
    lemma_effects(pre, input);
    lemma_elects(pre, input);
    lemma_knows_after(c, i, input, i);
    assert(d.nodes[i] == cleared(post));
    if j != i {
        assert(d.nodes[j] == c.nodes[j]);
    }
    if f != i {
        assert(d.nodes[f] == c.nodes[f]);
    }
    assert(c.ids()[i] == pre.id);
    assert(c.ids()[f] == c.nodes[f].id);
    let k = choose|k: int|
        0 <= k < post.outbox.len() && m == stamped(#[trigger] post.outbox[k], post.id);
    assert(put_out_by(post.outbox[k], post));
    assert(answer(pre, input, post, post.outbox[k]));
    assert(m.event == post.outbox[k].event);
    assert(m.to == post.outbox[k].to);
    assert(m.from == AddressView::Peer(post.id));
    assert(m.term == post.term);
    let leader = d.nodes[j];
    let node = d.nodes[f];
    match m.event {
        EventView::ReplicateEntries { entries, .. } => {
            if j != i {
                crate::cluster::lineage::lemma_sole_leader(d, i, j);
            }
            if m.to == AddressView::Peer(node.id) {
                let q = choose|q: int|
                    #![trigger post.peers[q]]
                    {
                        &&& 0 <= q < post.peers.len()
                        &&& post.outbox[k].to == AddressView::Peer(post.peers[q])
                        &&& post.outbox[k].event == cut(post.log, post.role->Leader_next_index[q])
                        &&& prompted(pre, input, post, post.peers[q])
                    };
                let next = post.role->Leader_next_index[q];
                assert(d.knows(i));
                assert(next >= 1);
                lemma_cut_window(post.log, next);
                assert(node.id == post.peers[q]);
                assert(post.peers[q] != post.id);
                assert(f != i);
                if input->Receive_msg.event is ClientRequest {
                    assert(c.knows(i));
                    assert(tracks(pre, input, post, q));
                    assert(pre.peers[q] == post.peers[q]);
                    assert(next <= pre.log.last_index() + 1);
                    assert(entries.len() > 0);
                    assert(entries.last() == post.log.entries.last());
                } else {
                    let msg = input->Receive_msg;
                    assert(c.deliverable(i, msg));
                    assert(c.sent.contains(msg));
                    assert(msg.from == AddressView::Peer(c.nodes[f].id));
                    assert(msg.term <= c.nodes[f].term);
                    assert(pre.role is Leader && pre.term == post.term);
                    assert(post.log.entries == pre.log.entries);
                    assert(c.heard(msg, i, f));
                    if node.term == leader.term && !synced(node.log, leader.log) {
                        assert(synced(node.log, pre.log) == synced(node.log, post.log));
                        assert(behind(node.log, pre.log));
                        let n = choose|n: int| #[trigger] lacks(node.log, pre.log, n);
                        assert(lacks(node.log, post.log, n));
                        assert(c.chain(Chain::of_log(node.log)));
                        assert(c.chain(Chain::of_log(pre.log)));
                        assert(Chain::of_log(pre.log) == Chain::of_log(post.log));
                        lemma_behind_no_match(c, node.log, m.event, post.log);
                    }
                }
            }
        },
        EventView::ConfirmLeader { commit_index, has_committed } => {
            if m.from == AddressView::Peer(node.id) && !has_committed && node.term == leader.term {
                assert(f == i);
                let msg = input->Receive_msg;
                assert(c.deliverable(i, msg));
                assert(c.sent.contains(msg));
                if j == i {
                    assert(false);
                }
                assert(c.told(msg, j));
                let ct = msg.event->Heartbeat_commit_term;
                assert(!post.log.has(commit_index as int, ct));
                assert(lacks(post.log, leader.log, commit_index as int));
            }
        },
        EventView::RejectEntries => {
            if m.from == AddressView::Peer(node.id) && node.term == leader.term {
                assert(f == i);
                let msg = input->Receive_msg;
                assert(c.deliverable(i, msg));
                assert(c.sent.contains(msg));
                if j == i {
                    assert(false);
                }
                assert(c.told(msg, j));
                let base_index = msg.event->ReplicateEntries_base_index;
                let base_term = msg.event->ReplicateEntries_base_term;
                let entries = msg.event->ReplicateEntries_entries;
                let x = Chain::of_event(msg.event);
                assert(window(msg.event, leader.log));
                assert forall|e: int| 0 <= e < entries.len() implies (#[trigger] entries[e]).index
                    == base_index + 1 + e by {
                    assert(x.holds(base_index + 1 + e));
                    assert(x.at(base_index + 1 + e) == leader.log.entries[base_index + e]);
                }
                assert(!(base_index == 0 || pre.log.has(base_index as int, base_term)));
                assert(lacks(post.log, leader.log, base_index as int));
            }
        },
        _ => {},
    }
}

/// The entries that a leader sends from an index that its log reaches
/// are a part of what the leader of its term holds.
proof fn lemma_cut_reign(log: LogView, next: u64, term: u64, won: Seq<EntryView>)
    requires
        log.well_formed(),
        1 <= next <= log.entries.len() + 1,
        won.len() <= log.entries.len(),
        forall|k: int| 0 <= k < won.len() ==> #[trigger] log.entries[k] == won[k],
        forall|k: int| won.len() <= k < log.entries.len() ==> (#[trigger] log.entries[k]).term == term,
    ensures
        reign_window(cut(log, next), term, won),
{
    lemma_cut_window(log, next);
    let x = Chain::of_event(cut(log, next));
    assert forall|k: int| #![trigger x.holds(k)] x.holds(k) implies if k <= won.len() {
        x.at(k) == won[k - 1]
    } else {
        x.at(k).term == term
    } by {
        assert(x.at(k) == log.entries[k - 1]);
    }
    if x.base >= 1 {
        assert(x.base_term == log.entries[x.base - 1].term);
    }
}

/// The acknowledgements of a cluster stay true when one of its nodes
/// takes an input.
pub proof fn lemma_advance_trusted(c: Cluster, i: int, input: Input)
    requires
        c.trusted(),
        c.enabled(Action::Advance { node: i, input }),
    ensures
        c.apply(Action::Advance { node: i, input }).trusted(),
{
    let pre = c.nodes[i];
    let post = pre.advance(input)->Ok_0;
    let d = c.settle(i, post);
    assert(d == c.apply(Action::Advance { node: i, input }));
    lemma_advance_polled(c, i, input);
    assert forall|j: int| 0 <= j < d.nodes.len() implies #[trigger] d.knows(j) by {
        lemma_knows_after(c, i, input, j);
    }
    assert forall|m: MessageView, j: int|
        #![trigger d.sent.contains(m), d.nodes[j]]
        d.sent.contains(m) && 0 <= j < d.nodes.len() && d.nodes[j].role is Leader
            && d.nodes[j].term == m.term implies d.told(m, j) by {
        lemma_told_after(c, i, input, m, j);
    }
    assert forall|m: MessageView, j: int, f: int|
        #![trigger d.sent.contains(m), d.nodes[j], d.nodes[f]]
        d.sent.contains(m) && 0 <= j < d.nodes.len() && 0 <= f < d.nodes.len()
            && d.nodes[j].role is Leader && d.nodes[j].term == m.term implies d.heard(m, j, f) by {
        if c.sent.contains(m) {
            lemma_heard_still(c, i, input, m, j, f);
        } else {
            lemma_heard_anew(c, i, input, m, j, f);
        }
    }
    assert forall|m: MessageView| #[trigger]
        d.sent.contains(m) && m.event is ReplicateEntries implies m.to is Peer && reign_window(
        m.event,
        m.term,
        d.won_with[m.term],
    ) by {
        lemma_reign_after(c, i, input, m);
    }
}

/// The entries of a message are a part of what the leader of its term
/// holds, also after a node has taken an input.
proof fn lemma_reign_after(c: Cluster, i: int, input: Input, m: MessageView)
    requires
        c.trusted(),
        c.enabled(Action::Advance { node: i, input }),
        c.apply(Action::Advance { node: i, input }).sent.contains(m),
        m.event is ReplicateEntries,
    ensures
        m.to is Peer,
        reign_window(m.event, m.term, c.apply(Action::Advance { node: i, input }).won_with[m.term]),
{
    let pre = c.nodes[i];
    let post = pre.advance(input)->Ok_0;
    let d = c.settle(i, post);
    assert(d == c.apply(Action::Advance { node: i, input }));
    lemma_advance_polled(c, i, input);
    lemma_advance(pre, input);
    lemma_effects(pre, input);
    lemma_elects(pre, input);
    lemma_knows_after(c, i, input, i);
    assert(d.nodes[i] == cleared(post));
    if c.sent.contains(m) {
        assert(crate::cluster::lineage::of_a_reign(m));
        assert(c.won_with.contains_key(m.term));
        assert(d.won_with[m.term] == c.won_with[m.term]);
    } else {
        let k = choose|k: int|
            0 <= k < post.outbox.len() && m == stamped(#[trigger] post.outbox[k], post.id);
        assert(put_out_by(post.outbox[k], post));
        assert(answer(pre, input, post, post.outbox[k]));
        assert(m.event == post.outbox[k].event);
        let q = choose|q: int|
            #![trigger post.peers[q]]
            {
                &&& 0 <= q < post.peers.len()
                &&& post.outbox[k].to == AddressView::Peer(post.peers[q])
                &&& post.outbox[k].event == cut(post.log, post.role->Leader_next_index[q])
                &&& prompted(pre, input, post, post.peers[q])
            };
        assert(d.knows(i));
        assert(post.role->Leader_next_index[q] >= 1);
        assert(d.traced());
        assert(d.nodes[i].role is Leader);
        lemma_cut_reign(
            post.log,
            post.role->Leader_next_index[q],
            post.term,
            d.won_with[post.term],
        );
    }
}

/// The acknowledgements of a cluster stay true when one of its nodes
/// starts again from its log.
pub proof fn lemma_restart_trusted(c: Cluster, i: int, applied_index: u64, timeout: u64)
    requires
        c.trusted(),
        c.enabled(Action::Restart { node: i, applied_index, timeout }),
    ensures
        c.apply(Action::Restart { node: i, applied_index, timeout }).trusted(),
{
    let pre = c.nodes[i];
    let post = NodeView::start(pre.id, pre.peers, pre.log, applied_index, timeout)->Ok_0;
    let d = c.settle(i, post);
    assert(d == c.apply(Action::Restart { node: i, applied_index, timeout }));
    lemma_restart_polled(c, i, applied_index, timeout);
    assert(d.sent =~= c.sent) by {
        assert(Cluster::leaving(post) =~= Set::<MessageView>::empty());
    }
    assert(d.won_with == c.won_with);
    assert(d.nodes[i] == cleared(post));
    assert(d.nodes.len() == c.nodes.len());
    assert forall|j: int| 0 <= j < c.nodes.len() && j != i implies #[trigger] d.nodes[j]
        == c.nodes[j] by {}
    assert forall|j: int| 0 <= j < d.nodes.len() implies #[trigger] d.knows(j) by {
        assert(c.knows(j));
        if j != i {
            assert(d.nodes[j] == c.nodes[j]);
        }
    }
    assert forall|m: MessageView, j: int|
        #![trigger d.sent.contains(m), d.nodes[j]]
        d.sent.contains(m) && 0 <= j < d.nodes.len() && d.nodes[j].role is Leader
            && d.nodes[j].term == m.term implies d.told(m, j) by {
        assert(j != i);
        assert(d.nodes[j] == c.nodes[j]);
        assert(c.told(m, j));
    }
    assert forall|m: MessageView, j: int, f: int|
        #![trigger d.sent.contains(m), d.nodes[j], d.nodes[f]]
        d.sent.contains(m) && 0 <= j < d.nodes.len() && 0 <= f < d.nodes.len()
            && d.nodes[j].role is Leader && d.nodes[j].term == m.term implies d.heard(m, j, f) by {
        assert(j != i);
        assert(d.nodes[j] == c.nodes[j]);
        assert(c.heard(m, j, f));
        if f != i {
            assert(d.nodes[f] == c.nodes[f]);
        } else {
            assert(d.nodes[f].log == c.nodes[f].log);
            assert(d.nodes[f].term == c.nodes[f].term);
            assert(d.nodes[f].id == c.nodes[f].id);
        }
    }
}

/// The acknowledgements of a cluster that has just been started are
/// true.
pub proof fn lemma_initial_trusted(c: Cluster)
    requires
        c.initial(),
    ensures
        c.trusted(),
{
    lemma_initial_counted(c);
    assert forall|j: int| 0 <= j < c.nodes.len() implies #[trigger] c.knows(j) by {}
}

} // verus!
