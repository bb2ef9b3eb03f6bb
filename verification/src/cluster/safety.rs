//! State-machine safety, proved on the cluster: what two nodes have
//! committed at an index is the same entry.

use crate::cluster::{Action, cleared, Cluster, lemma_tallies_meet};
use crate::cluster::acks::{
    lemma_advance_trusted,
    lemma_initial_trusted,
    lemma_restart_trusted,
    reign_window,
};
use crate::cluster::lineage::in_line;
use crate::cluster::matching::{agree, Chain, lemma_agree_prefix};
use crate::cluster::ordering::rising;
use crate::cluster::tally::{last_term_of, outdoes};
use crate::log::log::{EntryView, LogView};
use crate::message::{EventView, MessageView};
use crate::node::effects::{adopts, answer, leads, lemma_effects, votes};
use crate::node::election::lemma_elects;
use crate::node::laws::{Input, keeps_committed, lemma_advance, lemma_agreeing_bounds};
use crate::node::model::{accepts, agreeing, NodeView, quorum, reached, splice};
use crate::node::replication::lemma_writes;
use crate::transport::stamped;
use vstd::prelude::*;

verus! {

/// Whether the entries hold an entry of `term` at `index`.
pub open spec fn on(entries: Seq<EntryView>, index: nat, term: u64) -> bool {
    1 <= index <= entries.len() && entries[index - 1].term == term
}

impl Cluster {
    /// Whether every leader of a term after `term`, up to the term `upto`,
    /// was elected with a log that holds an entry of `term` at `index`.
    pub open spec fn path(self, term: u64, upto: int, index: nat) -> bool {
        forall|t: u64| #[trigger]
            self.won_with.contains_key(t) && term < t <= upto ==> on(self.won_with[t], index, term)
    }

    /// Whether a quorum of the cluster has held an entry of `term` at
    /// `index`, each node in that term.
    pub open spec fn kept(self, index: nat, term: u64) -> bool {
        exists|tally: Seq<Seq<char>>|
            #![trigger tally.no_duplicates()]
            {
                &&& tally.no_duplicates()
                &&& tally.len() >= quorum((self.nodes.len() - 1) as nat)
                &&& forall|k: int|
                    #![trigger tally[k]]
                    0 <= k < tally.len() ==> self.held.contains((tally[k], term, index))
            }
    }

    /// What holds of what is held and committed in every cluster that was
    /// started and left to run.
    pub open spec fn settled(self) -> bool {
        &&& forall|t: u64| #[trigger] self.won_with.contains_key(t) ==> t >= 1
        &&& forall|j: int|
            0 <= j < self.nodes.len() && !((#[trigger] self.nodes[j]).role is Follower)
                ==> self.nodes[j].term >= 1
        &&& forall|w: Seq<char>, t: u64| #[trigger]
            self.open_ballots.contains((w, t)) ==> self.ballots.contains_key((w, t))
        &&& forall|w: Seq<char>, t: u64, n: nat| #[trigger]
            self.held.contains((w, t, n)) ==> {
                &&& n >= 1
                &&& self.won_with.contains_key(t)
                &&& n > self.won_with[t].len()
                &&& self.ids().contains(w)
            }
        &&& forall|w: Seq<char>, t: u64, n: nat, j: int|
            #![trigger self.held.contains((w, t, n)), self.nodes[j]]
            self.held.contains((w, t, n)) && 0 <= j < self.nodes.len() && self.nodes[j].id == w
                ==> {
                &&& self.nodes[j].term >= t
                &&& self.path(t, self.nodes[j].term as int, n) ==> on(
                    self.nodes[j].log.entries,
                    n,
                    t,
                )
            }
        &&& forall|w: Seq<char>, t: u64, n: nat, u: u64|
            #![trigger self.held.contains((w, t, n)), self.open_ballots.contains((w, u))]
            self.held.contains((w, t, n)) && self.open_ballots.contains((w, u)) && u > t
                && self.path(t, u - 1, n) ==> {
                &&& self.ballot_logs[(w, u)].1 >= t
                &&& self.ballot_logs[(w, u)].1 == t ==> self.ballot_logs[(w, u)].0 >= n
            }
        &&& forall|n: nat, t: u64| #[trigger]
            self.committed.contains((n, t)) ==> {
                &&& n >= 1
                &&& self.won_with.contains_key(t)
                &&& n > self.won_with[t].len()
                &&& self.kept(n, t)
            }
        &&& forall|j: int|
            0 <= j < self.nodes.len() && (#[trigger] self.nodes[j]).log.commit_index >= 1
                ==> self.committed.contains(
                (self.nodes[j].log.commit_index, self.nodes[j].log.commit_term()),
            )
        &&& forall|m: MessageView| #[trigger]
            self.sent.contains(m) && m.event is Heartbeat && m.event->Heartbeat_commit_index >= 1
                ==> self.committed.contains(
                (m.event->Heartbeat_commit_index as nat, m.event->Heartbeat_commit_term),
            )
    }

    /// Whether the acknowledgements of the cluster are true and what is
    /// held and committed in it is settled.
    pub open spec fn steady(self) -> bool {
        self.trusted() && self.settled()
    }
}

/// Along a log whose terms rise, the term at an index is no later than
/// the term at a later index.
proof fn lemma_rise(entries: Seq<EntryView>, i: int, j: int)
    requires
        rising(Chain::of_entries(entries)),
        1 <= i <= j <= entries.len(),
    ensures
        entries[i - 1].term <= entries[j - 1].term,
    decreases j - i,
{
    let x = Chain::of_entries(entries);
    if i < j {
        lemma_rise(entries, i, j - 1);
        assert(x.holds(j));
        assert(x.before(j) == entries[j - 2].term);
    }
}

/// Leader completeness. The leader of every term after one in which an
/// entry was committed was elected with a log that holds the entry.
pub proof fn lemma_leader_complete(c: Cluster, n: nat, t: u64, u: u64)
    requires
        c.steady(),
        c.committed.contains((n, t)),
        c.won_with.contains_key(u),
        u > t,
    ensures
        on(c.won_with[u], n, t),
    decreases u - t,
{
    let won = c.won_with[u];
    assert forall|v: u64| #[trigger] c.won_with.contains_key(v) && t < v <= u - 1 implies on(
        c.won_with[v],
        n,
        t,
    ) by {
        lemma_leader_complete(c, n, t, v);
    }
    assert(c.path(t, u - 1, n));
    let keepers = choose|tally: Seq<Seq<char>>|
        #![trigger tally.no_duplicates()]
        {
            &&& tally.no_duplicates()
            &&& tally.len() >= quorum((c.nodes.len() - 1) as nat)
            &&& forall|k: int|
                #![trigger tally[k]]
                0 <= k < tally.len() ==> c.held.contains((tally[k], t, n))
        };
    assert(c.kept(n, t));
    let l = choose|l: Seq<char>| #[trigger] c.elected.contains((u, l));
    assert(c.chosen(u, l, won));
    let voters = choose|tally: Seq<Seq<char>>|
        #![trigger tally.no_duplicates()]
        {
            &&& tally.no_duplicates()
            &&& tally.len() >= quorum((c.nodes.len() - 1) as nat)
            &&& c.backed_by(tally, u, l, won)
        };
    assert forall|k: int| 0 <= k < keepers.len() implies c.ids().contains(
        #[trigger] keepers[k],
    ) by {
        assert(c.held.contains((keepers[k], t, n)));
    }
    assert forall|k: int| 0 <= k < voters.len() implies c.ids().contains(#[trigger] voters[k]) by {
        assert(c.voted(voters[k], u, l));
    }
    if c.nodes.len() == 0 {
        assert(c.ids().contains(keepers[0]));
        assert(c.ids().len() == 0);
        let k = choose|k: int| 0 <= k < c.ids().len() && c.ids()[k] == keepers[0];
    }
    lemma_tallies_meet(c.ids(), keepers, voters);
    let (a, b) = choose|a: int, b: int|
        0 <= a < keepers.len() && 0 <= b < voters.len() && keepers[a] == voters[b];
    let w = keepers[a];
    assert(c.held.contains((w, t, n)));
    assert(w == voters[b]);
    assert(c.voted(voters[b], u, l));
    assert(c.open_ballots.contains((w, u)));
    let ballot = c.ballot_logs[(w, u)];
    assert(outdoes(won.len(), last_term_of(won), ballot));
    assert(ballot.1 >= t && (ballot.1 == t ==> ballot.0 >= n));
    let top = last_term_of(won);
    assert(t >= 1);
    assert(top >= t);
    assert(won.len() >= 1);
    let x = Chain::of_entries(won);
    assert(c.chain(x));
    assert(x.holds(won.len() as int));
    assert(x.at(won.len() as int).term == top);
    if top == t {
        assert(won.len() >= n);
        assert(in_line(x, t, c.won_with[t]));
        assert(x.holds(n as int));
    } else {
        assert(won[won.len() - 1].term < u);
        assert(c.backed(x));
        let m = choose|m: Seq<char>| #[trigger] c.elected.contains((top, m));
        assert(c.won_with.contains_key(top));
        lemma_leader_complete(c, n, t, top);
        assert(in_line(x, top, c.won_with[top]));
        assert(x.holds(n as int));
    }
}

/// What two nodes of a steady cluster have committed at an index is the
/// same entry.
pub proof fn lemma_commits_agree(c: Cluster, a: int, b: int, i: int)
    requires
        c.steady(),
        0 <= a < c.nodes.len(),
        0 <= b < c.nodes.len(),
        1 <= i <= c.nodes[a].log.commit_index,
        c.nodes[a].log.commit_index <= c.nodes[b].log.commit_index,
    ensures
        c.nodes[a].log.entries[i - 1] == c.nodes[b].log.entries[i - 1],
{
    let la = c.nodes[a].log;
    let lb = c.nodes[b].log;
    let ka = la.commit_index;
    let kb = lb.commit_index;
    let ta = la.commit_term();
    let tb = lb.commit_term();
    assert(c.committed.contains((ka, ta)));
    assert(c.committed.contains((kb, tb)));
    let x = Chain::of_log(la);
    let y = Chain::of_log(lb);
    assert(c.chain(x));
    assert(c.chain(y));
    assert(y.holds(kb as int) && y.at(kb as int).term == tb);
    assert(x.holds(ka as int) && x.at(ka as int).term == ta);
    assert(y.holds(ka as int));
    if tb == ta {
        assert(in_line(y, tb, c.won_with[tb]));
    } else if tb > ta {
        lemma_leader_complete(c, ka, ta, tb);
        assert(in_line(y, tb, c.won_with[tb]));
    } else {
        lemma_leader_complete(c, kb, tb, ta);
    }
    assert(y.at(ka as int).term == ta);
    assert(agree(x, y));
    lemma_agree_prefix(la, lb, ka as int, i);
}

/// The positions of the peers that have reached an index, in ascending
/// order: as many as have reached it.
proof fn lemma_reached_positions(match_index: Seq<u64>, index: nat) -> (at: Seq<int>)
    ensures
        at.len() == reached(match_index, index),
        forall|k: int|
            0 <= k < at.len() ==> 0 <= (#[trigger] at[k]) < match_index.len()
                && match_index[at[k]] >= index,
        forall|a: int, b: int| 0 <= a < b < at.len() ==> (#[trigger] at[a]) < (#[trigger] at[b]),
    decreases match_index.len(),
{
    if match_index.len() == 0 {
        Seq::empty()
    } else {
        let rest = lemma_reached_positions(match_index.drop_last(), index);
        assert forall|k: int| 0 <= k < rest.len() implies 0 <= (#[trigger] rest[k])
            < match_index.len() - 1 && match_index[rest[k]] >= index by {
            assert(match_index.drop_last()[rest[k]] == match_index[rest[k]]);
        }
        if match_index.last() >= index {
            rest.push(match_index.len() - 1)
        } else {
            rest
        }
    }
}

/// A log that holds an entry of a term, taken in the term's line, keeps
/// the entry when it takes entries of a leader whose log holds it, or of
/// the leader of the term itself.
proof fn lemma_keeps_on(
    p: LogView,
    after: Seq<EntryView>,
    event: EventView,
    sent_in: u64,
    won: Seq<EntryView>,
    n: nat,
    t: u64,
    line: Seq<EntryView>,
)
    requires
        p.well_formed(),
        event is ReplicateEntries,
        accepts(
            p,
            event->ReplicateEntries_base_index,
            event->ReplicateEntries_base_term,
            event->ReplicateEntries_entries,
        ),
        splice(p, event->ReplicateEntries_base_index, event->ReplicateEntries_entries) is Ok,
        after == splice(
            p,
            event->ReplicateEntries_base_index,
            event->ReplicateEntries_entries,
        )->Ok_0.entries,
        reign_window(event, sent_in, won),
        on(p.entries, n, t),
        sent_in > t ==> on(won, n, t),
        sent_in == t ==> won == line,
        sent_in >= t,
        n > line.len(),
        in_line(Chain::of_log(p), t, line),
    ensures
        on(after, n, t),
{
    let base_index = event->ReplicateEntries_base_index;
    let entries = event->ReplicateEntries_entries;
    let x = Chain::of_event(event);
    let y = Chain::of_log(p);
    lemma_agreeing_bounds(p, base_index, entries);
    let agreed = agreeing(p, base_index, entries);
    let keep = base_index + agreed;
    if agreed != entries.len() {
        assert(after == p.entries.take(keep) + entries.subrange(
            agreed as int,
            entries.len() as int,
        ));
        if n > keep {
            if sent_in > t {
                assert(x.holds(n as int));
                assert(after[n - 1] == entries[n - base_index - 1]);
            } else {
                // The entry after those agreed on would be the same.
                crate::cluster::acks::lemma_first_differs(p, base_index, entries);
                assert(y.holds(n as int) && y.at(n as int).term == t);
                assert(y.holds(keep + 1));
                assert(x.holds(keep + 1));
                assert(x.at(keep + 1) == entries[agreed as int]);
                if keep + 1 <= won.len() {
                    assert(y.at(keep + 1) == line[keep]);
                } else {
                    assert(y.at(keep + 1).term == t);
                }
            }
        } else {
            assert(after[n - 1] == p.entries[n - 1]);
        }
    }
}

/// What the record of a cluster holds after a node has taken an input.
proof fn lemma_record_after(c: Cluster, i: int, input: Input)
    requires
        c.steady(),
        c.enabled(Action::Advance { node: i, input }),
    ensures
        c.apply(Action::Advance { node: i, input }).trusted(),
        forall|t: u64| #[trigger]
            c.won_with.contains_key(t) ==> c.apply(
                Action::Advance { node: i, input },
            ).won_with.contains_key(t) && c.apply(Action::Advance { node: i, input }).won_with[t]
                == c.won_with[t],
        forall|t: u64| #[trigger]
            c.apply(Action::Advance { node: i, input }).won_with.contains_key(t)
                && !c.won_with.contains_key(t) ==> t == c.nodes[i].advance(input)->Ok_0.term
                && c.nodes[i].advance(input)->Ok_0.role is Leader && c.nodes[i].role is Candidate
                && c.nodes[i].term == t,
        forall|h: (Seq<char>, u64, nat)| #[trigger]
            c.apply(Action::Advance { node: i, input }).held.contains(h) <==> c.held.contains(h)
                || Cluster::holding(c.nodes[i].advance(input)->Ok_0).contains(h),
        forall|t: u64, upto: int, n: nat|
            c.apply(Action::Advance { node: i, input }).path(t, upto, n) ==> #[trigger] c.path(
                t,
                upto,
                n,
            ),
        forall|n: nat, t: u64|
            c.kept(n, t) ==> #[trigger] c.apply(Action::Advance { node: i, input }).kept(n, t),
{
    let pre = c.nodes[i];
    let post = pre.advance(input)->Ok_0;
    let d = c.settle(i, post);
    assert(d == c.apply(Action::Advance { node: i, input }));
    lemma_advance_trusted(c, i, input);
    lemma_advance(pre, input);
    lemma_elects(pre, input);
    if post.role is Leader && !c.won_with.contains_key(post.term) {
        if pre.role is Leader && post.term == pre.term {
            assert(c.won_with.contains_key(pre.term));
        }
        crate::cluster::lineage::lemma_first_to_lead(c, i, input);
    }
    assert forall|t: u64, upto: int, n: nat| d.path(t, upto, n) implies #[trigger] c.path(
        t,
        upto,
        n,
    ) by {
        assert forall|v: u64| #[trigger] c.won_with.contains_key(v) && t < v <= upto implies on(
            c.won_with[v],
            n,
            t,
        ) by {
            assert(d.won_with.contains_key(v));
        }
    }
    assert forall|n: nat, t: u64| c.kept(n, t) implies #[trigger] d.kept(n, t) by {
        let tally = choose|tally: Seq<Seq<char>>|
            #![trigger tally.no_duplicates()]
            {
                &&& tally.no_duplicates()
                &&& tally.len() >= quorum((c.nodes.len() - 1) as nat)
                &&& forall|k: int|
                    #![trigger tally[k]]
                    0 <= k < tally.len() ==> c.held.contains((tally[k], t, n))
            };
        assert(tally.no_duplicates());
        assert forall|k: int| #![trigger tally[k]] 0 <= k < tally.len() implies d.held.contains(
            (tally[k], t, n),
        ) by {
            assert(c.held.contains((tally[k], t, n)));
        }
    }
}

/// What is held in a cluster is held after the log that the leader of
/// its term was elected with, also after a node has taken an input.
proof fn lemma_held_after(c: Cluster, i: int, input: Input, w: Seq<char>, t: u64, n: nat)
    requires
        c.steady(),
        c.enabled(Action::Advance { node: i, input }),
        c.apply(Action::Advance { node: i, input }).held.contains((w, t, n)),
    ensures
        n >= 1,
        c.apply(Action::Advance { node: i, input }).won_with.contains_key(t),
        n > c.apply(Action::Advance { node: i, input }).won_with[t].len(),
        c.apply(Action::Advance { node: i, input }).ids().contains(w),
{
    let pre = c.nodes[i];
    let post = pre.advance(input)->Ok_0;
    let d = c.settle(i, post);
    assert(d == c.apply(Action::Advance { node: i, input }));
    lemma_record_after(c, i, input);
    assert(d.ids() =~= c.ids()) by {
        lemma_advance(pre, input);
        assert(d.nodes[i] == cleared(post));
    }
    if c.held.contains((w, t, n)) {
    } else {
        assert(Cluster::holding(post).contains((w, t, n)));
        assert(d.nodes[i] == cleared(post));
        let p = Chain::of_log(post.log);
        assert(d.chain(p)) by {
            assert(p == Chain::of_log(d.nodes[i].log));
        }
        assert(p.holds(n as int) && p.at(n as int).term == t);
        assert(d.backed(p));
        let l = choose|l: Seq<char>| #[trigger] d.elected.contains((t, l));
        assert(d.won_with.contains_key(t));
        assert(in_line(p, t, d.won_with[t]));
        assert(d.ids()[i] == post.id);
    }
}

/// A node that has held an entry holds it as long as every leader whose
/// entries it may have taken was elected with a log that holds the entry:
/// so it is after a node has taken an input.
proof fn lemma_now_after(
    c: Cluster,
    i: int,
    input: Input,
    w: Seq<char>,
    t: u64,
    n: nat,
    j: int,
)
    requires
        c.steady(),
        c.enabled(Action::Advance { node: i, input }),
        c.apply(Action::Advance { node: i, input }).held.contains((w, t, n)),
        0 <= j < c.nodes.len(),
        c.apply(Action::Advance { node: i, input }).nodes[j].id == w,
    ensures
        c.apply(Action::Advance { node: i, input }).nodes[j].term >= t,
        c.apply(Action::Advance { node: i, input }).path(
            t,
            c.apply(Action::Advance { node: i, input }).nodes[j].term as int,
            n,
        ) ==> on(c.apply(Action::Advance { node: i, input }).nodes[j].log.entries, n, t),
{
    let pre = c.nodes[i];
    let post = pre.advance(input)->Ok_0;
    let d = c.settle(i, post);
    assert(d == c.apply(Action::Advance { node: i, input }));
    lemma_record_after(c, i, input);
    lemma_advance(pre, input);
    lemma_writes(pre, input);
    lemma_effects(pre, input);
    assert(d.nodes[i] == cleared(post));
    if j != i {
        assert(d.nodes[j] == c.nodes[j]);
        assert(c.ids()[j] == c.nodes[j].id);
        assert(c.ids()[i] == pre.id);
        assert(c.held.contains((w, t, n)));
        if d.path(t, d.nodes[j].term as int, n) {
            assert(c.path(t, c.nodes[j].term as int, n));
        }
    } else if !c.held.contains((w, t, n)) {
        assert(Cluster::holding(post).contains((w, t, n)));
    } else {
        assert(c.nodes[i].term >= t);
        if d.path(t, post.term as int, n) {
            assert(c.path(t, post.term as int, n));
            assert(c.path(t, pre.term as int, n)) by {
                assert forall|v: u64| #[trigger] c.won_with.contains_key(v) && t < v
                    <= pre.term implies on(c.won_with[v], n, t) by {}
            }
            assert(on(pre.log.entries, n, t));
            if post.log.entries == pre.log.entries {
            } else if pre.role is Leader && post.role is Leader && post.term == pre.term
                && post.log.entries.len() == pre.log.entries.len() + 1
                && post.log.entries.drop_last() == pre.log.entries {
                assert(post.log.entries.drop_last()[n - 1] == post.log.entries[n - 1]);
            } else {
                let msg = input->Receive_msg;
                assert(c.deliverable(i, msg));
                assert(c.sent.contains(msg));
                assert(msg.event is ReplicateEntries);
                assert(crate::cluster::lineage::of_a_reign(msg));
                assert(c.won_with.contains_key(msg.term));
                assert(reign_window(msg.event, msg.term, c.won_with[msg.term]));
                crate::cluster::acks::lemma_step_takes(pre, input);
                let old = Chain::of_log(pre.log);
                assert(c.chain(old));
                assert(c.won_with.contains_key(t));
                assert(in_line(old, t, c.won_with[t]));
                if msg.term > t {
                    assert(on(c.won_with[msg.term], n, t));
                }
                lemma_keeps_on(
                    pre.log,
                    post.log.entries,
                    msg.event,
                    msg.term,
                    c.won_with[msg.term],
                    n,
                    t,
                    c.won_with[t],
                );
            }
        }
    }
}

/// A node that has held an entry and votes in a later term, while that
/// term has no leader, votes with a log that holds the entry, as long as
/// every leader between was elected with a log that holds it: so it is
/// after a node has taken an input.
proof fn lemma_ballot_after(
    c: Cluster,
    i: int,
    input: Input,
    w: Seq<char>,
    t: u64,
    n: nat,
    u: u64,
)
    requires
        c.steady(),
        c.enabled(Action::Advance { node: i, input }),
        c.apply(Action::Advance { node: i, input }).held.contains((w, t, n)),
        c.apply(Action::Advance { node: i, input }).open_ballots.contains((w, u)),
        u > t,
        c.apply(Action::Advance { node: i, input }).path(t, u - 1, n),
    ensures
        c.apply(Action::Advance { node: i, input }).ballot_logs[(w, u)].1 >= t,
        c.apply(Action::Advance { node: i, input }).ballot_logs[(w, u)].1 == t ==> c.apply(
            Action::Advance { node: i, input },
        ).ballot_logs[(w, u)].0 >= n,
{
    let pre = c.nodes[i];
    let post = pre.advance(input)->Ok_0;
    let d = c.settle(i, post);
    assert(d == c.apply(Action::Advance { node: i, input }));
    lemma_record_after(c, i, input);
    lemma_advance(pre, input);
    lemma_effects(pre, input);
    lemma_elects(pre, input);
    assert(d.nodes[i] == cleared(post));
    assert(c.on_record(i));
    assert(c.ids()[i] == pre.id);
    assert(c.path(t, u - 1, n));
    if c.open_ballots.contains((w, u)) {
        assert(c.ballots.contains_key((w, u)));
        assert(c.ballot_logs.contains_key((w, u)));
        assert(d.ballot_logs[(w, u)] == c.ballot_logs[(w, u)]);
        if !c.held.contains((w, t, n)) {
            assert(Cluster::holding(post).contains((w, t, n)));
            assert(w == pre.id && t == post.term);
            assert(u > pre.term);
            assert(!c.ballots.contains_key((pre.id, u)));
        }
    } else {
        assert(w == post.id && u == post.term);
        assert(!c.won_with.contains_key(u));
        assert(post.voted_for() is Some && !c.ballots.contains_key((post.id, post.term)));
        assert(pre.voted_for() is None || post.term > pre.term);
        assert(votes(pre, input, post));
        assert(!(post.role is Leader));
        assert(!d.won_with.contains_key(u));
        assert(d.ballot_logs[(w, u)] == (post.log.last_index(), post.log.last_term()));
        assert(c.held.contains((w, t, n))) by {
            if !c.held.contains((w, t, n)) {
                assert(Cluster::holding(post).contains((w, t, n)));
            }
        }
        lemma_now_after(c, i, input, w, t, n, i);
        assert(d.path(t, u as int, n)) by {
            assert forall|v: u64| #[trigger] d.won_with.contains_key(v) && t < v <= u implies on(
                d.won_with[v],
                n,
                t,
            ) by {}
        }
        assert(on(post.log.entries, n, t));
        let p = Chain::of_log(post.log);
        assert(d.ordered());
        assert(rising(Chain::of_log(d.nodes[i].log)));
        assert(Chain::of_log(d.nodes[i].log) == Chain::of_entries(post.log.entries));
        lemma_rise(post.log.entries, n as int, post.log.entries.len() as int);
    }
}

/// What a node has committed was held by a quorum, each node in the term
/// of the entry: so it is after a node has taken an input.
proof fn lemma_committed_after(c: Cluster, i: int, input: Input, n: nat, t: u64)
    requires
        c.steady(),
        c.enabled(Action::Advance { node: i, input }),
        c.apply(Action::Advance { node: i, input }).committed.contains((n, t)),
    ensures
        n >= 1,
        c.apply(Action::Advance { node: i, input }).won_with.contains_key(t),
        n > c.apply(Action::Advance { node: i, input }).won_with[t].len(),
        c.apply(Action::Advance { node: i, input }).kept(n, t),
{
    let pre = c.nodes[i];
    let post = pre.advance(input)->Ok_0;
    let d = c.settle(i, post);
    assert(d == c.apply(Action::Advance { node: i, input }));
    lemma_record_after(c, i, input);
    lemma_advance(pre, input);
    lemma_writes(pre, input);
    lemma_effects(pre, input);
    lemma_elects(pre, input);
    assert(d.nodes[i] == cleared(post));
    assert(d.nodes.len() == c.nodes.len());
    if c.committed.contains((n, t)) {
        assert(c.kept(n, t));
    } else {
        assert(n == post.log.commit_index && t == post.log.commit_term() && n >= 1);
        if post.log.commit_index == pre.log.commit_index {
            assert(keeps_committed(pre.log, post.log));
            assert(pre.log.entries[n - 1] == post.log.entries[n - 1]);
            assert(c.committed.contains((pre.log.commit_index, pre.log.commit_term())));
        } else if post.role is Leader {
            assert(leads(pre, input, post));
            assert(pre.role is Leader && post.term == pre.term);
            assert(t == post.term);
            let match_index = post.role->Leader_match_index;
            let at = lemma_reached_positions(match_index, n);
            let tally = Seq::new(at.len(), |k: int| post.peers[at[k]]).push(post.id);
            assert(d.knows(i));
            assert(d.configured());
            assert(post.peers.no_duplicates());
            assert forall|a: int, b: int| 0 <= a < tally.len() && 0 <= b < tally.len() && a
                != b implies tally[a] != tally[b] by {
                if a < at.len() && b < at.len() {
                    if a < b {
                        assert(at[a] < at[b]);
                    } else {
                        assert(at[b] < at[a]);
                    }
                } else if a < at.len() {
                    assert(d.ids().contains(post.peers[at[a]]) && post.peers[at[a]] != post.id);
                } else {
                    assert(d.ids().contains(post.peers[at[b]]) && post.peers[at[b]] != post.id);
                }
            }
            assert(tally.no_duplicates());
            assert(post.peers.len() == d.nodes.len() - 1);
            assert(Cluster::holding(post).contains((post.id, t, n)));
            assert forall|k: int| #![trigger tally[k]] 0 <= k < tally.len() implies d.held.contains(
                (tally[k], t, n),
            ) by {
                if k < at.len() {
                    let q = at[k];
                    assert(tally[k] == post.peers[q]);
                    assert(match_index[q] >= n);
                }
            }
            assert(d.kept(n, t));
            let p = Chain::of_log(post.log);
            assert(d.chain(p)) by {
                assert(p == Chain::of_log(d.nodes[i].log));
            }
            assert(d.won_with.contains_key(t));
            assert(p.holds(n as int) && p.at(n as int).term == t);
            assert(in_line(p, t, d.won_with[t]));
        } else {
            assert(adopts(pre, input, post));
            let msg = input->Receive_msg;
            assert(c.deliverable(i, msg));
            assert(c.sent.contains(msg));
            assert(c.committed.contains((n, t)));
        }
    }
}

/// What is held and committed in a steady cluster stays settled when one
/// of its nodes takes an input.
pub proof fn lemma_advance_steady(c: Cluster, i: int, input: Input)
    requires
        c.steady(),
        c.enabled(Action::Advance { node: i, input }),
    ensures
        c.apply(Action::Advance { node: i, input }).steady(),
{
    let pre = c.nodes[i];
    let post = pre.advance(input)->Ok_0;
    let d = c.settle(i, post);
    assert(d == c.apply(Action::Advance { node: i, input }));
    lemma_record_after(c, i, input);
    lemma_advance(pre, input);
    lemma_effects(pre, input);
    lemma_elects(pre, input);
    assert(d.nodes[i] == cleared(post));
    assert(d.nodes.len() == c.nodes.len());
    assert forall|j: int| 0 <= j < c.nodes.len() && j != i implies #[trigger] d.nodes[j]
        == c.nodes[j] by {}
    assert forall|t: u64| #[trigger] d.won_with.contains_key(t) implies t >= 1 by {
        if !c.won_with.contains_key(t) {
            assert(pre.role is Candidate);
        }
    }
    assert forall|j: int|
        0 <= j < d.nodes.len() && !((#[trigger] d.nodes[j]).role
            is Follower) implies d.nodes[j].term >= 1 by {
        if j == i {
        }
    }
    assert forall|w: Seq<char>, t: u64| #[trigger]
        d.open_ballots.contains((w, t)) implies d.ballots.contains_key((w, t)) by {
        if c.open_ballots.contains((w, t)) {
            assert(c.ballots.contains_key((w, t)));
        }
    }
    assert forall|w: Seq<char>, t: u64, n: nat| #[trigger]
        d.held.contains((w, t, n)) implies {
        &&& n >= 1
        &&& d.won_with.contains_key(t)
        &&& n > d.won_with[t].len()
        &&& d.ids().contains(w)
    } by {
        lemma_held_after(c, i, input, w, t, n);
    }
    assert forall|w: Seq<char>, t: u64, n: nat, j: int|
        #![trigger d.held.contains((w, t, n)), d.nodes[j]]
        d.held.contains((w, t, n)) && 0 <= j < d.nodes.len() && d.nodes[j].id == w implies {
        &&& d.nodes[j].term >= t
        &&& d.path(t, d.nodes[j].term as int, n) ==> on(d.nodes[j].log.entries, n, t)
    } by {
        lemma_now_after(c, i, input, w, t, n, j);
    }
    assert forall|w: Seq<char>, t: u64, n: nat, u: u64|
        #![trigger d.held.contains((w, t, n)), d.open_ballots.contains((w, u))]
        d.held.contains((w, t, n)) && d.open_ballots.contains((w, u)) && u > t && d.path(
            t,
            u - 1,
            n,
        ) implies {
        &&& d.ballot_logs[(w, u)].1 >= t
        &&& d.ballot_logs[(w, u)].1 == t ==> d.ballot_logs[(w, u)].0 >= n
    } by {
        lemma_ballot_after(c, i, input, w, t, n, u);
    }
    assert forall|n: nat, t: u64| #[trigger] d.committed.contains((n, t)) implies {
        &&& n >= 1
        &&& d.won_with.contains_key(t)
        &&& n > d.won_with[t].len()
        &&& d.kept(n, t)
    } by {
        lemma_committed_after(c, i, input, n, t);
    }
    assert forall|j: int|
        0 <= j < d.nodes.len() && (#[trigger] d.nodes[j]).log.commit_index
            >= 1 implies d.committed.contains(
        (d.nodes[j].log.commit_index, d.nodes[j].log.commit_term()),
    ) by {
        if j != i {
            assert(d.nodes[j] == c.nodes[j]);
        }
    }
    assert forall|m: MessageView| #[trigger]
        d.sent.contains(m) && m.event is Heartbeat && m.event->Heartbeat_commit_index
            >= 1 implies d.committed.contains(
        (m.event->Heartbeat_commit_index as nat, m.event->Heartbeat_commit_term),
    ) by {
        if !c.sent.contains(m) {
            let k = choose|k: int|
                0 <= k < post.outbox.len() && m == stamped(#[trigger] post.outbox[k], post.id);
            assert(answer(pre, input, post, post.outbox[k]));
            assert(m.event == post.outbox[k].event);
        }
    }
}

/// What is held and committed in a steady cluster stays settled when one
/// of its nodes starts again from its log.
pub proof fn lemma_restart_steady(c: Cluster, i: int, applied_index: u64, timeout: u64)
    requires
        c.steady(),
        c.enabled(Action::Restart { node: i, applied_index, timeout }),
    ensures
        c.apply(Action::Restart { node: i, applied_index, timeout }).steady(),
{
    let pre = c.nodes[i];
    let post = NodeView::start(pre.id, pre.peers, pre.log, applied_index, timeout)->Ok_0;
    let d = c.settle(i, post);
    assert(d == c.apply(Action::Restart { node: i, applied_index, timeout }));
    lemma_restart_trusted(c, i, applied_index, timeout);
    assert(d.sent =~= c.sent) by {
        assert(Cluster::leaving(post) =~= Set::<MessageView>::empty());
    }
    assert(c.on_record(i));
    assert(post.voted_for() == pre.voted_for());
    assert(d.ballots =~= c.ballots);
    assert(d.won_with == c.won_with);
    assert(d.ballot_logs == c.ballot_logs);
    assert(d.open_ballots == c.open_ballots);
    assert(d.nodes[i] == cleared(post));
    assert(d.nodes.len() == c.nodes.len());
    assert(d.ids() =~= c.ids());
    assert forall|j: int| 0 <= j < c.nodes.len() && j != i implies #[trigger] d.nodes[j]
        == c.nodes[j] by {}
    assert(c.ids()[i] == pre.id);
    assert forall|t: u64, upto: int, n: nat| d.path(t, upto, n) == #[trigger] c.path(
        t,
        upto,
        n,
    ) by {}
    let p = Chain::of_log(pre.log);
    assert(c.chain(p));
    assert forall|h: (Seq<char>, u64, nat)| #[trigger]
        Cluster::holding(post).contains(h) implies {
        &&& h.2 >= 1
        &&& c.won_with.contains_key(h.1)
        &&& h.2 > c.won_with[h.1].len()
        &&& on(pre.log.entries, h.2, h.1)
    } by {
        assert(p.holds(h.2 as int) && p.at(h.2 as int).term == h.1);
        assert(c.backed(p));
        let l = choose|l: Seq<char>| #[trigger] c.elected.contains((h.1, l));
        assert(in_line(p, h.1, c.won_with[h.1]));
    }
    assert forall|w: Seq<char>, t: u64, n: nat| #[trigger]
        d.held.contains((w, t, n)) implies {
        &&& n >= 1
        &&& d.won_with.contains_key(t)
        &&& n > d.won_with[t].len()
        &&& d.ids().contains(w)
    } by {
        if !c.held.contains((w, t, n)) {
            assert(Cluster::holding(post).contains((w, t, n)));
        }
    }
    assert forall|w: Seq<char>, t: u64, n: nat, j: int|
        #![trigger d.held.contains((w, t, n)), d.nodes[j]]
        d.held.contains((w, t, n)) && 0 <= j < d.nodes.len() && d.nodes[j].id == w implies {
        &&& d.nodes[j].term >= t
        &&& d.path(t, d.nodes[j].term as int, n) ==> on(d.nodes[j].log.entries, n, t)
    } by {
        assert(c.ids()[j] == c.nodes[j].id);
        if c.held.contains((w, t, n)) {
            assert(c.nodes[j].id == w);
            if j != i {
                assert(d.nodes[j] == c.nodes[j]);
            }
        } else {
            assert(Cluster::holding(post).contains((w, t, n)));
            assert(j == i);
        }
    }
    assert forall|w: Seq<char>, t: u64, n: nat, u: u64|
        #![trigger d.held.contains((w, t, n)), d.open_ballots.contains((w, u))]
        d.held.contains((w, t, n)) && d.open_ballots.contains((w, u)) && u > t && d.path(
            t,
            u - 1,
            n,
        ) implies {
        &&& d.ballot_logs[(w, u)].1 >= t
        &&& d.ballot_logs[(w, u)].1 == t ==> d.ballot_logs[(w, u)].0 >= n
    } by {
        if !c.held.contains((w, t, n)) {
            assert(Cluster::holding(post).contains((w, t, n)));
            assert(c.ballots.contains_key((w, u)));
        }
    }
    assert forall|n: nat, t: u64| #[trigger] d.committed.contains((n, t)) implies {
        &&& n >= 1
        &&& d.won_with.contains_key(t)
        &&& n > d.won_with[t].len()
        &&& d.kept(n, t)
    } by {
        assert(c.committed.contains((n, t)));
        let tally = choose|tally: Seq<Seq<char>>|
            #![trigger tally.no_duplicates()]
            {
                &&& tally.no_duplicates()
                &&& tally.len() >= quorum((c.nodes.len() - 1) as nat)
                &&& forall|k: int|
                    #![trigger tally[k]]
                    0 <= k < tally.len() ==> c.held.contains((tally[k], t, n))
            };
        assert(tally.no_duplicates());
        assert forall|k: int| #![trigger tally[k]] 0 <= k < tally.len() implies d.held.contains(
            (tally[k], t, n),
        ) by {
            assert(c.held.contains((tally[k], t, n)));
        }
    }
    assert forall|j: int|
        0 <= j < d.nodes.len() && (#[trigger] d.nodes[j]).log.commit_index
            >= 1 implies d.committed.contains(
        (d.nodes[j].log.commit_index, d.nodes[j].log.commit_term()),
    ) by {
        if j != i {
            assert(d.nodes[j] == c.nodes[j]);
        }
    }
}

/// A cluster that has just been started is steady.
pub proof fn lemma_initial_steady(c: Cluster)
    requires
        c.initial(),
    ensures
        c.steady(),
{
    lemma_initial_trusted(c);
}

/// A steady cluster stays steady whatever happens.
pub proof fn lemma_run_steady(c: Cluster, actions: Seq<Action>)
    requires
        c.steady(),
    ensures
        c.run(actions).steady(),
    decreases actions.len(),
{
    if actions.len() > 0 {
        let action = actions[0];
        if c.enabled(action) {
            match action {
                Action::Advance { node, input } => lemma_advance_steady(c, node, input),
                Action::Restart { node, applied_index, timeout } => lemma_restart_steady(
                    c,
                    node,
                    applied_index,
                    timeout,
                ),
            }
        }
        lemma_run_steady(c.apply(action), actions.drop_first());
    }
}

/// State-machine safety. Whatever happens in a cluster from when it is
/// started: what two nodes have committed at an index is the same entry,
/// so that two nodes that apply what they have committed, in log order,
/// apply the same command at every index.
pub proof fn law_state_machine_safety(start: Cluster, actions: Seq<Action>, a: int, b: int, i: int)
    requires
        start.initial(),
        0 <= a < start.run(actions).nodes.len(),
        0 <= b < start.run(actions).nodes.len(),
        1 <= i <= start.run(actions).nodes[a].log.commit_index,
        i <= start.run(actions).nodes[b].log.commit_index,
    ensures
        start.run(actions).nodes[a].log.get(i) == start.run(actions).nodes[b].log.get(i),
{
    lemma_initial_steady(start);
    lemma_run_steady(start, actions);
    let end = start.run(actions);
    assert(end.nodes[a].well_formed());
    assert(end.nodes[b].well_formed());
    if end.nodes[a].log.commit_index <= end.nodes[b].log.commit_index {
        lemma_commits_agree(end, a, b, i);
    } else {
        lemma_commits_agree(end, b, a, i);
    }
}

/// Two nodes apply the same commands. Whatever happens in a cluster from
/// when it is started: the instructions that apply what two nodes have
/// committed are the same at every index that both have committed.
pub proof fn law_applied_commands_agree(
    start: Cluster,
    actions: Seq<Action>,
    a: int,
    b: int,
    i: int,
)
    requires
        start.initial(),
        0 <= a < start.run(actions).nodes.len(),
        0 <= b < start.run(actions).nodes.len(),
        1 <= i <= start.run(actions).nodes[a].log.commit_index,
        i <= start.run(actions).nodes[b].log.commit_index,
    ensures
        crate::instruction::applications(
            start.run(actions).nodes[a].log,
            0,
            start.run(actions).nodes[a].log.commit_index,
        )[i - 1] == crate::instruction::applications(
            start.run(actions).nodes[b].log,
            0,
            start.run(actions).nodes[b].log.commit_index,
        )[i - 1],
{
    law_state_machine_safety(start, actions, a, b, i);
    lemma_initial_steady(start);
    lemma_run_steady(start, actions);
    let end = start.run(actions);
    assert(end.nodes[a].well_formed());
    assert(end.nodes[b].well_formed());
}

} // verus!
