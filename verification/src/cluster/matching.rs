//! Log matching, proved on the cluster: where the logs of two nodes hold
//! entries of the same term at an index, they hold the same entries up
//! to that index.

use crate::cluster::{
    Action,
    cleared,
    Cluster,
    lemma_advance_safe,
    lemma_initial_safe,
    lemma_one_leader,
    lemma_restart_safe,
};
use crate::error::RaftError;
use crate::log::log::{EntryView, LogView};
use crate::message::{EventView, MessageView};
use crate::node::election::lemma_elects;
use crate::node::laws::{Input, lemma_advance, lemma_agreeing_bounds};
use crate::node::model::{accepts, agreeing, NodeView, splice};
use crate::node::replication::{cut, lemma_writes};
use crate::transport::stamped;
use vstd::prelude::*;

verus! {

/// Entries in a row: those after the index `base`, with the term of the
/// entry at `base`. A log is the chain after index 0; a message that
/// replicates entries is the chain after its base.
pub struct Chain {
    pub base: nat,
    pub base_term: u64,
    pub entries: Seq<EntryView>,
}

impl Chain {
    /// The chain of a log.
    pub open spec fn of_log(log: LogView) -> Chain {
        Chain { base: 0, base_term: 0, entries: log.entries }
    }

    /// The chain of the entries of a log.
    pub open spec fn of_entries(entries: Seq<EntryView>) -> Chain {
        Chain { base: 0, base_term: 0, entries }
    }

    /// The chain of an event that replicates entries.
    pub open spec fn of_event(event: EventView) -> Chain {
        Chain {
            base: event->ReplicateEntries_base_index as nat,
            base_term: event->ReplicateEntries_base_term,
            entries: event->ReplicateEntries_entries,
        }
    }

    /// Whether the chain holds an entry at index `i`.
    pub open spec fn holds(self, i: int) -> bool {
        self.base < i <= self.base + self.entries.len()
    }

    /// The entry at index `i`.
    pub open spec fn at(self, i: int) -> EntryView {
        self.entries[i - self.base - 1]
    }

    /// The term of the entry before index `i`; 0 before index 1.
    pub open spec fn before(self, i: int) -> u64 {
        if i - 1 > self.base {
            self.entries[i - self.base - 2].term
        } else {
            self.base_term
        }
    }

    /// Whether a chain that starts the log has term 0 before it.
    pub open spec fn sound(self) -> bool {
        self.base == 0 ==> self.base_term == 0
    }
}

/// Whether two chains agree: where they hold entries of the same term at
/// an index, they hold the same entry there, after entries of the same
/// term.
pub open spec fn agree(a: Chain, b: Chain) -> bool {
    forall|i: int|
        #![trigger a.holds(i), b.holds(i)]
        a.holds(i) && b.holds(i) && a.at(i).term == b.at(i).term ==> a.at(i) == b.at(i)
            && a.before(i) == b.before(i)
}

/// Whether each entry of `n` stands in `a` or in `b` as it stands in `n`.
pub open spec fn from_either(n: Chain, a: Chain, b: Chain) -> bool {
    forall|i: int|
        #![trigger n.holds(i)]
        n.holds(i) ==> (a.holds(i) && n.at(i) == a.at(i) && n.before(i) == a.before(i)) || (
        b.holds(i) && n.at(i) == b.at(i) && n.before(i) == b.before(i))
}

/// Whether `leader`, the log of the leader of `term`, holds every entry of
/// `term` that `x` holds.
pub open spec fn covers(leader: Chain, term: u64, x: Chain) -> bool {
    forall|i: int|
        #![trigger x.holds(i)]
        x.holds(i) && x.at(i).term == term ==> leader.holds(i) && leader.at(i).term == term
}

impl Cluster {
    /// Whether `x` is a chain of the cluster: the log of a node, the
    /// entries of a message that has left a node, or the log that a leader
    /// was elected with.
    pub open spec fn chain(self, x: Chain) -> bool {
        ||| exists|i: int|
            0 <= i < self.nodes.len() && x == Chain::of_log((#[trigger] self.nodes[i]).log)
        ||| exists|m: MessageView| #[trigger]
            self.sent.contains(m) && m.event is ReplicateEntries && x == Chain::of_event(m.event)
        ||| exists|term: u64| #[trigger]
            self.won_with.contains_key(term) && x == Chain::of_entries(self.won_with[term])
    }

    /// Whether each entry of `x` is of a term that has had a leader.
    pub open spec fn backed(self, x: Chain) -> bool {
        forall|i: int|
            #![trigger x.holds(i)]
            x.holds(i) ==> exists|l: Seq<char>| #[trigger] self.elected.contains((x.at(i).term, l))
    }

    /// Whether the node that led `term` as `l` has not gone back behind
    /// the term, and does not stand for it again.
    pub open spec fn led(self, term: u64, l: Seq<char>) -> bool {
        exists|j: int|
            0 <= j < self.nodes.len() && (#[trigger] self.nodes[j]).id == l && self.nodes[j].term
                >= term && (self.nodes[j].term == term ==> !(self.nodes[j].role is Candidate))
    }

    /// What holds of the chains of every cluster that was started and
    /// left to run.
    pub open spec fn matched(self) -> bool {
        &&& forall|x: Chain, y: Chain|
            #![trigger self.chain(x), self.chain(y)]
            self.chain(x) && self.chain(y) ==> agree(x, y)
        &&& forall|x: Chain| #[trigger] self.chain(x) ==> x.sound() && self.backed(x)
        &&& forall|j: int, x: Chain|
            #![trigger self.nodes[j], self.chain(x)]
            0 <= j < self.nodes.len() && self.nodes[j].role is Leader && self.chain(x) ==> covers(
                Chain::of_log(self.nodes[j].log),
                self.nodes[j].term,
                x,
            )
        &&& forall|term: u64, l: Seq<char>| #[trigger]
            self.elected.contains((term, l)) ==> self.led(term, l)
    }

    /// Whether the cluster is safe and its chains are matched.
    pub open spec fn sound(self) -> bool {
        self.safe() && self.matched()
    }
}

/// A chain of entries that stand in two chains agrees with what both
/// agree with.
proof fn lemma_from_either(n: Chain, a: Chain, b: Chain, x: Chain)
    requires
        from_either(n, a, b),
        agree(a, x),
        agree(b, x),
    ensures
        agree(n, x),
        agree(x, n),
{
    assert forall|i: int|
        #![trigger n.holds(i), x.holds(i)]
        n.holds(i) && x.holds(i) && n.at(i).term == x.at(i).term implies n.at(i) == x.at(i)
        && n.before(i) == x.before(i) by {
        if a.holds(i) && n.at(i) == a.at(i) && n.before(i) == a.before(i) {
            assert(a.holds(i) && x.holds(i));
        } else {
            assert(b.holds(i) && x.holds(i));
        }
    }
    assert forall|i: int|
        #![trigger x.holds(i), n.holds(i)]
        n.holds(i) && x.holds(i) && n.at(i).term == x.at(i).term implies x.at(i) == n.at(i)
        && x.before(i) == n.before(i) by {
        if a.holds(i) && n.at(i) == a.at(i) && n.before(i) == a.before(i) {
            assert(a.holds(i) && x.holds(i));
        } else {
            assert(b.holds(i) && x.holds(i));
        }
    }
}

/// A chain of entries that stand in two chains which a leader's log
/// covers is covered by it.
proof fn lemma_covers_either(leader: Chain, term: u64, n: Chain, a: Chain, b: Chain)
    requires
        from_either(n, a, b),
        covers(leader, term, a),
        covers(leader, term, b),
    ensures
        covers(leader, term, n),
{
    assert forall|i: int| #![trigger n.holds(i)] n.holds(i) && n.at(i).term == term implies leader.holds(
        i,
    ) && leader.at(i).term == term by {
        if a.holds(i) && n.at(i) == a.at(i) {
            assert(a.holds(i));
        } else {
            assert(b.holds(i));
        }
    }
}

/// A cut of a log is a chain of entries that stand in the log.
pub proof fn lemma_cut_within(log: LogView, next: u64)
    requires
        log.well_formed(),
        next >= 1,
    ensures
        from_either(Chain::of_event(cut(log, next)), Chain::of_log(log), Chain::of_log(log)),
        Chain::of_event(cut(log, next)).sound(),
{
    let s = Chain::of_event(cut(log, next));
    let l = Chain::of_log(log);
    assert forall|i: int| #![trigger s.holds(i)] s.holds(i) implies l.holds(i) && s.at(i) == l.at(i)
        && s.before(i) == l.before(i) by {
        assert(s.entries.len() > 0);
        assert(next <= log.entries.len());
        assert(s.entries == log.entries.subrange(next - 1, log.entries.len() as int));
    }
}

/// The log that a follower has after it took the entries of a message is
/// a chain of entries that stand in its log of before or in the message.
pub proof fn lemma_splice_either(log: LogView, after: LogView, event: EventView)
    requires
        log.well_formed(),
        event is ReplicateEntries,
        Chain::of_event(event).sound(),
        accepts(
            log,
            event->ReplicateEntries_base_index,
            event->ReplicateEntries_base_term,
            event->ReplicateEntries_entries,
        ),
        splice(log, event->ReplicateEntries_base_index, event->ReplicateEntries_entries) == Ok::<
            LogView,
            RaftError,
        >(after),
    ensures
        from_either(Chain::of_log(after), Chain::of_log(log), Chain::of_event(event)),
{
    let base_index = event->ReplicateEntries_base_index;
    let entries = event->ReplicateEntries_entries;
    let n = Chain::of_log(after);
    let a = Chain::of_log(log);
    let b = Chain::of_event(event);
    lemma_agreeing_bounds(log, base_index, entries);
    let agreed = agreeing(log, base_index, entries);
    let keep = base_index + agreed;
    if agreed != entries.len() {
        assert(after.entries == log.entries.take(keep) + entries.subrange(
            agreed as int,
            entries.len() as int,
        ));
        assert forall|i: int| #![trigger n.holds(i)] n.holds(i) implies (a.holds(i) && n.at(i)
            == a.at(i) && n.before(i) == a.before(i)) || (b.holds(i) && n.at(i) == b.at(i)
            && n.before(i) == b.before(i)) by {
            if i <= keep {
                assert(n.at(i) == a.at(i));
            } else {
                assert(n.at(i) == entries[i - base_index - 1]);
                assert(b.holds(i));
                if i - 1 > keep {
                    assert(after.entries[i - 2] == entries[i - base_index - 2]);
                } else if agreed > 0 {
                    assert(log.entries[base_index + (agreed - 1)].term == entries[agreed
                        - 1].term);
                } else if base_index > 0 {
                    assert(log.has(base_index as int, b.base_term));
                } else {
                }
            }
        }
    }
}

/// Where two logs agree and hold entries of the same term at an index,
/// they hold the same entries up to that index.
pub proof fn lemma_agree_prefix(a: LogView, b: LogView, i: int, j: int)
    requires
        agree(Chain::of_log(a), Chain::of_log(b)),
        1 <= j <= i,
        i <= a.entries.len(),
        i <= b.entries.len(),
        a.entries[i - 1].term == b.entries[i - 1].term,
    ensures
        a.entries[j - 1] == b.entries[j - 1],
    decreases i,
{
    let x = Chain::of_log(a);
    let y = Chain::of_log(b);
    assert(x.holds(i) && y.holds(i));
    assert(x.at(i) == a.entries[i - 1]);
    assert(y.at(i) == b.entries[i - 1]);
    if j < i {
        assert(x.before(i) == a.entries[i - 2].term);
        assert(y.before(i) == b.entries[i - 2].term);
        lemma_agree_prefix(a, b, i - 1, j);
    }
}

/// What holds of the log that a node of a sound cluster has after an
/// input, before the cluster has taken note of it.
spec fn fits(c: Cluster, d: Cluster, i: int, p: Chain) -> bool {
    &&& agree(p, p)
    &&& p.sound()
    &&& d.backed(p)
    &&& forall|x: Chain| #[trigger] c.chain(x) ==> agree(p, x) && agree(x, p)
    &&& forall|j: int|
        0 <= j < c.nodes.len() && j != i && (#[trigger] c.nodes[j]).role is Leader ==> covers(
            Chain::of_log(c.nodes[j].log),
            c.nodes[j].term,
            p,
        )
}

/// Each entry of a chain that the cluster held has had a leader, also
/// after the cluster has taken note of what a node has become.
proof fn lemma_backed_stays(c: Cluster, i: int, post: NodeView, x: Chain)
    requires
        c.backed(x),
    ensures
        c.settle(i, post).backed(x),
{
    let d = c.settle(i, post);
    assert forall|k: int| #![trigger x.holds(k)] x.holds(k) implies exists|l: Seq<char>| #[trigger]
        d.elected.contains((x.at(k).term, l)) by {
        let l = choose|l: Seq<char>| #[trigger] c.elected.contains((x.at(k).term, l));
        assert(d.elected.contains((x.at(k).term, l)));
    }
}

/// The log that a node of a sound cluster has after an input fits the
/// cluster.
proof fn lemma_log_fits(c: Cluster, i: int, input: Input)
    requires
        c.sound(),
        c.enabled(Action::Advance { node: i, input }),
    ensures
        fits(
            c,
            c.apply(Action::Advance { node: i, input }),
            i,
            Chain::of_log(c.nodes[i].advance(input)->Ok_0.log),
        ),
{
    let pre = c.nodes[i];
    let post = pre.advance(input)->Ok_0;
    let d = c.settle(i, post);
    assert(d == c.apply(Action::Advance { node: i, input }));
    let p = Chain::of_log(post.log);
    let old = Chain::of_log(pre.log);
    lemma_advance(pre, input);
    lemma_writes(pre, input);
    assert(c.chain(old));
    assert(c.stands(i));
    assert(c.backed(old));
    lemma_backed_stays(c, i, post, old);
    if post.log.entries == pre.log.entries {
        assert(p == old);
        assert forall|j: int|
            0 <= j < c.nodes.len() && j != i && (#[trigger] c.nodes[j]).role
                is Leader implies covers(Chain::of_log(c.nodes[j].log), c.nodes[j].term, p) by {
            assert(c.chain(p));
        }
    } else if pre.role is Leader && post.role is Leader && post.term == pre.term
        && post.log.entries.len() == pre.log.entries.len() + 1 && post.log.entries.last().term
        == pre.term && post.log.entries.drop_last() == pre.log.entries {
        let n = pre.log.entries.len() as int;
        assert forall|k: int| #![trigger p.holds(k)] p.holds(k) && k <= n implies old.holds(k)
            && p.at(k) == old.at(k) && p.before(k) == old.before(k) by {
            assert(post.log.entries.drop_last()[k - 1] == post.log.entries[k - 1]);
            if k > 1 {
                assert(post.log.entries.drop_last()[k - 2] == post.log.entries[k - 2]);
            }
        }
        assert(c.elected.contains((pre.term, pre.id)));
        assert(d.elected.contains((pre.term, pre.id)));
        assert forall|k: int| #![trigger p.holds(k)] p.holds(k) implies exists|l: Seq<char>| #[trigger]
            d.elected.contains((p.at(k).term, l)) by {
            if k <= n {
                assert(old.holds(k));
                let l = choose|l: Seq<char>| #[trigger] d.elected.contains((old.at(k).term, l));
                assert(d.elected.contains((p.at(k).term, l)));
            } else {
                assert(p.at(k) == post.log.entries.last());
            }
        }
        assert forall|x: Chain| #[trigger] c.chain(x) implies agree(p, x) && agree(x, p) by {
            assert(agree(old, x) && agree(x, old));
            assert(covers(old, pre.term, x));
            assert forall|k: int|
                #![trigger p.holds(k), x.holds(k)]
                p.holds(k) && x.holds(k) && p.at(k).term == x.at(k).term implies p.at(k) == x.at(k)
                && p.before(k) == x.before(k) by {
                if k <= n {
                    assert(old.holds(k) && x.holds(k));
                } else {
                    assert(p.at(k) == post.log.entries.last());
                    assert(old.holds(k));
                }
            }
            assert forall|k: int|
                #![trigger x.holds(k), p.holds(k)]
                p.holds(k) && x.holds(k) && x.at(k).term == p.at(k).term implies x.at(k) == p.at(k)
                && x.before(k) == p.before(k) by {
                if k <= n {
                    assert(x.holds(k) && old.holds(k));
                } else {
                    assert(p.at(k) == post.log.entries.last());
                    assert(old.holds(k));
                }
            }
        }
        assert forall|j: int|
            0 <= j < c.nodes.len() && j != i && (#[trigger] c.nodes[j]).role
                is Leader implies covers(Chain::of_log(c.nodes[j].log), c.nodes[j].term, p) by {
            let leader = Chain::of_log(c.nodes[j].log);
            assert(covers(leader, c.nodes[j].term, old));
            assert(c.stands(j));
            if c.nodes[j].term == pre.term {
                lemma_one_leader(c, pre.term, c.nodes[j].id, pre.id);
                assert(c.ids()[j] == c.nodes[j].id);
                assert(c.ids()[i] == pre.id);
            }
            assert forall|k: int|
                #![trigger p.holds(k)]
                p.holds(k) && p.at(k).term == c.nodes[j].term implies leader.holds(k)
                && leader.at(k).term == c.nodes[j].term by {
                if k <= n {
                    assert(old.holds(k));
                } else {
                    assert(p.at(k) == post.log.entries.last());
                }
            }
        }
    } else {
        let msg = input->Receive_msg;
        assert(c.deliverable(i, msg));
        assert(c.sent.contains(msg));
        let m = Chain::of_event(msg.event);
        assert(c.chain(m));
        assert(m.sound());
        assert(c.backed(m));
        lemma_backed_stays(c, i, post, m);
        lemma_splice_either(pre.log, LogView { entries: post.log.entries, ..pre.log }, msg.event);
        assert(from_either(p, old, m));
        assert forall|k: int| #![trigger p.holds(k)] p.holds(k) implies exists|l: Seq<char>| #[trigger]
            d.elected.contains((p.at(k).term, l)) by {
            if old.holds(k) && p.at(k) == old.at(k) {
                let l = choose|l: Seq<char>| #[trigger] d.elected.contains((old.at(k).term, l));
                assert(d.elected.contains((p.at(k).term, l)));
            } else {
                assert(m.holds(k));
                let l = choose|l: Seq<char>| #[trigger] d.elected.contains((m.at(k).term, l));
                assert(d.elected.contains((p.at(k).term, l)));
            }
        }
        assert forall|x: Chain| #[trigger] c.chain(x) implies agree(p, x) && agree(x, p) by {
            lemma_from_either(p, old, m, x);
        }
        assert forall|j: int|
            0 <= j < c.nodes.len() && j != i && (#[trigger] c.nodes[j]).role
                is Leader implies covers(Chain::of_log(c.nodes[j].log), c.nodes[j].term, p) by {
            lemma_covers_either(Chain::of_log(c.nodes[j].log), c.nodes[j].term, p, old, m);
        }
    }
}

/// The chains of a cluster after a node has taken an input are those of
/// before, and chains of entries that stand in the node's log.
pub proof fn lemma_chains_after(c: Cluster, i: int, input: Input, y: Chain)
    requires
        c.sound(),
        c.enabled(Action::Advance { node: i, input }),
        c.apply(Action::Advance { node: i, input }).chain(y),
    ensures
        c.chain(y) || {
            let p = Chain::of_log(c.nodes[i].advance(input)->Ok_0.log);
            from_either(y, p, p) && y.sound()
        },
{
    let pre = c.nodes[i];
    let post = pre.advance(input)->Ok_0;
    let d = c.settle(i, post);
    assert(d == c.apply(Action::Advance { node: i, input }));
    let p = Chain::of_log(post.log);
    lemma_advance(pre, input);
    lemma_writes(pre, input);
    if exists|j: int| 0 <= j < d.nodes.len() && y == Chain::of_log((#[trigger] d.nodes[j]).log) {
        let j = choose|j: int|
            0 <= j < d.nodes.len() && y == Chain::of_log((#[trigger] d.nodes[j]).log);
        if j != i {
            assert(d.nodes[j] == c.nodes[j]);
        } else {
            assert(y == p);
        }
    } else if exists|m: MessageView| #[trigger]
        d.sent.contains(m) && m.event is ReplicateEntries && y == Chain::of_event(m.event) {
        let m = choose|m: MessageView| #[trigger]
            d.sent.contains(m) && m.event is ReplicateEntries && y == Chain::of_event(m.event);
        if !c.sent.contains(m) {
            let k = choose|k: int|
                0 <= k < post.outbox.len() && m == stamped(#[trigger] post.outbox[k], post.id);
            assert(post.outbox[k].event == m.event);
            let next = choose|next: u64|
                next >= 1 && post.outbox[k].event == #[trigger] cut(post.log, next);
            lemma_cut_within(post.log, next);
        }
    } else {
        let term = choose|term: u64| #[trigger]
            d.won_with.contains_key(term) && y == Chain::of_entries(d.won_with[term]);
        if c.won_with.contains_key(term) {
            assert(d.won_with[term] == c.won_with[term]);
        } else {
            assert(y == p);
        }
    }
}

/// A sound cluster stays sound when one of its nodes takes an input.
pub proof fn lemma_advance_sound(c: Cluster, i: int, input: Input)
    requires
        c.sound(),
        c.enabled(Action::Advance { node: i, input }),
    ensures
        c.apply(Action::Advance { node: i, input }).sound(),
{
    let pre = c.nodes[i];
    let post = pre.advance(input)->Ok_0;
    let d = c.settle(i, post);
    assert(d == c.apply(Action::Advance { node: i, input }));
    let p = Chain::of_log(post.log);
    let old = Chain::of_log(pre.log);
    lemma_advance_safe(c, i, input);
    lemma_advance(pre, input);
    lemma_elects(pre, input);
    lemma_writes(pre, input);
    lemma_log_fits(c, i, input);
    assert(c.chain(old));
    assert(d.nodes[i] == cleared(post));
    assert(d.nodes.len() == c.nodes.len());
    assert forall|j: int| 0 <= j < c.nodes.len() && j != i implies #[trigger] d.nodes[j]
        == c.nodes[j] by {}

    assert forall|x: Chain, y: Chain|
        #![trigger d.chain(x), d.chain(y)]
        d.chain(x) && d.chain(y) implies agree(x, y) by {
        lemma_chains_after(c, i, input, x);
        lemma_chains_after(c, i, input, y);
        if c.chain(x) && c.chain(y) {
        } else if c.chain(x) {
            lemma_from_either(y, p, p, x);
        } else if c.chain(y) {
            lemma_from_either(x, p, p, y);
        } else {
            lemma_from_either(y, p, p, p);
            lemma_from_either(x, p, p, y);
        }
    }
    assert forall|x: Chain| #[trigger] d.chain(x) implies x.sound() && d.backed(x) by {
        lemma_chains_after(c, i, input, x);
        if c.chain(x) {
            lemma_backed_stays(c, i, post, x);
        } else {
            assert forall|k: int| #![trigger x.holds(k)] x.holds(k) implies exists|l: Seq<char>| #[trigger]
                d.elected.contains((x.at(k).term, l)) by {
                assert(p.holds(k) && x.at(k) == p.at(k));
                let l = choose|l: Seq<char>| #[trigger] d.elected.contains((p.at(k).term, l));
                assert(d.elected.contains((x.at(k).term, l)));
            }
        }
    }
    assert forall|j: int, x: Chain|
        #![trigger d.nodes[j], d.chain(x)]
        0 <= j < d.nodes.len() && d.nodes[j].role is Leader && d.chain(x) implies covers(
        Chain::of_log(d.nodes[j].log),
        d.nodes[j].term,
        x,
    ) by {
        lemma_chains_after(c, i, input, x);
        if j != i {
            assert(d.nodes[j] == c.nodes[j]);
            let leader = Chain::of_log(c.nodes[j].log);
            if c.chain(x) {
            } else {
                lemma_covers_either(leader, c.nodes[j].term, x, p, p);
            }
        } else {
            let term = post.term;
            if c.chain(x) {
                if pre.role is Leader && post.term == pre.term {
                    assert(covers(old, term, x));
                    assert forall|k: int| #![trigger x.holds(k)] x.holds(k) && x.at(k).term
                        == term implies p.holds(k) && p.at(k).term == term by {
                        assert(old.holds(k) && old.at(k).term == term);
                        if post.log.entries != pre.log.entries {
                            assert(post.log.entries.drop_last()[k - 1] == post.log.entries[k
                                - 1]);
                        }
                    }
                } else {
                    assert(pre.role is Candidate && post.term == pre.term);
                    assert forall|k: int| #![trigger x.holds(k)] x.holds(k) && x.at(k).term
                        == term implies p.holds(k) && p.at(k).term == term by {
                        assert(c.backed(x));
                        let l = choose|l: Seq<char>| #[trigger]
                            c.elected.contains((x.at(k).term, l));
                        assert(d.elected.contains((term, l)));
                        assert(d.elected.contains((term, post.id)));
                        lemma_one_leader(d, term, l, post.id);
                        assert(c.led(term, pre.id));
                        let w = choose|w: int|
                            0 <= w < c.nodes.len() && (#[trigger] c.nodes[w]).id == pre.id
                                && c.nodes[w].term >= term && (c.nodes[w].term == term ==> !(
                            c.nodes[w].role is Candidate));
                        assert(c.ids()[w] == pre.id);
                        assert(c.ids()[i] == pre.id);
                        assert(w == i);
                        assert(false);
                    }
                }
            } else {
                assert forall|k: int| #![trigger x.holds(k)] x.holds(k) && x.at(k).term
                    == term implies p.holds(k) && p.at(k).term == term by {
                    assert(p.holds(k) && x.at(k) == p.at(k));
                }
            }
        }
    }
    assert forall|term: u64, l: Seq<char>| #[trigger]
        d.elected.contains((term, l)) implies d.led(term, l) by {
        if c.elected.contains((term, l)) {
            assert(c.led(term, l));
            let w = choose|w: int|
                0 <= w < c.nodes.len() && (#[trigger] c.nodes[w]).id == l && c.nodes[w].term
                    >= term && (c.nodes[w].term == term ==> !(c.nodes[w].role is Candidate));
            if w != i {
                assert(d.nodes[w] == c.nodes[w]);
            } else {
                assert(d.nodes[i].id == l);
            }
        } else {
            assert(d.nodes[i].id == l && d.nodes[i].term == term);
        }
    }
}

/// A sound cluster stays sound when one of its nodes starts again from its
/// log.
pub proof fn lemma_restart_sound(c: Cluster, i: int, applied_index: u64, timeout: u64)
    requires
        c.sound(),
        c.enabled(Action::Restart { node: i, applied_index, timeout }),
    ensures
        c.apply(Action::Restart { node: i, applied_index, timeout }).sound(),
{
    let pre = c.nodes[i];
    let post = NodeView::start(pre.id, pre.peers, pre.log, applied_index, timeout)->Ok_0;
    let d = c.settle(i, post);
    assert(d == c.apply(Action::Restart { node: i, applied_index, timeout }));
    lemma_restart_safe(c, i, applied_index, timeout);
    assert(d.sent =~= c.sent) by {
        assert(Cluster::leaving(post) =~= Set::<MessageView>::empty());
    }
    assert(d.elected == c.elected);
    assert(d.nodes[i] == cleared(post));
    assert forall|j: int| 0 <= j < c.nodes.len() && j != i implies #[trigger] d.nodes[j]
        == c.nodes[j] by {}
    assert forall|x: Chain| #[trigger] d.chain(x) implies c.chain(x) by {
        if exists|j: int|
            0 <= j < d.nodes.len() && x == Chain::of_log((#[trigger] d.nodes[j]).log) {
            let j = choose|j: int|
                0 <= j < d.nodes.len() && x == Chain::of_log((#[trigger] d.nodes[j]).log);
            if j != i {
                assert(d.nodes[j] == c.nodes[j]);
            } else {
                assert(x == Chain::of_log(c.nodes[i].log));
            }
        } else if exists|m: MessageView| #[trigger]
            d.sent.contains(m) && m.event is ReplicateEntries && x == Chain::of_event(m.event) {
            let m = choose|m: MessageView| #[trigger]
                d.sent.contains(m) && m.event is ReplicateEntries && x == Chain::of_event(m.event);
            assert(c.sent.contains(m));
        } else {
            let term = choose|term: u64| #[trigger]
                d.won_with.contains_key(term) && x == Chain::of_entries(d.won_with[term]);
            assert(c.won_with.contains_key(term));
        }
    }
    assert forall|x: Chain| #[trigger] d.chain(x) implies x.sound() && d.backed(x) by {
        assert(c.chain(x));
        assert(c.backed(x));
    }
    assert forall|j: int, x: Chain|
        #![trigger d.nodes[j], d.chain(x)]
        0 <= j < d.nodes.len() && d.nodes[j].role is Leader && d.chain(x) implies covers(
        Chain::of_log(d.nodes[j].log),
        d.nodes[j].term,
        x,
    ) by {
        assert(c.chain(x));
        assert(j != i);
        assert(d.nodes[j] == c.nodes[j]);
    }
    assert forall|term: u64, l: Seq<char>| #[trigger]
        d.elected.contains((term, l)) implies d.led(term, l) by {
        assert(c.led(term, l));
        let w = choose|w: int|
            0 <= w < c.nodes.len() && (#[trigger] c.nodes[w]).id == l && c.nodes[w].term >= term
                && (c.nodes[w].term == term ==> !(c.nodes[w].role is Candidate));
        if w != i {
            assert(d.nodes[w] == c.nodes[w]);
        } else {
            assert(d.nodes[i].id == l);
        }
    }
}

/// A cluster that has just been started is sound.
pub proof fn lemma_initial_sound(c: Cluster)
    requires
        c.initial(),
    ensures
        c.sound(),
{
    lemma_initial_safe(c);
    assert forall|x: Chain| #[trigger] c.chain(x) implies x.entries.len() == 0 && x.base == 0
        && x.base_term == 0 by {
        let j = choose|j: int|
            0 <= j < c.nodes.len() && x == Chain::of_log((#[trigger] c.nodes[j]).log);
    }
}

/// A sound cluster stays sound whatever happens.
pub proof fn lemma_run_sound(c: Cluster, actions: Seq<Action>)
    requires
        c.sound(),
    ensures
        c.run(actions).sound(),
    decreases actions.len(),
{
    if actions.len() > 0 {
        let action = actions[0];
        if c.enabled(action) {
            match action {
                Action::Advance { node, input } => lemma_advance_sound(c, node, input),
                Action::Restart { node, applied_index, timeout } => lemma_restart_sound(
                    c,
                    node,
                    applied_index,
                    timeout,
                ),
            }
        }
        lemma_run_sound(c.apply(action), actions.drop_first());
    }
}

/// Log matching. Whatever happens in a cluster from when it is started:
/// where the logs of two nodes hold entries of the same term at an index,
/// they hold the same entry at every index up to that one.
pub proof fn law_log_matching(start: Cluster, actions: Seq<Action>, a: int, b: int, i: int, j: int)
    requires
        start.initial(),
        0 <= a < start.run(actions).nodes.len(),
        0 <= b < start.run(actions).nodes.len(),
        1 <= j <= i,
        i <= start.run(actions).nodes[a].log.last_index(),
        i <= start.run(actions).nodes[b].log.last_index(),
        start.run(actions).nodes[a].log.term_at(i) == start.run(actions).nodes[b].log.term_at(i),
    ensures
        start.run(actions).nodes[a].log.get(j) == start.run(actions).nodes[b].log.get(j),
{
    lemma_initial_sound(start);
    lemma_run_sound(start, actions);
    let end = start.run(actions);
    let x = Chain::of_log(end.nodes[a].log);
    let y = Chain::of_log(end.nodes[b].log);
    assert(end.chain(x));
    assert(end.chain(y));
    lemma_agree_prefix(end.nodes[a].log, end.nodes[b].log, i, j);
}

} // verus!
