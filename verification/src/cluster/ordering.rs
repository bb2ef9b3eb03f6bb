//! The order of terms, proved on the cluster: along every log the terms
//! of the entries do not go down, and none is later than the term of the
//! node that holds the log.

use crate::cluster::{Action, cleared, Cluster};
use crate::cluster::matching::{
    Chain,
    from_either,
    lemma_advance_sound,
    lemma_cut_within,
    lemma_initial_sound,
    lemma_restart_sound,
    lemma_splice_either,
};
use crate::log::log::LogView;
use crate::message::MessageView;
use crate::node::election::{lemma_elects, put_out_by};
use crate::node::laws::{Input, lemma_advance};
use crate::node::model::NodeView;
use crate::node::replication::{cut, lemma_writes};
use crate::transport::stamped;
use vstd::prelude::*;

verus! {

/// Whether the terms along the chain do not go down, from the term before
/// its first entry on.
pub open spec fn rising(x: Chain) -> bool {
    forall|i: int| #![trigger x.holds(i)] x.holds(i) ==> x.before(i) <= x.at(i).term
}

/// Whether no entry of the chain is of a later term than `term`.
pub open spec fn bounded(x: Chain, term: u64) -> bool {
    forall|i: int| #![trigger x.holds(i)] x.holds(i) ==> x.at(i).term <= term
}

impl Cluster {
    /// What holds of the terms in every cluster that was started and left
    /// to run: they rise along every log and along the entries of every
    /// message, and none is later than the term of the node or of the
    /// message.
    pub open spec fn ordered(self) -> bool {
        &&& forall|i: int|
            0 <= i < self.nodes.len() ==> rising(Chain::of_log((#[trigger] self.nodes[i]).log))
                && bounded(Chain::of_log(self.nodes[i].log), self.nodes[i].term)
        &&& forall|m: MessageView| #[trigger]
            self.sent.contains(m) && m.event is ReplicateEntries ==> rising(
                Chain::of_event(m.event),
            ) && bounded(Chain::of_event(m.event), m.term)
    }
}

/// A chain of entries that stand in two chains along which the terms rise
/// is one along which they rise, and its terms are bounded as theirs are.
proof fn lemma_rising_either(n: Chain, a: Chain, b: Chain, term: u64)
    requires
        from_either(n, a, b),
        rising(a),
        rising(b),
        bounded(a, term),
        bounded(b, term),
    ensures
        rising(n),
        bounded(n, term),
{
    assert forall|i: int| #![trigger n.holds(i)] n.holds(i) implies n.before(i) <= n.at(i).term
        && n.at(i).term <= term by {
        if a.holds(i) && n.at(i) == a.at(i) && n.before(i) == a.before(i) {
            assert(a.holds(i));
        } else {
            assert(b.holds(i));
        }
    }
}

/// A cluster whose terms are in order keeps them in order when one of its
/// nodes takes an input.
pub proof fn lemma_advance_ordered(c: Cluster, i: int, input: Input)
    requires
        c.sound(),
        c.ordered(),
        c.enabled(Action::Advance { node: i, input }),
    ensures
        c.apply(Action::Advance { node: i, input }).ordered(),
{
    let pre = c.nodes[i];
    let post = pre.advance(input)->Ok_0;
    let d = c.settle(i, post);
    assert(d == c.apply(Action::Advance { node: i, input }));
    let p = Chain::of_log(post.log);
    let old = Chain::of_log(pre.log);
    lemma_advance(pre, input);
    lemma_elects(pre, input);
    lemma_writes(pre, input);
    assert(rising(old) && bounded(old, pre.term));
    if post.log.entries == pre.log.entries {
        assert(p == old);
        assert(bounded(p, post.term)) by {
            assert forall|k: int| #![trigger p.holds(k)] p.holds(k) implies p.at(k).term
                <= post.term by {
                assert(old.holds(k));
            }
        }
    } else if pre.role is Leader && post.role is Leader && post.term == pre.term
        && post.log.entries.len() == pre.log.entries.len() + 1 && post.log.entries.last().term
        == pre.term && post.log.entries.drop_last() == pre.log.entries {
        let n = pre.log.entries.len() as int;
        assert forall|k: int| #![trigger p.holds(k)] p.holds(k) implies p.before(k) <= p.at(k).term
            && p.at(k).term <= post.term by {
            if k <= n {
                assert(old.holds(k));
                assert(post.log.entries.drop_last()[k - 1] == post.log.entries[k - 1]);
                if k > 1 {
                    assert(post.log.entries.drop_last()[k - 2] == post.log.entries[k - 2]);
                }
            } else {
                assert(p.at(k) == post.log.entries.last());
                if n > 0 {
                    assert(old.holds(n));
                    assert(post.log.entries.drop_last()[n - 1] == post.log.entries[n - 1]);
                }
            }
        }
    } else {
        let msg = input->Receive_msg;
        assert(c.deliverable(i, msg));
        assert(c.sent.contains(msg));
        let m = Chain::of_event(msg.event);
        assert(c.chain(m));
        assert(m.sound());
        lemma_splice_either(pre.log, LogView { entries: post.log.entries, ..pre.log }, msg.event);
        assert(bounded(old, post.term)) by {
            assert forall|k: int| #![trigger old.holds(k)] old.holds(k) implies old.at(k).term
                <= post.term by {}
        }
        lemma_rising_either(p, old, m, post.term);
    }
    assert(d.nodes[i] == cleared(post));
    assert forall|j: int| 0 <= j < d.nodes.len() implies rising(
        Chain::of_log((#[trigger] d.nodes[j]).log),
    ) && bounded(Chain::of_log(d.nodes[j].log), d.nodes[j].term) by {
        if j != i {
            assert(d.nodes[j] == c.nodes[j]);
        }
    }
    assert forall|m: MessageView| #[trigger]
        d.sent.contains(m) && m.event is ReplicateEntries implies rising(Chain::of_event(m.event))
        && bounded(Chain::of_event(m.event), m.term) by {
        if !c.sent.contains(m) {
            let k = choose|k: int|
                0 <= k < post.outbox.len() && m == stamped(#[trigger] post.outbox[k], post.id);
            assert(put_out_by(post.outbox[k], post));
            assert(post.outbox[k].event == m.event);
            let next = choose|next: u64|
                next >= 1 && post.outbox[k].event == #[trigger] cut(post.log, next);
            lemma_cut_within(post.log, next);
            lemma_rising_either(Chain::of_event(m.event), p, p, post.term);
        }
    }
}

/// A cluster whose terms are in order keeps them in order when one of its
/// nodes starts again from its log.
pub proof fn lemma_restart_ordered(c: Cluster, i: int, applied_index: u64, timeout: u64)
    requires
        c.sound(),
        c.ordered(),
        c.enabled(Action::Restart { node: i, applied_index, timeout }),
    ensures
        c.apply(Action::Restart { node: i, applied_index, timeout }).ordered(),
{
    let pre = c.nodes[i];
    let post = NodeView::start(pre.id, pre.peers, pre.log, applied_index, timeout)->Ok_0;
    let d = c.settle(i, post);
    assert(d == c.apply(Action::Restart { node: i, applied_index, timeout }));
    assert(d.sent =~= c.sent) by {
        assert(Cluster::leaving(post) =~= Set::<MessageView>::empty());
    }
    assert(d.nodes[i] == cleared(post));
    assert(rising(Chain::of_log(pre.log)) && bounded(Chain::of_log(pre.log), pre.term));
    assert forall|j: int| 0 <= j < d.nodes.len() implies rising(
        Chain::of_log((#[trigger] d.nodes[j]).log),
    ) && bounded(Chain::of_log(d.nodes[j].log), d.nodes[j].term) by {
        if j != i {
            assert(d.nodes[j] == c.nodes[j]);
        }
    }
}

/// The terms of a cluster that was started are in order whatever happens.
pub proof fn lemma_run_ordered(c: Cluster, actions: Seq<Action>)
    requires
        c.sound(),
        c.ordered(),
    ensures
        c.run(actions).sound(),
        c.run(actions).ordered(),
    decreases actions.len(),
{
    if actions.len() > 0 {
        let action = actions[0];
        if c.enabled(action) {
            match action {
                Action::Advance { node, input } => {
                    lemma_advance_sound(c, node, input);
                    lemma_advance_ordered(c, node, input);
                },
                Action::Restart { node, applied_index, timeout } => {
                    lemma_restart_sound(c, node, applied_index, timeout);
                    lemma_restart_ordered(c, node, applied_index, timeout);
                },
            }
        }
        lemma_run_ordered(c.apply(action), actions.drop_first());
    }
}

/// The order of terms. Whatever happens in a cluster from when it is
/// started: along the log of every node the terms of the entries do not
/// go down, and none is later than the node's term.
pub proof fn law_terms_ordered(start: Cluster, actions: Seq<Action>, a: int, i: int, j: int)
    requires
        start.initial(),
        0 <= a < start.run(actions).nodes.len(),
        1 <= i <= j <= start.run(actions).nodes[a].log.last_index(),
    ensures
        start.run(actions).nodes[a].log.term_at(i) <= start.run(actions).nodes[a].log.term_at(j),
        start.run(actions).nodes[a].log.term_at(j) <= start.run(actions).nodes[a].term,
    decreases j - i,
{
    lemma_initial_sound(start);
    assert(start.ordered());
    lemma_run_ordered(start, actions);
    let end = start.run(actions);
    let x = Chain::of_log(end.nodes[a].log);
    assert(x.holds(j));
    if i < j {
        law_terms_ordered(start, actions, a, i, j - 1);
        assert(x.before(j) == end.nodes[a].log.term_at(j - 1));
    }
}

} // verus!
