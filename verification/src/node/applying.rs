//! What a node hands to the driver: the commands that it has committed,
//! in log order, each once.

use crate::instruction::{applications, InstructionView};
use crate::log::log::LogView;
use crate::message::{AddressView, EventView, MessageView};
use crate::node::laws::{Input, keeps_committed, lemma_advance, lemma_commit_target};
use crate::node::model::{lemma_position, NodeView, position, RoleView, timeout_in_window};
use vstd::prelude::*;

verus! {

/// The instructions of `instructions` that apply a command, in order.
pub open spec fn applying(instructions: Seq<InstructionView>) -> Seq<InstructionView>
    decreases instructions.len(),
{
    if instructions.len() == 0 {
        Seq::empty()
    } else if instructions.last() is Apply {
        applying(instructions.drop_last()).push(instructions.last())
    } else {
        applying(instructions.drop_last())
    }
}

/// What one input may add to a node's instructions: nothing; or the note
/// of a peer's confirmation; or, where it moves the commit index, the
/// instructions that apply what that commits.
pub open spec fn hands_out(pre: NodeView, post: NodeView) -> bool {
    ||| post.instructions == pre.instructions && post.log.commit_index == pre.log.commit_index
    ||| post.log.commit_index == pre.log.commit_index && post.instructions.len()
        == pre.instructions.len() + 1 && post.instructions.drop_last() == pre.instructions
        && post.instructions.last() is Vote
    ||| {
        &&& pre.log.commit_index < post.log.commit_index <= pre.log.last_index()
        &&& post.log.entries == pre.log.entries
        &&& post.instructions == pre.instructions + applications(
            pre.log,
            pre.log.commit_index,
            post.log.commit_index,
        )
    }
}

/// A message that a follower handles adds to its instructions as
/// committing allows.
pub proof fn lemma_follower_hands_out(pre: NodeView, msg: MessageView)
    requires
        pre.well_formed(),
        pre.role is Follower,
        pre.step_follower(msg) is Ok,
    ensures
        hands_out(pre, pre.step_follower(msg)->Ok_0),
{
    let post = pre.step_follower(msg)->Ok_0;
    match (msg.event, msg.from) {
        (EventView::ReplicateEntries { base_index, base_term, entries }, AddressView::Peer(p)) => {
            crate::node::laws::lemma_step_follower(pre, msg);
        },
        _ => {},
    }
}

/// One input adds to a node's instructions as committing allows.
pub proof fn lemma_hands_out(pre: NodeView, input: Input)
    requires
        pre.well_formed(),
        input.in_window(),
        pre.advance(input) is Ok,
    ensures
        hands_out(pre, pre.advance(input)->Ok_0),
{
    let post = pre.advance(input)->Ok_0;
    lemma_advance(pre, input);
    match input {
        Input::Tick { timeout } => {},
        Input::Receive { msg, timeout } => {
            if msg.event.from_client() {
                lemma_in_role_hands_out(pre, msg, timeout);
            } else if msg.term > pre.term {
                let follower = pre.demote(msg, timeout)->Ok_0;
                lemma_follower_hands_out(follower, msg);
            } else if msg.term < pre.term {
            } else {
                lemma_in_role_hands_out(pre, msg, timeout);
            }
        },
    }
}

/// The same of a message that goes to the node's role.
pub proof fn lemma_in_role_hands_out(pre: NodeView, msg: MessageView, timeout: u64)
    requires
        pre.well_formed(),
        timeout_in_window(timeout),
        pre.step_in_role(msg, timeout) is Ok,
    ensures
        hands_out(pre, pre.step_in_role(msg, timeout)->Ok_0),
{
    let post = pre.step_in_role(msg, timeout)->Ok_0;
    match pre.role {
        RoleView::Follower { .. } => {
            lemma_follower_hands_out(pre, msg);
        },
        RoleView::Candidate { .. } => {
            match (msg.event, msg.from) {
                (EventView::Heartbeat { .. }, AddressView::Peer(p)) => {
                    lemma_follower_hands_out(pre.follow(Some(p), Some(pre.id), timeout), msg);
                },
                (EventView::ReplicateEntries { .. }, AddressView::Peer(p)) => {
                    lemma_follower_hands_out(pre.follow(Some(p), Some(pre.id), timeout), msg);
                },
                _ => {},
            }
        },
        RoleView::Leader { .. } => {
            match (msg.event, msg.from) {
                (EventView::ClientRequest { id, payload }, _) => {
                    let appended = NodeView { log: pre.log.append(pre.term, Some(payload)), ..pre };
                    crate::node::laws::lemma_replicate_from(appended, 0);
                },
                (EventView::ConfirmLeader { .. }, AddressView::Peer(p)) => {
                    lemma_position(pre.peers, p);
                    assert(post.instructions.drop_last() =~= pre.instructions);
                },
                (EventView::AcceptEntries { last_index }, AddressView::Peer(p)) => {
                    lemma_position(pre.peers, p);
                    match position(pre.peers, p) {
                        Some(i) => {
                            if last_index < u64::MAX {
                                let moved = NodeView {
                                    log: pre.log,
                                    instructions: pre.instructions,
                                    ..post
                                };
                                lemma_commit_target(moved, moved.log.last_index());
                            }
                        },
                        None => {},
                    }
                },
                (EventView::RejectEntries, AddressView::Peer(p)) => {
                    lemma_position(pre.peers, p);
                },
                _ => {},
            }
        },
    }
}

/// The instructions that apply a command among instructions with a note
/// of a confirmation after them are those among the instructions.
proof fn lemma_applying_note(instructions: Seq<InstructionView>)
    requires
        instructions.len() > 0,
        !(instructions.last() is Apply),
    ensures
        applying(instructions) == applying(instructions.drop_last()),
{
}

/// The instructions that apply a command among instructions with
/// instructions after them that all apply a command are those among the
/// first, and then the second.
proof fn lemma_applying_more(first: Seq<InstructionView>, second: Seq<InstructionView>)
    requires
        forall|k: int| 0 <= k < second.len() ==> (#[trigger] second[k]) is Apply,
    ensures
        applying(first + second) == applying(first) + second,
    decreases second.len(),
{
    if second.len() == 0 {
        assert(first + second =~= first);
        assert(applying(first) + second =~= applying(first));
    } else {
        let all = first + second;
        assert(all.drop_last() =~= first + second.drop_last());
        assert(all.last() == second.last());
        lemma_applying_more(first, second.drop_last());
        assert(applying(first) + second =~= (applying(first) + second.drop_last()).push(
            second.last(),
        ));
    }
}

/// The instructions that apply what a log holds after one index up to a
/// second, and then up to a third, are those that apply what it holds
/// after the first up to the third.
proof fn lemma_applications_join(log: LogView, later: LogView, a: nat, b: nat, c: nat)
    requires
        a <= b <= c <= log.entries.len(),
        c <= later.entries.len(),
        later.entries.len() < u64::MAX,
        forall|i: int| 0 <= i < b ==> log.entries[i] == later.entries[i],
        forall|i: int| b <= i < c ==> log.entries[i] == later.entries[i],
    ensures
        applications(log, a, b) + applications(later, b, c) == applications(later, a, c),
        applications(log, a, b) == applications(later, a, b),
        forall|k: int|
            0 <= k < applications(later, b, c).len() ==> (#[trigger] applications(
                later,
                b,
                c,
            )[k]) is Apply,
{
    assert(applications(log, a, b) + applications(later, b, c) =~= applications(later, a, c));
    assert(applications(log, a, b) =~= applications(later, a, b));
}

/// Whether the instructions of `node` that apply a command are those that
/// apply what its log has committed after index `from`.
pub open spec fn applies_committed(node: NodeView, from: nat) -> bool {
    &&& from <= node.log.commit_index
    &&& applying(node.instructions) == applications(node.log, from, node.log.commit_index)
}

/// One input keeps a node handing out what it commits: where the
/// instructions of a node that apply a command were those that apply what
/// its log had committed after an index, they are so after the input.
pub proof fn lemma_advance_applies(pre: NodeView, input: Input, from: nat)
    requires
        pre.well_formed(),
        input.in_window(),
        pre.advance(input) is Ok,
        applies_committed(pre, from),
    ensures
        applies_committed(pre.advance(input)->Ok_0, from),
{
    let post = pre.advance(input)->Ok_0;
    lemma_advance(pre, input);
    lemma_hands_out(pre, input);
    let old = pre.log.commit_index;
    let new = post.log.commit_index;
    assert(keeps_committed(pre.log, post.log));
    if post.instructions == pre.instructions && new == old {
        lemma_applications_join(pre.log, post.log, from, old, old);
    } else if new == old {
        lemma_applying_note(post.instructions);
        lemma_applications_join(pre.log, post.log, from, old, old);
    } else {
        lemma_applications_join(pre.log, post.log, from, old, new);
        lemma_applying_more(pre.instructions, applications(pre.log, old, new));
        assert(applications(pre.log, old, new) =~= applications(post.log, old, new));
    }
}

/// A node hands the driver what it commits, in log order, each command
/// once. Of a node as it starts, with a state that has applied the log up
/// to `applied_index`: after any inputs, the instructions that apply a
/// command are those for the entries after `applied_index` up to the
/// commit index, in ascending order, as long as the instructions are left
/// where they are.
pub proof fn law_applies_in_commit_order(
    id: Seq<char>,
    peers: Seq<Seq<char>>,
    log: LogView,
    applied_index: u64,
    timeout: u64,
    inputs: Seq<Input>,
)
    requires
        log.well_formed(),
        timeout_in_window(timeout),
        applied_index <= log.commit_index,
        forall|i: int| 0 <= i < inputs.len() ==> (#[trigger] inputs[i]).in_window(),
        NodeView::start(id, peers, log, applied_index, timeout)->Ok_0.run(inputs) is Ok,
    ensures
        applies_committed(
            NodeView::start(id, peers, log, applied_index, timeout)->Ok_0.run(inputs)->Ok_0,
            applied_index as nat,
        ),
{
    let first = NodeView::start(id, peers, log, applied_index, timeout)->Ok_0;
    let handed = applications(log, applied_index as nat, log.commit_index);
    lemma_applying_more(Seq::empty(), handed);
    assert(Seq::<InstructionView>::empty() + handed =~= handed);
    assert(applying(Seq::<InstructionView>::empty()) + handed =~= handed);
    lemma_run_applies(first, inputs, applied_index as nat);
}

/// Any inputs keep a node handing out what it commits.
pub proof fn lemma_run_applies(pre: NodeView, inputs: Seq<Input>, from: nat)
    requires
        pre.well_formed(),
        forall|i: int| 0 <= i < inputs.len() ==> (#[trigger] inputs[i]).in_window(),
        pre.run(inputs) is Ok,
        applies_committed(pre, from),
    ensures
        applies_committed(pre.run(inputs)->Ok_0, from),
    decreases inputs.len(),
{
    if inputs.len() > 0 {
        let next = pre.advance(inputs[0])->Ok_0;
        lemma_advance(pre, inputs[0]);
        lemma_advance_applies(pre, inputs[0], from);
        let rest = inputs.drop_first();
        assert forall|i: int| 0 <= i < rest.len() implies (#[trigger] rest[i]).in_window() by {
            assert(rest[i] == inputs[i + 1]);
        }
        lemma_run_applies(next, rest, from);
    }
}

} // verus!
