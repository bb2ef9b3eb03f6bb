//! What the role machine hands to the applied-state driver.

use crate::bytes::clone_bytes;
use crate::log::log::LogView;
use crate::message::{Address, AddressView};
use vstd::prelude::*;

verus! {

/// What an instruction holds.
pub enum InstructionView {
    Apply { index: u64, command: Seq<u8> },
    Query { command: Seq<u8> },
    Vote { term: u64, index: u64, address: AddressView },
}

/// One instruction to the applied-state driver.
#[derive(Debug, PartialEq, Eq)]
pub enum Instruction {
    /// Apply the committed command at `index` to the state.
    Apply { index: u64, command: Vec<u8> },
    /// Answer a read against the state as it stands.
    Query { command: Vec<u8> },
    /// The peer at `address` has confirmed the leader's commit index
    /// `index` in term `term`.
    Vote { term: u64, index: u64, address: Address },
}

impl View for Instruction {
    type V = InstructionView;

    open spec fn view(&self) -> InstructionView {
        match self {
            Instruction::Apply { index, command } => InstructionView::Apply {
                index: *index,
                command: command@,
            },
            Instruction::Query { command } => InstructionView::Query { command: command@ },
            Instruction::Vote { term, index, address } => InstructionView::Vote {
                term: *term,
                index: *index,
                address: address@,
            },
        }
    }
}

impl Clone for Instruction {
    fn clone(&self) -> (copy: Instruction)
        ensures
            copy@ == self@,
    {
        match self {
            Instruction::Apply { index, command } => Instruction::Apply {
                index: *index,
                command: clone_bytes(command),
            },
            Instruction::Query { command } => Instruction::Query { command: clone_bytes(command) },
            Instruction::Vote { term, index, address } => Instruction::Vote {
                term: *term,
                index: *index,
                address: address.clone(),
            },
        }
    }
}

/// What a list of instructions holds.
pub open spec fn instruction_views(instructions: &Vec<Instruction>) -> Seq<InstructionView> {
    Seq::new(instructions@.len(), |i: int| instructions@[i]@)
}

/// The bytes of a command; none where the entry carries no command.
pub open spec fn command_bytes(command: Option<Seq<u8>>) -> Seq<u8> {
    match command {
        Some(bytes) => bytes,
        None => Seq::empty(),
    }
}

/// The instructions that apply the entries after index `from` up to index
/// `to`, in ascending order.
pub open spec fn applications(log: LogView, from: nat, to: nat) -> Seq<InstructionView> {
    if from < to {
        Seq::new(
            (to - from) as nat,
            |k: int|
                InstructionView::Apply {
                    index: (from + 1 + k) as u64,
                    command: command_bytes(log.entries[from + k].command),
                },
        )
    } else {
        Seq::empty()
    }
}

} // verus!
