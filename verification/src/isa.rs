//! Symbolic EVM instructions, before labels are resolved to offsets.

use vstd::prelude::*;
use crate::{Id, U256};

verus! {

#[derive(Debug, PartialEq, Eq, Clone, Copy)]
pub enum Instr {
    Pop,
    Push(U256),
    Swap(usize),
    Dup(usize),
    Op(u8),
    JumpDest(Id),
    PushLabel(Id),
    JumpIf,
    Jump,
    Stop,
}

} // verus!
