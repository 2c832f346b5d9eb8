use vstd::prelude::*;
use vstd::string::StringSliceAdditionalSpecFns;
use crate::names::bytes_eq;

verus! {

pub const MLOAD: u8 = 0x51;
pub const MSTORE: u8 = 0x52;
pub const STOP: u8 = 0x00;
pub const JUMP: u8 = 0x56;
pub const JUMPI: u8 = 0x57;
pub const POP: u8 = 0x50;
pub const JUMPDEST: u8 = 0x5b;
pub const PUSH0: u8 = 0x5f;
pub const PUSH2: u8 = 0x61;
pub const DUP1: u8 = 0x80;
pub const SWAP1: u8 = 0x90;

/// How many stack values an operation consumes and produces.
#[derive(Clone, Copy, Debug, PartialEq, Eq)]
pub struct OpcodeInfo {
    pub inputs: usize,
    pub outputs: usize,
}

/// The operations the language can name, with their stack effect
/// `(inputs, outputs)`; `None` for every other byte.
pub open spec fn opcode_arity(op: u8) -> Option<(nat, nat)> {
    match op {
        0x00u8 => Some((0nat, 0nat)),
        0x01u8 => Some((2nat, 1nat)),
        0x02u8 => Some((2nat, 1nat)),
        0x03u8 => Some((2nat, 1nat)),
        0x04u8 => Some((2nat, 1nat)),
        0x05u8 => Some((2nat, 1nat)),
        0x06u8 => Some((2nat, 1nat)),
        0x07u8 => Some((2nat, 1nat)),
        0x08u8 => Some((3nat, 1nat)),
        0x09u8 => Some((3nat, 1nat)),
        0x0Au8 => Some((2nat, 1nat)),
        0x0Bu8 => Some((2nat, 1nat)),
        0x10u8 => Some((2nat, 1nat)),
        0x11u8 => Some((2nat, 1nat)),
        0x12u8 => Some((2nat, 1nat)),
        0x13u8 => Some((2nat, 1nat)),
        0x14u8 => Some((2nat, 1nat)),
        0x15u8 => Some((1nat, 1nat)),
        0x16u8 => Some((2nat, 1nat)),
        0x17u8 => Some((2nat, 1nat)),
        0x18u8 => Some((2nat, 1nat)),
        0x19u8 => Some((1nat, 1nat)),
        0x1Au8 => Some((2nat, 1nat)),
        0x1Bu8 => Some((2nat, 1nat)),
        0x1Cu8 => Some((2nat, 1nat)),
        0x1Du8 => Some((2nat, 1nat)),
        0x20u8 => Some((2nat, 1nat)),
        0x30u8 => Some((0nat, 1nat)),
        0x31u8 => Some((1nat, 1nat)),
        0x32u8 => Some((0nat, 1nat)),
        0x33u8 => Some((0nat, 1nat)),
        0x34u8 => Some((0nat, 1nat)),
        0x35u8 => Some((1nat, 1nat)),
        0x36u8 => Some((0nat, 1nat)),
        0x37u8 => Some((3nat, 0nat)),
        0x38u8 => Some((0nat, 1nat)),
        0x39u8 => Some((3nat, 0nat)),
        0x3Au8 => Some((0nat, 1nat)),
        0x3Bu8 => Some((1nat, 1nat)),
        0x3Cu8 => Some((4nat, 0nat)),
        0x3Du8 => Some((0nat, 1nat)),
        0x3Eu8 => Some((3nat, 0nat)),
        0x3Fu8 => Some((1nat, 1nat)),
        0x40u8 => Some((1nat, 1nat)),
        0x41u8 => Some((0nat, 1nat)),
        0x42u8 => Some((0nat, 1nat)),
        0x43u8 => Some((0nat, 1nat)),
        0x44u8 => Some((0nat, 1nat)),
        0x45u8 => Some((0nat, 1nat)),
        0x46u8 => Some((0nat, 1nat)),
        0x47u8 => Some((0nat, 1nat)),
        0x48u8 => Some((0nat, 1nat)),
        0x49u8 => Some((1nat, 1nat)),
        0x4Au8 => Some((0nat, 1nat)),
        0x50u8 => Some((1nat, 0nat)),
        0x51u8 => Some((1nat, 1nat)),
        0x52u8 => Some((2nat, 0nat)),
        0x53u8 => Some((2nat, 0nat)),
        0x54u8 => Some((1nat, 1nat)),
        0x55u8 => Some((2nat, 0nat)),
        0x58u8 => Some((0nat, 1nat)),
        0x59u8 => Some((0nat, 1nat)),
        0x5Au8 => Some((0nat, 1nat)),
        0x5Bu8 => Some((0nat, 0nat)),
        0x5Cu8 => Some((1nat, 1nat)),
        0x5Du8 => Some((2nat, 0nat)),
        0x5Eu8 => Some((3nat, 0nat)),
        0xA0u8 => Some((2nat, 0nat)),
        0xA1u8 => Some((3nat, 0nat)),
        0xA2u8 => Some((4nat, 0nat)),
        0xA3u8 => Some((5nat, 0nat)),
        0xA4u8 => Some((6nat, 0nat)),
        0xF0u8 => Some((3nat, 1nat)),
        0xF1u8 => Some((7nat, 1nat)),
        0xF2u8 => Some((7nat, 1nat)),
        0xF4u8 => Some((6nat, 1nat)),
        0xF5u8 => Some((4nat, 1nat)),
        0xF7u8 => Some((1nat, 1nat)),
        0xFAu8 => Some((6nat, 1nat)),
        _ => None,
    }
}

/// The name under which the language refers to an operation.
pub open spec fn opcode_name(op: u8) -> Seq<u8> {
    match op {
        0x00u8 => seq![115u8, 116u8, 111u8, 112u8],
        0x01u8 => seq![97u8, 100u8, 100u8],
        0x02u8 => seq![109u8, 117u8, 108u8],
        0x03u8 => seq![115u8, 117u8, 98u8],
        0x04u8 => seq![100u8, 105u8, 118u8],
        0x05u8 => seq![115u8, 100u8, 105u8, 118u8],
        0x06u8 => seq![109u8, 111u8, 100u8],
        0x07u8 => seq![115u8, 109u8, 111u8, 100u8],
        0x08u8 => seq![97u8, 100u8, 100u8, 109u8, 111u8, 100u8],
        0x09u8 => seq![109u8, 117u8, 108u8, 109u8, 111u8, 100u8],
        0x0Au8 => seq![101u8, 120u8, 112u8],
        0x0Bu8 => seq![115u8, 105u8, 103u8, 110u8, 101u8, 120u8, 116u8, 101u8, 110u8, 100u8],
        0x10u8 => seq![108u8, 116u8],
        0x11u8 => seq![103u8, 116u8],
        0x12u8 => seq![115u8, 108u8, 116u8],
        0x13u8 => seq![115u8, 103u8, 116u8],
        0x14u8 => seq![101u8, 113u8],
        0x15u8 => seq![105u8, 115u8, 122u8, 101u8, 114u8, 111u8],
        0x16u8 => seq![97u8, 110u8, 100u8],
        0x17u8 => seq![111u8, 114u8],
        0x18u8 => seq![120u8, 111u8, 114u8],
        0x19u8 => seq![110u8, 111u8, 116u8],
        0x1Au8 => seq![98u8, 121u8, 116u8, 101u8],
        0x1Bu8 => seq![115u8, 104u8, 108u8],
        0x1Cu8 => seq![115u8, 104u8, 114u8],
        0x1Du8 => seq![115u8, 97u8, 114u8],
        0x20u8 => seq![107u8, 101u8, 99u8, 99u8, 97u8, 107u8, 50u8, 53u8, 54u8],
        0x30u8 => seq![97u8, 100u8, 100u8, 114u8, 101u8, 115u8, 115u8],
        0x31u8 => seq![98u8, 97u8, 108u8, 97u8, 110u8, 99u8, 101u8],
        0x32u8 => seq![111u8, 114u8, 105u8, 103u8, 105u8, 110u8],
        0x33u8 => seq![99u8, 97u8, 108u8, 108u8, 101u8, 114u8],
        0x34u8 => seq![99u8, 97u8, 108u8, 108u8, 118u8, 97u8, 108u8, 117u8, 101u8],
        0x35u8 => seq![99u8, 97u8, 108u8, 108u8, 100u8, 97u8, 116u8, 97u8, 108u8, 111u8, 97u8, 100u8],
        0x36u8 => seq![99u8, 97u8, 108u8, 108u8, 100u8, 97u8, 116u8, 97u8, 115u8, 105u8, 122u8, 101u8],
        0x37u8 => seq![99u8, 97u8, 108u8, 108u8, 100u8, 97u8, 116u8, 97u8, 99u8, 111u8, 112u8, 121u8],
        0x38u8 => seq![99u8, 111u8, 100u8, 101u8, 115u8, 105u8, 122u8, 101u8],
        0x39u8 => seq![99u8, 111u8, 100u8, 101u8, 99u8, 111u8, 112u8, 121u8],
        0x3Au8 => seq![103u8, 97u8, 115u8, 112u8, 114u8, 105u8, 99u8, 101u8],
        0x3Bu8 => seq![101u8, 120u8, 116u8, 99u8, 111u8, 100u8, 101u8, 115u8, 105u8, 122u8, 101u8],
        0x3Cu8 => seq![101u8, 120u8, 116u8, 99u8, 111u8, 100u8, 101u8, 99u8, 111u8, 112u8, 121u8],
        0x3Du8 => seq![114u8, 101u8, 116u8, 117u8, 114u8, 110u8, 100u8, 97u8, 116u8, 97u8, 115u8, 105u8, 122u8, 101u8],
        0x3Eu8 => seq![114u8, 101u8, 116u8, 117u8, 114u8, 110u8, 100u8, 97u8, 116u8, 97u8, 99u8, 111u8, 112u8, 121u8],
        0x3Fu8 => seq![101u8, 120u8, 116u8, 99u8, 111u8, 100u8, 101u8, 104u8, 97u8, 115u8, 104u8],
        0x40u8 => seq![98u8, 108u8, 111u8, 99u8, 107u8, 104u8, 97u8, 115u8, 104u8],
        0x41u8 => seq![99u8, 111u8, 105u8, 110u8, 98u8, 97u8, 115u8, 101u8],
        0x42u8 => seq![116u8, 105u8, 109u8, 101u8, 115u8, 116u8, 97u8, 109u8, 112u8],
        0x43u8 => seq![110u8, 117u8, 109u8, 98u8, 101u8, 114u8],
        0x44u8 => seq![100u8, 105u8, 102u8, 102u8, 105u8, 99u8, 117u8, 108u8, 116u8, 121u8],
        0x45u8 => seq![103u8, 97u8, 115u8, 108u8, 105u8, 109u8, 105u8, 116u8],
        0x46u8 => seq![99u8, 104u8, 97u8, 105u8, 110u8, 105u8, 100u8],
        0x47u8 => seq![115u8, 101u8, 108u8, 102u8, 98u8, 97u8, 108u8, 97u8, 110u8, 99u8, 101u8],
        0x48u8 => seq![98u8, 97u8, 115u8, 101u8, 102u8, 101u8, 101u8],
        0x49u8 => seq![98u8, 108u8, 111u8, 98u8, 104u8, 97u8, 115u8, 104u8],
        0x4Au8 => seq![98u8, 108u8, 111u8, 98u8, 98u8, 97u8, 115u8, 101u8, 102u8, 101u8, 101u8],
        0x50u8 => seq![112u8, 111u8, 112u8],
        0x51u8 => seq![109u8, 108u8, 111u8, 97u8, 100u8],
        0x52u8 => seq![109u8, 115u8, 116u8, 111u8, 114u8, 101u8],
        0x53u8 => seq![109u8, 115u8, 116u8, 111u8, 114u8, 101u8, 56u8],
        0x54u8 => seq![115u8, 108u8, 111u8, 97u8, 100u8],
        0x55u8 => seq![115u8, 115u8, 116u8, 111u8, 114u8, 101u8],
        0x58u8 => seq![112u8, 99u8],
        0x59u8 => seq![109u8, 115u8, 105u8, 122u8, 101u8],
        0x5Au8 => seq![103u8, 97u8, 115u8],
        0x5Bu8 => seq![106u8, 117u8, 109u8, 112u8, 100u8, 101u8, 115u8, 116u8],
        0x5Cu8 => seq![116u8, 108u8, 111u8, 97u8, 100u8],
        0x5Du8 => seq![116u8, 115u8, 116u8, 111u8, 114u8, 101u8],
        0x5Eu8 => seq![109u8, 99u8, 111u8, 112u8, 121u8],
        0xA0u8 => seq![108u8, 111u8, 103u8, 48u8],
        0xA1u8 => seq![108u8, 111u8, 103u8, 49u8],
        0xA2u8 => seq![108u8, 111u8, 103u8, 50u8],
        0xA3u8 => seq![108u8, 111u8, 103u8, 51u8],
        0xA4u8 => seq![108u8, 111u8, 103u8, 52u8],
        0xF0u8 => seq![99u8, 114u8, 101u8, 97u8, 116u8, 101u8],
        0xF1u8 => seq![99u8, 97u8, 108u8, 108u8],
        0xF2u8 => seq![99u8, 97u8, 108u8, 108u8, 99u8, 111u8, 100u8, 101u8],
        0xF4u8 => seq![100u8, 101u8, 108u8, 101u8, 103u8, 97u8, 116u8, 101u8, 99u8, 97u8, 108u8, 108u8],
        0xF5u8 => seq![99u8, 114u8, 101u8, 97u8, 116u8, 101u8, 50u8],
        0xF7u8 => seq![114u8, 101u8, 116u8, 117u8, 114u8, 110u8, 100u8, 97u8, 116u8, 97u8, 108u8, 111u8, 97u8, 100u8],
        0xFAu8 => seq![115u8, 116u8, 97u8, 116u8, 105u8, 99u8, 99u8, 97u8, 108u8, 108u8],
        _ => Seq::empty(),
    }
}

/// Whether `op` is a known operation named `name`.
pub open spec fn names(op: u8, name: Seq<u8>) -> bool {
    opcode_arity(op) is Some && opcode_name(op) == name
}

/// The operation that `name` refers to, if any (the least one, should two
/// share a name).
pub open spec fn opcode_named(name: Seq<u8>) -> Option<u8> {
    if exists|op: u8| names(op, name) {
        Some(choose|op: u8| names(op, name) && forall|o: u8| o < op ==> !names(o, name))
    } else {
        None
    }
}

/// The stack effect of an operation, if the language knows it.
pub fn info(opcode: u8) -> (r: Option<OpcodeInfo>)
    ensures
        match opcode_arity(opcode) {
            Some((i, o)) => r == Some(OpcodeInfo { inputs: i as usize, outputs: o as usize }),
            None => r is None,
        },
{
    let (inputs, outputs): (usize, usize) = match opcode {
        0x00 => (0, 0),
        0x01 => (2, 1),
        0x02 => (2, 1),
        0x03 => (2, 1),
        0x04 => (2, 1),
        0x05 => (2, 1),
        0x06 => (2, 1),
        0x07 => (2, 1),
        0x08 => (3, 1),
        0x09 => (3, 1),
        0x0A => (2, 1),
        0x0B => (2, 1),
        0x10 => (2, 1),
        0x11 => (2, 1),
        0x12 => (2, 1),
        0x13 => (2, 1),
        0x14 => (2, 1),
        0x15 => (1, 1),
        0x16 => (2, 1),
        0x17 => (2, 1),
        0x18 => (2, 1),
        0x19 => (1, 1),
        0x1A => (2, 1),
        0x1B => (2, 1),
        0x1C => (2, 1),
        0x1D => (2, 1),
        0x20 => (2, 1),
        0x30 => (0, 1),
        0x31 => (1, 1),
        0x32 => (0, 1),
        0x33 => (0, 1),
        0x34 => (0, 1),
        0x35 => (1, 1),
        0x36 => (0, 1),
        0x37 => (3, 0),
        0x38 => (0, 1),
        0x39 => (3, 0),
        0x3A => (0, 1),
        0x3B => (1, 1),
        0x3C => (4, 0),
        0x3D => (0, 1),
        0x3E => (3, 0),
        0x3F => (1, 1),
        0x40 => (1, 1),
        0x41 => (0, 1),
        0x42 => (0, 1),
        0x43 => (0, 1),
        0x44 => (0, 1),
        0x45 => (0, 1),
        0x46 => (0, 1),
        0x47 => (0, 1),
        0x48 => (0, 1),
        0x49 => (1, 1),
        0x4A => (0, 1),
        0x50 => (1, 0),
        0x51 => (1, 1),
        0x52 => (2, 0),
        0x53 => (2, 0),
        0x54 => (1, 1),
        0x55 => (2, 0),
        0x58 => (0, 1),
        0x59 => (0, 1),
        0x5A => (0, 1),
        0x5B => (0, 0),
        0x5C => (1, 1),
        0x5D => (2, 0),
        0x5E => (3, 0),
        0xA0 => (2, 0),
        0xA1 => (3, 0),
        0xA2 => (4, 0),
        0xA3 => (5, 0),
        0xA4 => (6, 0),
        0xF0 => (3, 1),
        0xF1 => (7, 1),
        0xF2 => (7, 1),
        0xF4 => (6, 1),
        0xF5 => (4, 1),
        0xF7 => (1, 1),
        0xFA => (6, 1),
        _ => {
            return None;
        },
    };
    Some(OpcodeInfo { inputs, outputs })
}

fn name_of(opcode: u8) -> (r: Vec<u8>)
    ensures
        r@ == opcode_name(opcode),
{
    match opcode {
        0x00 => vec![115u8, 116u8, 111u8, 112u8],
        0x01 => vec![97u8, 100u8, 100u8],
        0x02 => vec![109u8, 117u8, 108u8],
        0x03 => vec![115u8, 117u8, 98u8],
        0x04 => vec![100u8, 105u8, 118u8],
        0x05 => vec![115u8, 100u8, 105u8, 118u8],
        0x06 => vec![109u8, 111u8, 100u8],
        0x07 => vec![115u8, 109u8, 111u8, 100u8],
        0x08 => vec![97u8, 100u8, 100u8, 109u8, 111u8, 100u8],
        0x09 => vec![109u8, 117u8, 108u8, 109u8, 111u8, 100u8],
        0x0A => vec![101u8, 120u8, 112u8],
        0x0B => vec![115u8, 105u8, 103u8, 110u8, 101u8, 120u8, 116u8, 101u8, 110u8, 100u8],
        0x10 => vec![108u8, 116u8],
        0x11 => vec![103u8, 116u8],
        0x12 => vec![115u8, 108u8, 116u8],
        0x13 => vec![115u8, 103u8, 116u8],
        0x14 => vec![101u8, 113u8],
        0x15 => vec![105u8, 115u8, 122u8, 101u8, 114u8, 111u8],
        0x16 => vec![97u8, 110u8, 100u8],
        0x17 => vec![111u8, 114u8],
        0x18 => vec![120u8, 111u8, 114u8],
        0x19 => vec![110u8, 111u8, 116u8],
        0x1A => vec![98u8, 121u8, 116u8, 101u8],
        0x1B => vec![115u8, 104u8, 108u8],
        0x1C => vec![115u8, 104u8, 114u8],
        0x1D => vec![115u8, 97u8, 114u8],
        0x20 => vec![107u8, 101u8, 99u8, 99u8, 97u8, 107u8, 50u8, 53u8, 54u8],
        0x30 => vec![97u8, 100u8, 100u8, 114u8, 101u8, 115u8, 115u8],
        0x31 => vec![98u8, 97u8, 108u8, 97u8, 110u8, 99u8, 101u8],
        0x32 => vec![111u8, 114u8, 105u8, 103u8, 105u8, 110u8],
        0x33 => vec![99u8, 97u8, 108u8, 108u8, 101u8, 114u8],
        0x34 => vec![99u8, 97u8, 108u8, 108u8, 118u8, 97u8, 108u8, 117u8, 101u8],
        0x35 => vec![99u8, 97u8, 108u8, 108u8, 100u8, 97u8, 116u8, 97u8, 108u8, 111u8, 97u8, 100u8],
        0x36 => vec![99u8, 97u8, 108u8, 108u8, 100u8, 97u8, 116u8, 97u8, 115u8, 105u8, 122u8, 101u8],
        0x37 => vec![99u8, 97u8, 108u8, 108u8, 100u8, 97u8, 116u8, 97u8, 99u8, 111u8, 112u8, 121u8],
        0x38 => vec![99u8, 111u8, 100u8, 101u8, 115u8, 105u8, 122u8, 101u8],
        0x39 => vec![99u8, 111u8, 100u8, 101u8, 99u8, 111u8, 112u8, 121u8],
        0x3A => vec![103u8, 97u8, 115u8, 112u8, 114u8, 105u8, 99u8, 101u8],
        0x3B => vec![101u8, 120u8, 116u8, 99u8, 111u8, 100u8, 101u8, 115u8, 105u8, 122u8, 101u8],
        0x3C => vec![101u8, 120u8, 116u8, 99u8, 111u8, 100u8, 101u8, 99u8, 111u8, 112u8, 121u8],
        0x3D => vec![114u8, 101u8, 116u8, 117u8, 114u8, 110u8, 100u8, 97u8, 116u8, 97u8, 115u8, 105u8, 122u8, 101u8],
        0x3E => vec![114u8, 101u8, 116u8, 117u8, 114u8, 110u8, 100u8, 97u8, 116u8, 97u8, 99u8, 111u8, 112u8, 121u8],
        0x3F => vec![101u8, 120u8, 116u8, 99u8, 111u8, 100u8, 101u8, 104u8, 97u8, 115u8, 104u8],
        0x40 => vec![98u8, 108u8, 111u8, 99u8, 107u8, 104u8, 97u8, 115u8, 104u8],
        0x41 => vec![99u8, 111u8, 105u8, 110u8, 98u8, 97u8, 115u8, 101u8],
        0x42 => vec![116u8, 105u8, 109u8, 101u8, 115u8, 116u8, 97u8, 109u8, 112u8],
        0x43 => vec![110u8, 117u8, 109u8, 98u8, 101u8, 114u8],
        0x44 => vec![100u8, 105u8, 102u8, 102u8, 105u8, 99u8, 117u8, 108u8, 116u8, 121u8],
        0x45 => vec![103u8, 97u8, 115u8, 108u8, 105u8, 109u8, 105u8, 116u8],
        0x46 => vec![99u8, 104u8, 97u8, 105u8, 110u8, 105u8, 100u8],
        0x47 => vec![115u8, 101u8, 108u8, 102u8, 98u8, 97u8, 108u8, 97u8, 110u8, 99u8, 101u8],
        0x48 => vec![98u8, 97u8, 115u8, 101u8, 102u8, 101u8, 101u8],
        0x49 => vec![98u8, 108u8, 111u8, 98u8, 104u8, 97u8, 115u8, 104u8],
        0x4A => vec![98u8, 108u8, 111u8, 98u8, 98u8, 97u8, 115u8, 101u8, 102u8, 101u8, 101u8],
        0x50 => vec![112u8, 111u8, 112u8],
        0x51 => vec![109u8, 108u8, 111u8, 97u8, 100u8],
        0x52 => vec![109u8, 115u8, 116u8, 111u8, 114u8, 101u8],
        0x53 => vec![109u8, 115u8, 116u8, 111u8, 114u8, 101u8, 56u8],
        0x54 => vec![115u8, 108u8, 111u8, 97u8, 100u8],
        0x55 => vec![115u8, 115u8, 116u8, 111u8, 114u8, 101u8],
        0x58 => vec![112u8, 99u8],
        0x59 => vec![109u8, 115u8, 105u8, 122u8, 101u8],
        0x5A => vec![103u8, 97u8, 115u8],
        0x5B => vec![106u8, 117u8, 109u8, 112u8, 100u8, 101u8, 115u8, 116u8],
        0x5C => vec![116u8, 108u8, 111u8, 97u8, 100u8],
        0x5D => vec![116u8, 115u8, 116u8, 111u8, 114u8, 101u8],
        0x5E => vec![109u8, 99u8, 111u8, 112u8, 121u8],
        0xA0 => vec![108u8, 111u8, 103u8, 48u8],
        0xA1 => vec![108u8, 111u8, 103u8, 49u8],
        0xA2 => vec![108u8, 111u8, 103u8, 50u8],
        0xA3 => vec![108u8, 111u8, 103u8, 51u8],
        0xA4 => vec![108u8, 111u8, 103u8, 52u8],
        0xF0 => vec![99u8, 114u8, 101u8, 97u8, 116u8, 101u8],
        0xF1 => vec![99u8, 97u8, 108u8, 108u8],
        0xF2 => vec![99u8, 97u8, 108u8, 108u8, 99u8, 111u8, 100u8, 101u8],
        0xF4 => vec![100u8, 101u8, 108u8, 101u8, 103u8, 97u8, 116u8, 101u8, 99u8, 97u8, 108u8, 108u8],
        0xF5 => vec![99u8, 114u8, 101u8, 97u8, 116u8, 101u8, 50u8],
        0xF7 => vec![114u8, 101u8, 116u8, 117u8, 114u8, 110u8, 100u8, 97u8, 116u8, 97u8, 108u8, 111u8, 97u8, 100u8],
        0xFA => vec![115u8, 116u8, 97u8, 116u8, 105u8, 99u8, 99u8, 97u8, 108u8, 108u8],
        _ => Vec::new(),
    }
}

/// Looks an operation up by the bytes of its name.
pub fn lookup_bytes(name: &[u8]) -> (r: Option<u8>)
    ensures
        r == opcode_named(name@),
{
    let mut op: u16 = 0;
    while op < 256
        invariant
            op <= 256,
            forall|o: u8| (o as u16) < op ==> !names(o, name@),
        decreases 256 - op,
    {
        let o = op as u8;
        let known = info(o).is_some();
        if known {
            let n = name_of(o);
            if bytes_eq(n.as_slice(), name) {
                proof {
                    assert(names(o, name@));
                    let c = choose|c: u8| names(c, name@) && forall|x: u8| x < c ==> !names(x, name@);
                    assert(c == o) by {
                        if c < o {
                            assert((c as u16) < op);
                        } else if o < c {
                        }
                    }
                }
                return Some(o);
            }
        }
        op = op + 1;
    }
    assert forall|o: u8| !names(o, name@) by {
        assert((o as u16) < op);
    }
    None
}

/// Looks an operation up by name.
pub fn lookup(name: &str) -> (r: Option<u8>)
    ensures
        r == opcode_named(name.spec_bytes()),
{
    lookup_bytes(name.as_bytes())
}

/// Every operation that `lookup` can return has a known stack effect.
pub proof fn lemma_lookup_known(name: Seq<u8>)
    ensures
        opcode_named(name) matches Some(op) ==> opcode_arity(op) is Some,
{
}

} // verus!
