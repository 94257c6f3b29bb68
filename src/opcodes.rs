//! Byte values of the opcodes that the compiler reads or emits.
use vstd::prelude::*;

verus! {

/// Pushes the empty byte string (`OP_0`, `OP_FALSE`).
pub const OP_PUSHBYTES_0: u8 = 0x00;

/// The largest opcode that pushes the bytes that follow it directly.
pub const OP_PUSHBYTES_75: u8 = 0x4b;

pub const OP_PUSHDATA1: u8 = 0x4c;

pub const OP_PUSHDATA2: u8 = 0x4d;

pub const OP_PUSHDATA4: u8 = 0x4e;

pub const OP_PUSHNUM_NEG1: u8 = 0x4f;

/// Pushes the number 1 (`OP_TRUE`).
pub const OP_PUSHNUM_1: u8 = 0x51;

pub const OP_PUSHNUM_2: u8 = 0x52;

pub const OP_PUSHNUM_4: u8 = 0x54;

pub const OP_PUSHNUM_8: u8 = 0x58;

pub const OP_PUSHNUM_16: u8 = 0x60;

pub const OP_IF: u8 = 0x63;

pub const OP_NOTIF: u8 = 0x64;

pub const OP_ELSE: u8 = 0x67;

pub const OP_ENDIF: u8 = 0x68;

pub const OP_2DROP: u8 = 0x6d;

pub const OP_DEPTH: u8 = 0x74;

pub const OP_DROP: u8 = 0x75;

pub const OP_NOT: u8 = 0x91;

pub const OP_GREATERTHANOREQUAL: u8 = 0xa2;

/// The unconditional success terminator: halt with success.
pub const OP_RETURN_199: u8 = 0xc7;

/// The conditional success terminator: pop a value and halt with success if it is true.
pub const OP_RETURN_200: u8 = 0xc8;

} // verus!
