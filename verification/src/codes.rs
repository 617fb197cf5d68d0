//! The numeric codes by which a trace names its hierarchy entries, scope
//! kinds, variable kinds and port directions.

use vstd::prelude::*;

verus! {

/// The handle by which the trace names the storage of a signal.
pub type FstHandle = u32;

// Hierarchy entries.
pub const FST_HT_SCOPE: u8 = 0;
pub const FST_HT_UPSCOPE: u8 = 1;
pub const FST_HT_VAR: u8 = 2;
pub const FST_HT_ATTRBEGIN: u8 = 3;
pub const FST_HT_ATTREND: u8 = 4;
pub const FST_HT_TREEBEGIN: u8 = 5;
pub const FST_HT_TREEEND: u8 = 6;

// Scope kinds.
pub const FST_ST_VCD_MODULE: u8 = 0;
pub const FST_ST_VCD_TASK: u8 = 1;
pub const FST_ST_VCD_FUNCTION: u8 = 2;
pub const FST_ST_VCD_BEGIN: u8 = 3;
pub const FST_ST_VCD_FORK: u8 = 4;
pub const FST_ST_VCD_GENERATE: u8 = 5;

// Variable kinds.
pub const FST_VT_VCD_EVENT: u8 = 0;
pub const FST_VT_VCD_INTEGER: u8 = 1;
pub const FST_VT_VCD_PARAMETER: u8 = 2;
pub const FST_VT_VCD_REAL: u8 = 3;
pub const FST_VT_VCD_REG: u8 = 5;
pub const FST_VT_VCD_SUPPLY0: u8 = 6;
pub const FST_VT_VCD_SUPPLY1: u8 = 7;
pub const FST_VT_VCD_TIME: u8 = 8;
pub const FST_VT_VCD_TRI: u8 = 9;
pub const FST_VT_VCD_TRIAND: u8 = 10;
pub const FST_VT_VCD_TRIOR: u8 = 11;
pub const FST_VT_VCD_TRIREG: u8 = 12;
pub const FST_VT_VCD_TRI0: u8 = 13;
pub const FST_VT_VCD_TRI1: u8 = 14;
pub const FST_VT_VCD_WAND: u8 = 15;
pub const FST_VT_VCD_WIRE: u8 = 16;
pub const FST_VT_VCD_WOR: u8 = 17;
pub const FST_VT_VCD_PORT: u8 = 18;
pub const FST_VT_VCD_SPARRAY: u8 = 19;
pub const FST_VT_VCD_REALTIME: u8 = 20;
pub const FST_VT_GEN_STRING: u8 = 21;
pub const FST_VT_SV_BIT: u8 = 22;
pub const FST_VT_SV_LOGIC: u8 = 23;
pub const FST_VT_SV_INT: u8 = 24;
pub const FST_VT_SV_SHORTINT: u8 = 25;
pub const FST_VT_SV_LONGINT: u8 = 26;
pub const FST_VT_SV_BYTE: u8 = 27;
pub const FST_VT_SV_ENUM: u8 = 28;
pub const FST_VT_SV_SHORTREAL: u8 = 29;
pub const FST_VT_VCD_STRING: u8 = 253;
pub const FST_VT_VCD_REAL_PARAMETER: u8 = 254;

// Port directions.
pub const FST_VD_IMPLICIT: u8 = 0;
pub const FST_VD_INPUT: u8 = 1;
pub const FST_VD_OUTPUT: u8 = 2;
pub const FST_VD_INOUT: u8 = 3;

} // verus!
