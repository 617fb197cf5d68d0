//! The scope and variable tree of a trace, built from the flat stream of
//! hierarchy events, with its lookup tables.

use std::collections::HashMap;
use vstd::prelude::*;
use vstd::hash_map::StringHashMap;
use vstd::string::StrSliceExecFns;
use crate::codes;
use crate::text::chars_of;
use crate::text::parse_i32;
use crate::text::parse_i32_spec;
use crate::text::is_digit;
use crate::text::unsigned_part;
use crate::text::dotted;
use crate::text::join_dotted;
use crate::text::texts_of;

verus! {

broadcast use vstd::std_specs::hash::group_hash_axioms;

/// The identity of a signal's value-change storage. Variables that alias one
/// another share it.
#[derive(Debug, Copy, Clone, Hash, PartialEq, Eq, PartialOrd, Ord, Structural)]
pub struct SignalRef(pub usize);

/// The position of a scope in the hierarchy's scope arena.
#[derive(Debug, Copy, Clone, Hash, PartialEq, Eq, PartialOrd, Ord, Structural)]
pub struct ScopeRef(pub usize);

/// The position of a variable in the hierarchy's variable arena.
#[derive(Debug, Copy, Clone, Hash, PartialEq, Eq, PartialOrd, Ord, Structural)]
pub struct VarRef(pub usize);

/// The bit range that a variable's declared name ends in.
#[derive(Debug, Copy, Clone, PartialEq, Eq, Structural)]
pub struct VarIndex {
    pub msb: i32,
    pub lsb: i32,
}

impl VarIndex {
    pub fn new(msb: i32, lsb: i32) -> (r: Self)
        ensures
            r == (VarIndex { msb, lsb }),
    {
        VarIndex { msb, lsb }
    }
}

/// The kind of a scope.
#[derive(Debug, Clone, Copy, PartialEq, Eq, Structural)]
pub enum ScopeType {
    Module,
    Task,
    Function,
    Begin,
    Fork,
    Generate,
    Struct,
    Union,
    Class,
    Interface,
    Package,
    Program,
    VhdlArchitecture,
    VhdlProcedure,
    VhdlFunction,
    VhdlRecord,
    VhdlProcess,
    VhdlBlock,
    VhdlForGenerate,
    VhdlIfGenerate,
    VhdlGenerate,
    VhdlPackage,
    GhwGeneric,
    VhdlArray,
    Unknown,
}

impl ScopeType {
    /// The scope kind that the trace's code `typ` names; `Unknown` for a code
    /// outside the six that the trace format defines for Verilog scopes.
    pub open spec fn of_code(typ: u8) -> ScopeType {
        if typ == codes::FST_ST_VCD_MODULE {
            ScopeType::Module
        } else if typ == codes::FST_ST_VCD_TASK {
            ScopeType::Task
        } else if typ == codes::FST_ST_VCD_FUNCTION {
            ScopeType::Function
        } else if typ == codes::FST_ST_VCD_BEGIN {
            ScopeType::Begin
        } else if typ == codes::FST_ST_VCD_FORK {
            ScopeType::Fork
        } else if typ == codes::FST_ST_VCD_GENERATE {
            ScopeType::Generate
        } else {
            ScopeType::Unknown
        }
    }

    /// The name under which a scope kind is shown. The kinds of VHDL and GHW
    /// have none of their own and show as `unknown`.
    pub open spec fn label_of(self) -> Seq<char> {
        match self {
            ScopeType::Module => "module"@,
            ScopeType::Task => "task"@,
            ScopeType::Function => "function"@,
            ScopeType::Begin => "begin"@,
            ScopeType::Fork => "fork"@,
            ScopeType::Generate => "generate"@,
            ScopeType::Struct => "struct"@,
            ScopeType::Union => "union"@,
            ScopeType::Class => "class"@,
            ScopeType::Interface => "interface"@,
            ScopeType::Package => "package"@,
            ScopeType::Program => "program"@,
            _ => "unknown"@,
        }
    }

    pub fn label(&self) -> (r: &'static str)
        ensures
            r@ == self.label_of(),
    {
        match self {
            ScopeType::Module => "module",
            ScopeType::Task => "task",
            ScopeType::Function => "function",
            ScopeType::Begin => "begin",
            ScopeType::Fork => "fork",
            ScopeType::Generate => "generate",
            ScopeType::Struct => "struct",
            ScopeType::Union => "union",
            ScopeType::Class => "class",
            ScopeType::Interface => "interface",
            ScopeType::Package => "package",
            ScopeType::Program => "program",
            _ => "unknown",
        }
    }

    pub fn from_fst(typ: u8) -> (r: Self)
        ensures
            r == Self::of_code(typ),
    {
        match typ {
            codes::FST_ST_VCD_MODULE => ScopeType::Module,
            codes::FST_ST_VCD_TASK => ScopeType::Task,
            codes::FST_ST_VCD_FUNCTION => ScopeType::Function,
            codes::FST_ST_VCD_BEGIN => ScopeType::Begin,
            codes::FST_ST_VCD_FORK => ScopeType::Fork,
            codes::FST_ST_VCD_GENERATE => ScopeType::Generate,
            _ => ScopeType::Unknown,
        }
    }
}

/// The kind of a variable.
#[derive(Debug, Clone, Copy, PartialEq, Eq, Structural)]
pub enum VarType {
    Event,
    Integer,
    Parameter,
    Real,
    Reg,
    Supply0,
    Supply1,
    Time,
    Tri,
    TriAnd,
    TriOr,
    TriReg,
    Tri0,
    Tri1,
    WAnd,
    Wire,
    WOr,
    String,
    Port,
    SparseArray,
    RealTime,
    Bit,
    Logic,
    Int,
    ShortInt,
    LongInt,
    Byte,
    Enum,
    ShortReal,
    Boolean,
    BitVector,
    StdLogic,
    StdLogicVector,
    StdULogic,
    StdULogicVector,
}

impl VarType {
    /// The variable kind that the trace's code `typ` names. Both codes for
    /// reals give `Real`, both codes for strings give `String`, and a code
    /// that names no kind gives `Wire`.
    pub open spec fn of_code(typ: u8) -> VarType {
        if typ == codes::FST_VT_VCD_EVENT {
            VarType::Event
        } else if typ == codes::FST_VT_VCD_INTEGER {
            VarType::Integer
        } else if typ == codes::FST_VT_VCD_PARAMETER {
            VarType::Parameter
        } else if typ == codes::FST_VT_VCD_REAL || typ == codes::FST_VT_VCD_REAL_PARAMETER {
            VarType::Real
        } else if typ == codes::FST_VT_VCD_REG {
            VarType::Reg
        } else if typ == codes::FST_VT_VCD_SUPPLY0 {
            VarType::Supply0
        } else if typ == codes::FST_VT_VCD_SUPPLY1 {
            VarType::Supply1
        } else if typ == codes::FST_VT_VCD_TIME {
            VarType::Time
        } else if typ == codes::FST_VT_VCD_TRI {
            VarType::Tri
        } else if typ == codes::FST_VT_VCD_TRIAND {
            VarType::TriAnd
        } else if typ == codes::FST_VT_VCD_TRIOR {
            VarType::TriOr
        } else if typ == codes::FST_VT_VCD_TRIREG {
            VarType::TriReg
        } else if typ == codes::FST_VT_VCD_TRI0 {
            VarType::Tri0
        } else if typ == codes::FST_VT_VCD_TRI1 {
            VarType::Tri1
        } else if typ == codes::FST_VT_VCD_WAND {
            VarType::WAnd
        } else if typ == codes::FST_VT_VCD_WIRE {
            VarType::Wire
        } else if typ == codes::FST_VT_VCD_WOR {
            VarType::WOr
        } else if typ == codes::FST_VT_VCD_STRING || typ == codes::FST_VT_GEN_STRING {
            VarType::String
        } else if typ == codes::FST_VT_VCD_PORT {
            VarType::Port
        } else if typ == codes::FST_VT_VCD_SPARRAY {
            VarType::SparseArray
        } else if typ == codes::FST_VT_VCD_REALTIME {
            VarType::RealTime
        } else if typ == codes::FST_VT_SV_BIT {
            VarType::Bit
        } else if typ == codes::FST_VT_SV_LOGIC {
            VarType::Logic
        } else if typ == codes::FST_VT_SV_INT {
            VarType::Int
        } else if typ == codes::FST_VT_SV_SHORTINT {
            VarType::ShortInt
        } else if typ == codes::FST_VT_SV_LONGINT {
            VarType::LongInt
        } else if typ == codes::FST_VT_SV_BYTE {
            VarType::Byte
        } else if typ == codes::FST_VT_SV_ENUM {
            VarType::Enum
        } else if typ == codes::FST_VT_SV_SHORTREAL {
            VarType::ShortReal
        } else {
            VarType::Wire
        }
    }

    pub fn from_fst(typ: u8) -> (r: Self)
        ensures
            r == Self::of_code(typ),
    {
        match typ {
            codes::FST_VT_VCD_EVENT => VarType::Event,
            codes::FST_VT_VCD_INTEGER => VarType::Integer,
            codes::FST_VT_VCD_PARAMETER => VarType::Parameter,
            codes::FST_VT_VCD_REAL | codes::FST_VT_VCD_REAL_PARAMETER => VarType::Real,
            codes::FST_VT_VCD_REG => VarType::Reg,
            codes::FST_VT_VCD_SUPPLY0 => VarType::Supply0,
            codes::FST_VT_VCD_SUPPLY1 => VarType::Supply1,
            codes::FST_VT_VCD_TIME => VarType::Time,
            codes::FST_VT_VCD_TRI => VarType::Tri,
            codes::FST_VT_VCD_TRIAND => VarType::TriAnd,
            codes::FST_VT_VCD_TRIOR => VarType::TriOr,
            codes::FST_VT_VCD_TRIREG => VarType::TriReg,
            codes::FST_VT_VCD_TRI0 => VarType::Tri0,
            codes::FST_VT_VCD_TRI1 => VarType::Tri1,
            codes::FST_VT_VCD_WAND => VarType::WAnd,
            codes::FST_VT_VCD_WIRE => VarType::Wire,
            codes::FST_VT_VCD_WOR => VarType::WOr,
            codes::FST_VT_VCD_STRING | codes::FST_VT_GEN_STRING => VarType::String,
            codes::FST_VT_VCD_PORT => VarType::Port,
            codes::FST_VT_VCD_SPARRAY => VarType::SparseArray,
            codes::FST_VT_VCD_REALTIME => VarType::RealTime,
            codes::FST_VT_SV_BIT => VarType::Bit,
            codes::FST_VT_SV_LOGIC => VarType::Logic,
            codes::FST_VT_SV_INT => VarType::Int,
            codes::FST_VT_SV_SHORTINT => VarType::ShortInt,
            codes::FST_VT_SV_LONGINT => VarType::LongInt,
            codes::FST_VT_SV_BYTE => VarType::Byte,
            codes::FST_VT_SV_ENUM => VarType::Enum,
            codes::FST_VT_SV_SHORTREAL => VarType::ShortReal,
            _ => VarType::Wire,
        }
    }

    /// The name under which a variable kind is shown.
    pub open spec fn label_of(self) -> Seq<char> {
        match self {
            VarType::Event => "Event"@,
            VarType::Integer => "Integer"@,
            VarType::Parameter => "Parameter"@,
            VarType::Real => "Real"@,
            VarType::Reg => "Reg"@,
            VarType::Supply0 => "Supply0"@,
            VarType::Supply1 => "Supply1"@,
            VarType::Time => "Time"@,
            VarType::Tri => "Tri"@,
            VarType::TriAnd => "TriAnd"@,
            VarType::TriOr => "TriOr"@,
            VarType::TriReg => "TriReg"@,
            VarType::Tri0 => "Tri0"@,
            VarType::Tri1 => "Tri1"@,
            VarType::WAnd => "WAnd"@,
            VarType::Wire => "Wire"@,
            VarType::WOr => "WOr"@,
            VarType::String => "String"@,
            VarType::Port => "Port"@,
            VarType::SparseArray => "SparseArray"@,
            VarType::RealTime => "RealTime"@,
            VarType::Bit => "Bit"@,
            VarType::Logic => "Logic"@,
            VarType::Int => "Int"@,
            VarType::ShortInt => "ShortInt"@,
            VarType::LongInt => "LongInt"@,
            VarType::Byte => "Byte"@,
            VarType::Enum => "Enum"@,
            VarType::ShortReal => "ShortReal"@,
            VarType::Boolean => "Boolean"@,
            VarType::BitVector => "BitVector"@,
            VarType::StdLogic => "StdLogic"@,
            VarType::StdLogicVector => "StdLogicVector"@,
            VarType::StdULogic => "StdULogic"@,
            VarType::StdULogicVector => "StdULogicVector"@,
        }
    }

    pub fn label(&self) -> (r: &'static str)
        ensures
            r@ == self.label_of(),
    {
        match self {
            VarType::Event => "Event",
            VarType::Integer => "Integer",
            VarType::Parameter => "Parameter",
            VarType::Real => "Real",
            VarType::Reg => "Reg",
            VarType::Supply0 => "Supply0",
            VarType::Supply1 => "Supply1",
            VarType::Time => "Time",
            VarType::Tri => "Tri",
            VarType::TriAnd => "TriAnd",
            VarType::TriOr => "TriOr",
            VarType::TriReg => "TriReg",
            VarType::Tri0 => "Tri0",
            VarType::Tri1 => "Tri1",
            VarType::WAnd => "WAnd",
            VarType::Wire => "Wire",
            VarType::WOr => "WOr",
            VarType::String => "String",
            VarType::Port => "Port",
            VarType::SparseArray => "SparseArray",
            VarType::RealTime => "RealTime",
            VarType::Bit => "Bit",
            VarType::Logic => "Logic",
            VarType::Int => "Int",
            VarType::ShortInt => "ShortInt",
            VarType::LongInt => "LongInt",
            VarType::Byte => "Byte",
            VarType::Enum => "Enum",
            VarType::ShortReal => "ShortReal",
            VarType::Boolean => "Boolean",
            VarType::BitVector => "BitVector",
            VarType::StdLogic => "StdLogic",
            VarType::StdLogicVector => "StdLogicVector",
            VarType::StdULogic => "StdULogic",
            VarType::StdULogicVector => "StdULogicVector",
        }
    }

    /// Whether samples of such a variable are real numbers.
    pub open spec fn spec_is_real(&self) -> bool {
        *self == VarType::Real || *self == VarType::RealTime || *self == VarType::ShortReal
    }

    #[verifier::when_used_as_spec(spec_is_real)]
    pub fn is_real(&self) -> (r: bool)
        ensures
            r == self.spec_is_real(),
    {
        matches!(self, VarType::Real | VarType::RealTime | VarType::ShortReal)
    }

    /// Whether samples of such a variable are free text.
    pub open spec fn spec_is_string(&self) -> bool {
        *self == VarType::String
    }

    #[verifier::when_used_as_spec(spec_is_string)]
    pub fn is_string(&self) -> (r: bool)
        ensures
            r == self.spec_is_string(),
    {
        matches!(self, VarType::String)
    }
}

/// The direction of a port.
#[derive(Debug, Clone, Copy, PartialEq, Eq, Structural)]
pub enum VarDirection {
    Unknown,
    Implicit,
    Input,
    Output,
    InOut,
    Buffer,
    Linkage,
}

impl VarDirection {
    /// The direction that the trace's code `dir` names; `Unknown` for a code
    /// outside the four that the trace format defines.
    pub open spec fn of_code(dir: u8) -> VarDirection {
        if dir == codes::FST_VD_IMPLICIT {
            VarDirection::Implicit
        } else if dir == codes::FST_VD_INPUT {
            VarDirection::Input
        } else if dir == codes::FST_VD_OUTPUT {
            VarDirection::Output
        } else if dir == codes::FST_VD_INOUT {
            VarDirection::InOut
        } else {
            VarDirection::Unknown
        }
    }

    /// The name under which a direction is shown.
    pub open spec fn label_of(self) -> Seq<char> {
        match self {
            VarDirection::Unknown => "Unknown"@,
            VarDirection::Implicit => "Implicit"@,
            VarDirection::Input => "Input"@,
            VarDirection::Output => "Output"@,
            VarDirection::InOut => "InOut"@,
            VarDirection::Buffer => "Buffer"@,
            VarDirection::Linkage => "Linkage"@,
        }
    }

    pub fn label(&self) -> (r: &'static str)
        ensures
            r@ == self.label_of(),
    {
        match self {
            VarDirection::Unknown => "Unknown",
            VarDirection::Implicit => "Implicit",
            VarDirection::Input => "Input",
            VarDirection::Output => "Output",
            VarDirection::InOut => "InOut",
            VarDirection::Buffer => "Buffer",
            VarDirection::Linkage => "Linkage",
        }
    }

    pub fn from_fst(dir: u8) -> (r: Self)
        ensures
            r == Self::of_code(dir),
    {
        match dir {
            codes::FST_VD_IMPLICIT => VarDirection::Implicit,
            codes::FST_VD_INPUT => VarDirection::Input,
            codes::FST_VD_OUTPUT => VarDirection::Output,
            codes::FST_VD_INOUT => VarDirection::InOut,
            _ => VarDirection::Unknown,
        }
    }
}

/// A named grouping node of the design: a module, a task, a generate block
/// and the like.
#[derive(Debug)]
pub struct Scope {
    pub name: String,
    pub scope_type: ScopeType,
    pub parent: Option<ScopeRef>,
    pub children: Vec<ScopeRef>,
    pub vars: Vec<VarRef>,
}

/// What a [`Scope`] holds, as mathematical sequences.
pub struct ScopeView {
    pub name: Seq<char>,
    pub scope_type: ScopeType,
    pub parent: Option<ScopeRef>,
    pub children: Seq<ScopeRef>,
    pub vars: Seq<VarRef>,
}

impl View for Scope {
    type V = ScopeView;

    open spec fn view(&self) -> ScopeView {
        ScopeView {
            name: self.name@,
            scope_type: self.scope_type,
            parent: self.parent,
            children: self.children@,
            vars: self.vars@,
        }
    }
}

impl Clone for Scope {
    fn clone(&self) -> (r: Self)
        ensures
            r@ == self@,
    {
        let children = self.children.clone();
        let vars = self.vars.clone();
        assert(children@ =~= self.children@);
        assert(vars@ =~= self.vars@);
        Scope {
            name: self.name.clone(),
            scope_type: self.scope_type,
            parent: self.parent,
            children,
            vars,
        }
    }
}

impl Scope {
    /// A scope without children and without variables.
    pub fn new(name: String, scope_type: ScopeType, parent: Option<ScopeRef>) -> (r: Self)
        ensures
            r@ == (ScopeView {
                name: name@,
                scope_type,
                parent,
                children: Seq::empty(),
                vars: Seq::empty(),
            }),
    {
        Scope { name, scope_type, parent, children: Vec::new(), vars: Vec::new() }
    }
}

/// A declared variable.
#[derive(Debug)]
pub struct Var {
    /// The declared name without its bit range.
    pub name: String,
    pub var_type: VarType,
    pub direction: VarDirection,
    pub length: Option<u32>,
    pub signal_ref: SignalRef,
    /// The bit range that the declared name ended in.
    pub index: Option<VarIndex>,
    pub scope: Option<ScopeRef>,
    pub fst_handle: codes::FstHandle,
}

/// What a [`Var`] holds, with its name as a sequence of characters.
pub struct VarView {
    pub name: Seq<char>,
    pub var_type: VarType,
    pub direction: VarDirection,
    pub length: Option<u32>,
    pub signal_ref: SignalRef,
    pub index: Option<VarIndex>,
    pub scope: Option<ScopeRef>,
    pub fst_handle: codes::FstHandle,
}

impl View for Var {
    type V = VarView;

    open spec fn view(&self) -> VarView {
        VarView {
            name: self.name@,
            var_type: self.var_type,
            direction: self.direction,
            length: self.length,
            signal_ref: self.signal_ref,
            index: self.index,
            scope: self.scope,
            fst_handle: self.fst_handle,
        }
    }
}

impl Clone for Var {
    fn clone(&self) -> (r: Self)
        ensures
            r@ == self@,
    {
        Var {
            name: self.name.clone(),
            var_type: self.var_type,
            direction: self.direction,
            length: self.length,
            signal_ref: self.signal_ref,
            index: self.index,
            scope: self.scope,
            fst_handle: self.fst_handle,
        }
    }
}

/// The variable that a declaration makes: the declared name is parted into
/// display name and bit range, everything else is kept as given.
pub open spec fn declared_var(
    name: Seq<char>,
    var_type: VarType,
    direction: VarDirection,
    length: Option<u32>,
    signal_ref: SignalRef,
    fst_handle: codes::FstHandle,
    scope: Option<ScopeRef>,
) -> VarView {
    VarView {
        name: parse_bit_range_spec(name).0,
        var_type,
        direction,
        length,
        signal_ref,
        index: parse_bit_range_spec(name).1,
        scope,
        fst_handle,
    }
}

impl Var {
    /// A variable declared under `name`, which may end in a bit range.
    pub fn new(
        name: String,
        var_type: VarType,
        direction: VarDirection,
        length: Option<u32>,
        signal_ref: SignalRef,
        fst_handle: codes::FstHandle,
        scope: Option<ScopeRef>,
    ) -> (r: Self)
        ensures
            r@ == declared_var(name@, var_type, direction, length, signal_ref, fst_handle, scope),
    {
        let (clean_name, index) = parse_bit_range(name.as_str());
        Var { name: clean_name, var_type, direction, length, signal_ref, index, scope, fst_handle }
    }

    /// Whether samples of the variable are real numbers.
    pub fn is_real(&self) -> (r: bool)
        ensures
            r == self.var_type.spec_is_real(),
    {
        self.var_type.is_real()
    }

    /// Whether samples of the variable are free text.
    pub fn is_string(&self) -> (r: bool)
        ensures
            r == self.var_type.spec_is_string(),
    {
        self.var_type.is_string()
    }

    /// Whether the variable is a single bit: neither text nor a real, and of
    /// declared length one or of no declared length.
    pub fn is_1bit(&self) -> (r: bool)
        ensures
            r == (!self.var_type.spec_is_string() && !self.var_type.spec_is_real() && (
            self.length is None || self.length == Some(1u32))),
    {
        if self.is_string() || self.is_real() {
            return false;
        }
        match self.length {
            Some(n) => n == 1,
            None => true,
        }
    }

    /// The declared length in bits.
    pub fn bitwidth(&self) -> (r: Option<u32>)
        ensures
            r == self.length,
    {
        self.length
    }
}

/// The unit of time that one tick of the trace stands for.
#[derive(Debug, Clone, Copy, PartialEq, Eq, Structural)]
pub enum TimescaleUnit {
    Zeptoseconds,
    Attoseconds,
    Femtoseconds,
    Picoseconds,
    Nanoseconds,
    Microseconds,
    Milliseconds,
    Seconds,
    Unknown,
}

impl TimescaleUnit {
    /// The unit that is ten to the power `exp` seconds, where there is one.
    pub open spec fn of_exponent(exp: i8) -> TimescaleUnit {
        if exp == -21 {
            TimescaleUnit::Zeptoseconds
        } else if exp == -18 {
            TimescaleUnit::Attoseconds
        } else if exp == -15 {
            TimescaleUnit::Femtoseconds
        } else if exp == -12 {
            TimescaleUnit::Picoseconds
        } else if exp == -9 {
            TimescaleUnit::Nanoseconds
        } else if exp == -6 {
            TimescaleUnit::Microseconds
        } else if exp == -3 {
            TimescaleUnit::Milliseconds
        } else if exp == 0 {
            TimescaleUnit::Seconds
        } else {
            TimescaleUnit::Unknown
        }
    }

    /// The power of ten that the unit is, in seconds.
    pub open spec fn exponent(self) -> Option<i8> {
        match self {
            TimescaleUnit::Zeptoseconds => Some(-21i8),
            TimescaleUnit::Attoseconds => Some(-18i8),
            TimescaleUnit::Femtoseconds => Some(-15i8),
            TimescaleUnit::Picoseconds => Some(-12i8),
            TimescaleUnit::Nanoseconds => Some(-9i8),
            TimescaleUnit::Microseconds => Some(-6i8),
            TimescaleUnit::Milliseconds => Some(-3i8),
            TimescaleUnit::Seconds => Some(0i8),
            TimescaleUnit::Unknown => None,
        }
    }

    /// The abbreviation of the unit.
    pub open spec fn suffix_of(self) -> Seq<char> {
        match self {
            TimescaleUnit::Zeptoseconds => "zs"@,
            TimescaleUnit::Attoseconds => "as"@,
            TimescaleUnit::Femtoseconds => "fs"@,
            TimescaleUnit::Picoseconds => "ps"@,
            TimescaleUnit::Nanoseconds => "ns"@,
            TimescaleUnit::Microseconds => "us"@,
            TimescaleUnit::Milliseconds => "ms"@,
            TimescaleUnit::Seconds => "s"@,
            TimescaleUnit::Unknown => "unknown"@,
        }
    }

    pub fn suffix(&self) -> (r: &'static str)
        ensures
            r@ == self.suffix_of(),
    {
        match self {
            TimescaleUnit::Zeptoseconds => "zs",
            TimescaleUnit::Attoseconds => "as",
            TimescaleUnit::Femtoseconds => "fs",
            TimescaleUnit::Picoseconds => "ps",
            TimescaleUnit::Nanoseconds => "ns",
            TimescaleUnit::Microseconds => "us",
            TimescaleUnit::Milliseconds => "ms",
            TimescaleUnit::Seconds => "s",
            TimescaleUnit::Unknown => "unknown",
        }
    }

    pub fn from_exponent(exp: i8) -> (r: Self)
        ensures
            r == Self::of_exponent(exp),
    {
        match exp {
            -21 => TimescaleUnit::Zeptoseconds,
            -18 => TimescaleUnit::Attoseconds,
            -15 => TimescaleUnit::Femtoseconds,
            -12 => TimescaleUnit::Picoseconds,
            -9 => TimescaleUnit::Nanoseconds,
            -6 => TimescaleUnit::Microseconds,
            -3 => TimescaleUnit::Milliseconds,
            0 => TimescaleUnit::Seconds,
            _ => TimescaleUnit::Unknown,
        }
    }

    pub fn to_exponent(&self) -> (r: Option<i8>)
        ensures
            r == self.exponent(),
    {
        match self {
            TimescaleUnit::Zeptoseconds => Some(-21),
            TimescaleUnit::Attoseconds => Some(-18),
            TimescaleUnit::Femtoseconds => Some(-15),
            TimescaleUnit::Picoseconds => Some(-12),
            TimescaleUnit::Nanoseconds => Some(-9),
            TimescaleUnit::Microseconds => Some(-6),
            TimescaleUnit::Milliseconds => Some(-3),
            TimescaleUnit::Seconds => Some(0),
            TimescaleUnit::Unknown => None,
        }
    }
}

/// A unit of time turns into its exponent and back; an exponent that names a
/// unit turns into that unit and back.
pub proof fn lemma_timescale_unit_round_trip(unit: TimescaleUnit, exp: i8)
    ensures
        unit.exponent() matches Some(e) ==> TimescaleUnit::of_exponent(e) == unit,
        TimescaleUnit::of_exponent(exp) != TimescaleUnit::Unknown ==> TimescaleUnit::of_exponent(
            exp,
        ).exponent() == Some(exp),
{
}

/// The time that one tick of the trace stands for: `factor` times `unit`.
#[derive(Debug, Clone, Copy, PartialEq, Eq, Structural)]
pub struct Timescale {
    pub factor: u32,
    pub unit: TimescaleUnit,
}

impl Timescale {
    pub fn new(factor: u32, unit: TimescaleUnit) -> (r: Self)
        ensures
            r == (Timescale { factor, unit }),
    {
        Timescale { factor, unit }
    }

    /// The timescale of a trace that records ten to the power `exp` seconds
    /// per tick.
    pub fn from_fst_exponent(exp: i8) -> (r: Self)
        ensures
            r == (Timescale { factor: 1, unit: TimescaleUnit::of_exponent(exp) }),
    {
        let unit = TimescaleUnit::from_exponent(exp);
        Timescale { factor: 1, unit }
    }
}

/// The position of the last `c` in `s`, if `c` occurs.
pub open spec fn last_index_of(s: Seq<char>, c: char) -> Option<int>
    decreases s.len(),
{
    if s.len() == 0 {
        None
    } else if s.last() == c {
        Some(s.len() - 1)
    } else {
        last_index_of(s.drop_last(), c)
    }
}

/// The position of the first `c` in `s`, if `c` occurs.
pub open spec fn first_index_of(s: Seq<char>, c: char) -> Option<int>
    decreases s.len(),
{
    if s.len() == 0 {
        None
    } else {
        match first_index_of(s.drop_last(), c) {
            Some(i) => Some(i),
            None => if s.last() == c {
                Some(s.len() - 1)
            } else {
                None
            },
        }
    }
}

/// The bit range written by the text between a pair of brackets: `msb:lsb`
/// with two signed decimal integers around the first colon, or one signed
/// decimal integer standing for both.
pub open spec fn range_index(range: Seq<char>) -> Option<VarIndex> {
    let pair = match first_index_of(range, ':') {
        Some(colon) => match (
            parse_i32_spec(range.subrange(0, colon)),
            parse_i32_spec(range.subrange(colon + 1, range.len() as int)),
        ) {
            (Some(msb), Some(lsb)) => Some(VarIndex { msb, lsb }),
            _ => None,
        },
        None => None,
    };
    match pair {
        Some(index) => Some(index),
        None => match parse_i32_spec(range) {
            Some(i) => Some(VarIndex { msb: i, lsb: i }),
            None => None,
        },
    }
}

/// A declared name parted into display name and bit range. The range is what
/// stands between the last `[` and the last `]`, where that `]` follows that
/// `[` and the text between them writes a range; the display name is then
/// what precedes the `[`. Any other name is left whole, without a range.
pub open spec fn parse_bit_range_spec(name: Seq<char>) -> (Seq<char>, Option<VarIndex>) {
    match (last_index_of(name, '['), last_index_of(name, ']')) {
        (Some(open), Some(close)) => if close > open {
            match range_index(name.subrange(open + 1, close)) {
                Some(index) => (name.subrange(0, open), Some(index)),
                None => (name, None),
            }
        } else {
            (name, None)
        },
        _ => (name, None),
    }
}

/// The position of the last `c` in `chars`.
fn find_last(chars: &Vec<char>, c: char) -> (r: Option<usize>)
    ensures
        match r {
            Some(i) => last_index_of(chars@, c) == Some(i as int) && i < chars@.len(),
            None => last_index_of(chars@, c) is None,
        },
{
    let mut r: Option<usize> = None;
    let mut i: usize = 0;
    while i < chars.len()
        invariant
            i <= chars.len(),
            match r {
                Some(k) => last_index_of(chars@.take(i as int), c) == Some(k as int) && k < i,
                None => last_index_of(chars@.take(i as int), c) is None,
            },
        decreases chars.len() - i,
    {
        assert(chars@.take(i + 1).drop_last() =~= chars@.take(i as int));
        if chars[i] == c {
            r = Some(i);
        }
        i += 1;
    }
    assert(chars@.take(i as int) =~= chars@);
    r
}

/// The position of the first `c` in `chars[from..to]`, counted from `from`.
fn find_first(chars: &Vec<char>, from: usize, to: usize, c: char) -> (r: Option<usize>)
    requires
        from <= to <= chars@.len(),
    ensures
        match r {
            Some(i) => first_index_of(chars@.subrange(from as int, to as int), c) == Some(i as int)
                && i < to - from,
            None => first_index_of(chars@.subrange(from as int, to as int), c) is None,
        },
{
    let ghost range = chars@.subrange(from as int, to as int);
    let mut i: usize = from;
    while i < to
        invariant
            from <= i <= to <= chars@.len(),
            range == chars@.subrange(from as int, to as int),
            first_index_of(range.take(i - from), c) is None,
        decreases to - i,
    {
        assert(range.take(i - from + 1).drop_last() =~= range.take(i - from));
        if chars[i] == c {
            proof {
                lemma_first_index_prefix(range, i - from + 1, c);
            }
            return Some(i - from);
        }
        i += 1;
    }
    assert(range.take(i - from) =~= range);
    None
}

/// Where a prefix of `s` holds a `c`, the first `c` of `s` is the first `c`
/// of that prefix.
pub proof fn lemma_first_index_prefix(s: Seq<char>, n: int, c: char)
    requires
        0 <= n <= s.len(),
        first_index_of(s.take(n), c) is Some,
    ensures
        first_index_of(s, c) == first_index_of(s.take(n), c),
    decreases s.len() - n,
{
    if n == s.len() {
        assert(s.take(n) =~= s);
    } else {
        assert(s.drop_last().take(n) =~= s.take(n));
        lemma_first_index_prefix(s.drop_last(), n, c);
    }
}

/// Parts a declared name into display name and bit range.
pub fn parse_bit_range(name: &str) -> (r: (String, Option<VarIndex>))
    ensures
        (r.0@, r.1) == parse_bit_range_spec(name@),
{
    let chars = chars_of(name);
    if let Some(open) = find_last(&chars, '[') {
        if let Some(close) = find_last(&chars, ']') {
            if close > open {
                let ghost range = chars@.subrange(open + 1, close as int);
                let mut index: Option<VarIndex> = None;
                if let Some(colon) = find_first(&chars, open + 1, close, ':') {
                    assert(range.subrange(0, colon as int) =~= chars@.subrange(
                        open + 1,
                        open + 1 + colon,
                    ));
                    assert(range.subrange(colon + 1, range.len() as int) =~= chars@.subrange(
                        open + 1 + colon + 1,
                        close as int,
                    ));
                    let msb = parse_i32(&chars, open + 1, open + 1 + colon);
                    let lsb = parse_i32(&chars, open + 1 + colon + 1, close);
                    if let (Some(msb), Some(lsb)) = (msb, lsb) {
                        index = Some(VarIndex::new(msb, lsb));
                    }
                }
                if index.is_none() {
                    if let Some(i) = parse_i32(&chars, open + 1, close) {
                        index = Some(VarIndex::new(i, i));
                    }
                }
                assert(index == range_index(range));
                if index.is_some() {
                    let base = name.substring_char(0, open);
                    return (base.to_owned(), index);
                }
            }
        }
    }
    (name.to_owned(), None)
}


/// The scope and variable tree of one trace.
///
/// Scopes and variables live in two arenas and name one another by position.
/// A hierarchy is built once and read afterwards.
pub struct Hierarchy {
    pub scopes: Vec<Scope>,
    pub vars: Vec<Var>,
    /// Each variable by its full dotted path.
    pub path_to_var: StringHashMap<VarRef>,
    /// The signal identity given to each handle of the trace.
    pub signal_ref_map: HashMap<codes::FstHandle, SignalRef>,
    pub timescale: Option<Timescale>,
    pub date: String,
    pub version: String,
    pub file_format: String,
}

/// What a [`Hierarchy`] holds, as mathematical sequences and maps.
pub struct HierarchyView {
    pub scopes: Seq<ScopeView>,
    pub vars: Seq<VarView>,
    pub path_to_var: Map<Seq<char>, VarRef>,
    pub signal_ref_map: Map<codes::FstHandle, SignalRef>,
    pub timescale: Option<Timescale>,
    pub date: Seq<char>,
    pub version: Seq<char>,
    pub file_format: Seq<char>,
}

impl View for Hierarchy {
    type V = HierarchyView;

    open spec fn view(&self) -> HierarchyView {
        HierarchyView {
            scopes: self.scopes@.map_values(|s: Scope| s@),
            vars: self.vars@.map_values(|v: Var| v@),
            path_to_var: self.path_to_var@,
            signal_ref_map: self.signal_ref_map@,
            timescale: self.timescale,
            date: self.date@,
            version: self.version@,
            file_format: self.file_format@,
        }
    }
}

/// The names of the scopes from the outermost one down to `scope`. Climbing
/// stops at a scope whose parent is not older than itself, which no
/// well-formed hierarchy holds.
pub open spec fn scope_path(scopes: Seq<ScopeView>, scope: ScopeRef) -> Seq<Seq<char>>
    decreases scope.0,
{
    if scope.0 < scopes.len() {
        let here = scopes[scope.0 as int];
        match here.parent {
            Some(p) => if p.0 < scope.0 {
                scope_path(scopes, p).push(here.name)
            } else {
                seq![here.name]
            },
            None => seq![here.name],
        }
    } else {
        Seq::empty()
    }
}

/// The names of the scopes from the outermost one down to `scope`, or
/// nothing where there is no scope.
pub open spec fn scope_path_of(scopes: Seq<ScopeView>, scope: Option<ScopeRef>) -> Seq<Seq<char>> {
    match scope {
        Some(s) => scope_path(scopes, s),
        None => Seq::empty(),
    }
}

/// The full dotted name of `var`: the names of its scopes from the outermost
/// one down, then its own display name.
pub open spec fn full_name(scopes: Seq<ScopeView>, var: VarView) -> Seq<char> {
    dotted(scope_path_of(scopes, var.scope).push(var.name))
}

/// Whether every reference held in the arenas and in the path table names an
/// entry of its arena, and every parent is older than its children, so that
/// the scopes form a forest.
pub open spec fn refs_valid(
    scopes: Seq<ScopeView>,
    vars: Seq<VarView>,
    path_to_var: Map<Seq<char>, VarRef>,
) -> bool {
    &&& forall|i: int|
        0 <= i < scopes.len() ==> ((#[trigger] scopes[i]).parent matches Some(p) ==> p.0 < i)
    &&& forall|i: int, k: int|
        0 <= i < scopes.len() && 0 <= k < scopes[i].children.len() ==> (
        #[trigger] scopes[i].children[k]).0 < scopes.len()
    &&& forall|i: int, k: int|
        0 <= i < scopes.len() && 0 <= k < scopes[i].vars.len() ==> (#[trigger] scopes[i].vars[k]).0
            < vars.len()
    &&& forall|v: int|
        0 <= v < vars.len() ==> ((#[trigger] vars[v]).scope matches Some(s) ==> s.0 < scopes.len())
    &&& forall|path: Seq<char>| #[trigger]
        path_to_var.contains_key(path) ==> path_to_var[path].0 < vars.len()
}

/// Whether signal identities stand one for one for the handles of the trace:
/// each variable's identity is the one recorded for its handle, and no two
/// handles share an identity.
pub open spec fn signals_deduplicated(
    vars: Seq<VarView>,
    signal_ref_map: Map<codes::FstHandle, SignalRef>,
) -> bool {
    &&& forall|v: int|
        0 <= v < vars.len() ==> signal_ref_map.contains_key((#[trigger] vars[v]).fst_handle)
            && signal_ref_map[vars[v].fst_handle] == vars[v].signal_ref
    &&& forall|h1: codes::FstHandle, h2: codes::FstHandle|
        signal_ref_map.contains_key(h1) && signal_ref_map.contains_key(h2)
            && #[trigger] signal_ref_map[h1] == #[trigger] signal_ref_map[h2] ==> h1 == h2
}

/// Whether every variable is registered in the path table under its full
/// name, and the variable found under that name has that full name. Where two
/// variables have one full name, the table holds one of them.
pub open spec fn paths_registered(
    scopes: Seq<ScopeView>,
    vars: Seq<VarView>,
    path_to_var: Map<Seq<char>, VarRef>,
) -> bool {
    forall|v: int|
        0 <= v < vars.len() ==> {
            let path = full_name(scopes, #[trigger] vars[v]);
            &&& path_to_var.contains_key(path)
            &&& path_to_var[path].0 < vars.len()
            &&& full_name(scopes, vars[path_to_var[path].0 as int]) == path
        }
}

/// The parent that the scope at `scope` names.
pub open spec fn parent_at(scopes: Seq<ScopeView>, scope: ScopeRef) -> Option<ScopeRef> {
    scopes[scope.0 as int].parent
}

/// The children that the scope at `scope` lists.
pub open spec fn children_at(scopes: Seq<ScopeView>, scope: ScopeRef) -> Seq<ScopeRef> {
    scopes[scope.0 as int].children
}

/// The variables that the scope at `scope` lists.
pub open spec fn vars_at(scopes: Seq<ScopeView>, scope: ScopeRef) -> Seq<VarRef> {
    scopes[scope.0 as int].vars
}

/// The scope that the variable at `var` names.
pub open spec fn scope_of(vars: Seq<VarView>, var: VarRef) -> Option<ScopeRef> {
    vars[var.0 as int].scope
}

/// Whether the links of the tree agree in both directions: the children of
/// a scope are the scopes that name it as parent, the variables of a scope are
/// the variables that name it as scope, and both lists are in order of
/// creation.
#[verifier::opaque]
pub open spec fn tree_linked(scopes: Seq<ScopeView>, vars: Seq<VarView>) -> bool {
    &&& forall|p: ScopeRef, k: int|
        p.0 < scopes.len() && 0 <= k < children_at(scopes, p).len() ==> {
            let child = #[trigger] children_at(scopes, p)[k];
            child.0 < scopes.len() && parent_at(scopes, child) == Some(p)
        }
    &&& forall|c: ScopeRef|
        c.0 < scopes.len() ==> (#[trigger] parent_at(scopes, c) matches Some(p) ==> p.0
            < scopes.len() && children_at(scopes, p).contains(c))
    &&& forall|s: ScopeRef, k: int|
        s.0 < scopes.len() && 0 <= k < vars_at(scopes, s).len() ==> {
            let var = #[trigger] vars_at(scopes, s)[k];
            var.0 < vars.len() && scope_of(vars, var) == Some(s)
        }
    &&& forall|v: VarRef|
        v.0 < vars.len() ==> (#[trigger] scope_of(vars, v) matches Some(s) ==> s.0 < scopes.len()
            && vars_at(scopes, s).contains(v))
    &&& forall|p: ScopeRef, k: int, m: int|
        p.0 < scopes.len() && 0 <= k < m < children_at(scopes, p).len() ==> (
        #[trigger] children_at(scopes, p)[k]).0 < (#[trigger] children_at(scopes, p)[m]).0
    &&& forall|s: ScopeRef, k: int, m: int|
        s.0 < scopes.len() && 0 <= k < m < vars_at(scopes, s).len() ==> (
        #[trigger] vars_at(scopes, s)[k]).0 < (#[trigger] vars_at(scopes, s)[m]).0
}

/// Whether the signal identities are the numbers from zero up to the number
/// of handles: every identity given to a handle is below that number. With
/// no identity given twice, every number below it is the identity of a
/// handle.
pub open spec fn identities_dense(signal_ref_map: Map<codes::FstHandle, SignalRef>) -> bool {
    &&& signal_ref_map.dom().finite()
    &&& forall|h: codes::FstHandle| #[trigger]
        signal_ref_map.contains_key(h) ==> signal_ref_map[h].0 < signal_ref_map.dom().len()
}

impl HierarchyView {
    /// Whether the hierarchy is well formed: its references are valid, its
    /// scopes form a forest, and its signal identities stand one for one for
    /// the handles of the trace.
    pub open spec fn wf(self) -> bool {
        refs_valid(self.scopes, self.vars, self.path_to_var) && signals_deduplicated(
            self.vars,
            self.signal_ref_map,
        )
    }
}

impl Hierarchy {
    /// Every variable, in order of declaration.
    pub fn all_vars(&self) -> (r: &Vec<Var>)
        ensures
            r == &self.vars,
    {
        &self.vars
    }

    /// The scopes without a parent, in order of creation.
    pub fn top_scopes(&self) -> (r: Vec<&Scope>)
        ensures
            r@.len() == self.scopes@.filter(|s: Scope| s.parent is None).len(),
            forall|i: int|
                0 <= i < r@.len() ==> *(#[trigger] r@[i]) == self.scopes@.filter(
                    |s: Scope| s.parent is None,
                )[i],
    {
        let ghost top = |s: Scope| s.parent is None;
        let mut out: Vec<&Scope> = Vec::new();
        let mut i: usize = 0;
        while i < self.scopes.len()
            invariant
                i <= self.scopes@.len(),
                top == |s: Scope| s.parent is None,
                out@.len() == self.scopes@.take(i as int).filter(top).len(),
                forall|k: int|
                    0 <= k < out@.len() ==> *(#[trigger] out@[k]) == self.scopes@.take(
                        i as int,
                    ).filter(top)[k],
            decreases self.scopes@.len() - i,
        {
            proof {
                reveal(Seq::filter);
                assert(self.scopes@.take(i + 1).drop_last() =~= self.scopes@.take(i as int));
            }
            if self.scopes[i].parent.is_none() {
                out.push(&self.scopes[i]);
            }
            i += 1;
        }
        assert(self.scopes@.take(i as int) =~= self.scopes@);
        out
    }

    /// The variable at `var_ref`, if the arena holds one there.
    pub fn get_var(&self, var_ref: VarRef) -> (r: Option<&Var>)
        ensures
            r == if var_ref.0 < self.vars@.len() {
                Some(&self.vars@[var_ref.0 as int])
            } else {
                None
            },
    {
        if var_ref.0 < self.vars.len() {
            Some(&self.vars[var_ref.0])
        } else {
            None
        }
    }

    /// The scope at `scope_ref`, if the arena holds one there.
    pub fn get_scope(&self, scope_ref: ScopeRef) -> (r: Option<&Scope>)
        ensures
            r == if scope_ref.0 < self.scopes@.len() {
                Some(&self.scopes@[scope_ref.0 as int])
            } else {
                None
            },
    {
        if scope_ref.0 < self.scopes.len() {
            Some(&self.scopes[scope_ref.0])
        } else {
            None
        }
    }

    /// The variable registered under the full dotted path `path`.
    pub fn var_by_path(&self, path: &str) -> (r: Option<&Var>)
        ensures
            r == if self.path_to_var@.contains_key(path@) && self.path_to_var@[path@].0
                < self.vars@.len() {
                Some(&self.vars@[self.path_to_var@[path@].0 as int])
            } else {
                None
            },
    {
        match self.path_to_var.get(path) {
            Some(var_ref) => self.get_var(*var_ref),
            None => None,
        }
    }

    /// The names of the scopes from the outermost one down to `scope`.
    fn names_down_to(&self, scope: Option<ScopeRef>) -> (path: Vec<String>)
        ensures
            texts_of(path@) == scope_path_of(self@.scopes, scope),
    {
        let ghost scopes = self@.scopes;
        let mut climbed: Vec<String> = Vec::new();
        let mut current: Option<ScopeRef> = scope;
        loop
            invariant_except_break
                scopes == self@.scopes,
                scope_path_of(scopes, scope) == scope_path_of(scopes, current) + texts_of(
                    climbed@,
                ).reverse(),
            ensures
                scope_path_of(scopes, scope) == texts_of(climbed@).reverse(),
            decreases
                    match current {
                        Some(s) => s.0 + 1,
                        None => 0,
                    },
        {
            let here: usize = match current {
                Some(s) => s.0,
                None => {
                    assert(scope_path_of(scopes, current) + texts_of(climbed@).reverse()
                        =~= texts_of(climbed@).reverse());
                    break ;
                },
            };
            if here >= self.scopes.len() {
                assert(scope_path_of(scopes, current) + texts_of(climbed@).reverse() =~= texts_of(
                    climbed@,
                ).reverse());
                break ;
            }
            let scope = &self.scopes[here];
            assert(scopes[here as int] == scope@);
            let next: Option<ScopeRef> = match scope.parent {
                Some(p) => if p.0 < here {
                    Some(p)
                } else {
                    None
                },
                None => None,
            };
            let ghost before = texts_of(climbed@);
            climbed.push(scope.name.clone());
            proof {
                let after = texts_of(climbed@);
                assert(after =~= before.push(scope.name@));
                assert(scope_path_of(scopes, current) =~= scope_path_of(scopes, next).push(
                    scope.name@,
                ));
                lemma_reverse_push(before, scope.name@);
                assert(scope_path_of(scopes, next).push(scope.name@) + before.reverse()
                    =~= scope_path_of(scopes, next) + after.reverse());
            }
            current = next;
        }
        let mut path: Vec<String> = Vec::new();
        while climbed.len() > 0
            invariant
                texts_of(path@) + texts_of(climbed@).reverse() == scope_path_of(scopes, scope),
            decreases climbed.len(),
        {
            let ghost before = texts_of(climbed@);
            let ghost done = texts_of(path@);
            let name = climbed.pop().unwrap();
            path.push(name);
            proof {
                assert(texts_of(climbed@) =~= before.drop_last());
                assert(texts_of(path@) =~= done.push(before.last()));
                lemma_reverse_push(before.drop_last(), before.last());
                assert(before.drop_last().push(before.last()) =~= before);
                assert(done.push(before.last()) + before.drop_last().reverse() =~= done
                    + before.reverse());
            }
        }
        proof {
            assert(texts_of(climbed@).reverse() =~= Seq::<Seq<char>>::empty());
            assert(texts_of(path@) =~= scope_path_of(scopes, scope));
        }
        path
    }

    /// The full dotted name of `var`: its scopes from the outermost one down,
    /// then its display name. The bit range is no part of it.
    pub fn var_full_name(&self, var: &Var) -> (r: String)
        ensures
            r@ == full_name(self@.scopes, var@),
    {
        let mut path = self.names_down_to(var.scope);
        let ghost scoped = texts_of(path@);
        path.push(var.name.clone());
        assert(texts_of(path@) =~= scoped.push(var.name@));
        join_dotted(&path)
    }

    /// The full dotted name of `scope`: the scopes above it from the
    /// outermost one down, then its own name.
    pub fn scope_full_name(&self, scope: &Scope) -> (r: String)
        ensures
            r@ == dotted(scope_path_of(self@.scopes, scope.parent).push(scope.name@)),
    {
        let mut path = self.names_down_to(scope.parent);
        let ghost scoped = texts_of(path@);
        path.push(scope.name.clone());
        assert(texts_of(path@) =~= scoped.push(scope.name@));
        join_dotted(&path)
    }
}

/// Reversing a sequence with one more element at its end puts that element
/// first.
pub proof fn lemma_reverse_push(s: Seq<Seq<char>>, last: Seq<char>)
    ensures
        s.push(last).reverse() =~= seq![last] + s.reverse(),
{
    let r = s.push(last).reverse();
    let t = seq![last] + s.reverse();
    assert(r.len() == t.len());
    assert forall|i: int| 0 <= i < r.len() implies r[i] == t[i] by {
        if i > 0 {
            assert(s.reverse()[i - 1] == s[s.len() - 1 - (i - 1)]);
        }
    }
}

/// A position that holds `c` and has no `c` after it is the last position of
/// `c`.
pub proof fn lemma_last_index_of(s: Seq<char>, c: char, i: int)
    requires
        0 <= i < s.len(),
        s[i] == c,
        forall|j: int| i < j < s.len() ==> s[j] != c,
    ensures
        last_index_of(s, c) == Some(i),
    decreases s.len(),
{
    if i < s.len() - 1 {
        lemma_last_index_of(s.drop_last(), c, i);
    }
}

/// A text without `c` has no last position of `c`.
pub proof fn lemma_last_index_of_absent(s: Seq<char>, c: char)
    requires
        forall|j: int| 0 <= j < s.len() ==> s[j] != c,
    ensures
        last_index_of(s, c) is None,
    decreases s.len(),
{
    if s.len() > 0 {
        lemma_last_index_of_absent(s.drop_last(), c);
    }
}

/// A position that holds `c` and has no `c` before it is the first position
/// of `c`.
pub proof fn lemma_first_index_of(s: Seq<char>, c: char, i: int)
    requires
        0 <= i < s.len(),
        s[i] == c,
        forall|j: int| 0 <= j < i ==> s[j] != c,
    ensures
        first_index_of(s, c) == Some(i),
    decreases s.len(),
{
    if i < s.len() - 1 {
        lemma_first_index_of(s.drop_last(), c, i);
    } else {
        lemma_first_index_of_absent(s.drop_last(), c);
    }
}

/// A text without `c` has no first position of `c`.
pub proof fn lemma_first_index_of_absent(s: Seq<char>, c: char)
    requires
        forall|j: int| 0 <= j < s.len() ==> s[j] != c,
    ensures
        first_index_of(s, c) is None,
    decreases s.len(),
{
    if s.len() > 0 {
        lemma_first_index_of_absent(s.drop_last(), c);
    }
}

/// A text that writes an integer holds digits and at most a sign: no
/// bracket and no colon.
pub proof fn lemma_integer_text_is_plain(text: Seq<char>)
    requires
        parse_i32_spec(text) is Some,
    ensures
        forall|j: int|
            0 <= j < text.len() ==> #[trigger] text[j] != '[' && text[j] != ']' && text[j] != ':',
{
    let digits = unsigned_part(text);
    assert forall|j: int| 0 <= j < text.len() implies #[trigger] text[j] != '[' && text[j] != ']'
        && text[j] != ':' by {
        if digits.len() == text.len() {
            assert(is_digit(digits[j]));
        } else if j > 0 {
            assert(is_digit(digits[j - 1]));
            assert(digits[j - 1] == text[j]);
        }
    }
}

/// A name that ends in `[msb:lsb]`, with two integers between the brackets,
/// parts into what precedes the bracket and the range from `msb` to `lsb`,
/// whatever precedes the bracket.
pub proof fn lemma_bracketed_range(base: Seq<char>, msb_text: Seq<char>, lsb_text: Seq<char>)
    requires
        parse_i32_spec(msb_text) is Some,
        parse_i32_spec(lsb_text) is Some,
    ensures
        parse_bit_range_spec(base + seq!['['] + msb_text + seq![':'] + lsb_text + seq![']']) == (
            base,
            Some(
                VarIndex { msb: parse_i32_spec(msb_text)->0, lsb: parse_i32_spec(lsb_text)->0 },
            ),
        ),
{
    let range = msb_text + seq![':'] + lsb_text;
    let name = base + seq!['['] + msb_text + seq![':'] + lsb_text + seq![']'];
    let open = base.len() as int;
    let close = name.len() - 1;
    lemma_integer_text_is_plain(msb_text);
    lemma_integer_text_is_plain(lsb_text);
    assert forall|j: int| 0 <= j < range.len() implies #[trigger] range[j] != '[' && range[j]
        != ']' by {
        if j < msb_text.len() {
            assert(range[j] == msb_text[j]);
        } else if j > msb_text.len() {
            assert(range[j] == lsb_text[j - msb_text.len() - 1]);
        }
    }
    assert(name.subrange(open + 1, close) =~= range);
    assert forall|j: int| open < j < name.len() implies name[j] != '[' by {
        if j < close {
            assert(name[j] == range[j - open - 1]);
        }
    }
    lemma_last_index_of(name, '[', open);
    lemma_last_index_of(name, ']', close);
    assert forall|j: int| 0 <= j < msb_text.len() implies range[j] != ':' by {
        assert(range[j] == msb_text[j]);
    }
    lemma_first_index_of(range, ':', msb_text.len() as int);
    assert(range.subrange(0, msb_text.len() as int) =~= msb_text);
    assert(range.subrange(msb_text.len() as int + 1, range.len() as int) =~= lsb_text);
    assert(name.subrange(0, open) =~= base);
}

/// A name that ends in `[i]`, with one integer between the brackets, parts
/// into what precedes the bracket and the range from `i` to `i`.
pub proof fn lemma_bracketed_index(base: Seq<char>, index_text: Seq<char>)
    requires
        parse_i32_spec(index_text) is Some,
    ensures
        parse_bit_range_spec(base + seq!['['] + index_text + seq![']']) == (
            base,
            Some(
                VarIndex {
                    msb: parse_i32_spec(index_text)->0,
                    lsb: parse_i32_spec(index_text)->0,
                },
            ),
        ),
{
    let name = base + seq!['['] + index_text + seq![']'];
    let open = base.len() as int;
    let close = name.len() - 1;
    lemma_integer_text_is_plain(index_text);
    assert(name.subrange(open + 1, close) =~= index_text);
    assert forall|j: int| open < j < name.len() implies name[j] != '[' by {
        if j < close {
            assert(name[j] == index_text[j - open - 1]);
        }
    }
    lemma_last_index_of(name, '[', open);
    lemma_last_index_of(name, ']', close);
    lemma_first_index_of_absent(index_text, ':');
    assert(name.subrange(0, open) =~= base);
}

/// A name that lacks one of the two brackets is left whole, without a range.
pub proof fn lemma_unbracketed(name: Seq<char>)
    requires
        !name.contains('[') || !name.contains(']'),
    ensures
        parse_bit_range_spec(name) == (name, None::<VarIndex>),
{
    if !name.contains('[') {
        assert forall|j: int| 0 <= j < name.len() implies name[j] != '[' by {
            if name[j] == '[' {
                assert(name.contains('['));
            }
        }
        lemma_last_index_of_absent(name, '[');
    } else {
        assert forall|j: int| 0 <= j < name.len() implies name[j] != ']' by {
            if name[j] == ']' {
                assert(name.contains(']'));
            }
        }
        lemma_last_index_of_absent(name, ']');
    }
}

/// Whatever parting a name gives, a name that keeps no range is left whole,
/// and one that keeps a range keeps a proper prefix of itself as display
/// name.
pub proof fn lemma_parted_name(name: Seq<char>)
    ensures
        parse_bit_range_spec(name).1 is None ==> parse_bit_range_spec(name).0 == name,
        parse_bit_range_spec(name).1 is Some ==> exists|n: int|
            0 <= n < name.len() && parse_bit_range_spec(name).0 == #[trigger] name.subrange(0, n),
{
    if parse_bit_range_spec(name).1 is Some {
        let open = last_index_of(name, '[')->0;
        lemma_last_index_bounds(name, '[');
        assert(parse_bit_range_spec(name).0 == name.subrange(0, open));
    }
}

/// The last position of `c`, where there is one, lies within the text and
/// holds `c`.
pub proof fn lemma_last_index_bounds(s: Seq<char>, c: char)
    ensures
        last_index_of(s, c) matches Some(i) ==> 0 <= i < s.len() && s[i] == c,
    decreases s.len(),
{
    if s.len() > 0 && s.last() != c {
        lemma_last_index_bounds(s.drop_last(), c);
    }
}

/// In a well-formed hierarchy two variables share a signal identity exactly
/// when the trace declared them with the same handle.
pub proof fn lemma_alias_dedup(h: HierarchyView, i: int, j: int)
    requires
        h.wf(),
        0 <= i < h.vars.len(),
        0 <= j < h.vars.len(),
    ensures
        h.vars[i].fst_handle == h.vars[j].fst_handle <==> h.vars[i].signal_ref
            == h.vars[j].signal_ref,
{
    let a = h.vars[i];
    let b = h.vars[j];
    assert(h.signal_ref_map[a.fst_handle] == a.signal_ref);
    assert(h.signal_ref_map[b.fst_handle] == b.signal_ref);
}

/// The path of a scope depends on the names and parents of the scopes up
/// to it and on nothing else.
pub proof fn lemma_scope_path_stable(before: Seq<ScopeView>, after: Seq<ScopeView>, scope: ScopeRef)
    requires
        before.len() <= after.len(),
        scope.0 < before.len(),
        forall|i: int|
            0 <= i < before.len() ==> (#[trigger] after[i]).name == before[i].name && after[i].parent
                == before[i].parent,
    ensures
        scope_path(after, scope) == scope_path(before, scope),
    decreases scope.0,
{
    let here = before[scope.0 as int];
    assert(after[scope.0 as int].name == here.name);
    assert(after[scope.0 as int].parent == here.parent);
    match here.parent {
        Some(p) => {
            if p.0 < scope.0 {
                lemma_scope_path_stable(before, after, p);
            }
        },
        None => {},
    }
}

} // verus!
