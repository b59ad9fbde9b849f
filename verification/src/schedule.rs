//! The schedule of one kernel as the code generator reads it: the variables
//! in register order, and the kernel's parameter environment.

use vstd::prelude::*;
use crate::trace::{ParamType, VarType, VarId, spec_prefix};
use crate::text::{decimal, push_decimal};

verus! {

/// A variable of a kernel schedule: its type, how it is bound to the
/// parameter table (`buf` is its buffer's index there), its number of
/// elements, its register, and whether it is a literal parameter.
#[derive(Debug, Clone, Copy, PartialEq, Eq)]
pub struct ScheduleVar {
    pub ty: VarType,
    pub param_ty: ParamType,
    pub buf: Option<usize>,
    pub size: usize,
    pub reg: usize,
    pub literal: bool,
}

/// The name of a register: its type's prefix and its index.
pub open spec fn reg_text(v: ScheduleVar) -> Seq<char> {
    spec_prefix(v.ty) + decimal(v.reg as nat)
}

/// The name of a type variant.
pub open spec fn var_type_name(ty: VarType) -> Seq<char> {
    match ty {
        VarType::Bool => "Bool"@,
        VarType::I8 => "I8"@,
        VarType::U8 => "U8"@,
        VarType::I16 => "I16"@,
        VarType::U16 => "U16"@,
        VarType::I32 => "I32"@,
        VarType::U32 => "U32"@,
        VarType::I64 => "I64"@,
        VarType::U64 => "U64"@,
        VarType::Ptr => "Ptr"@,
        VarType::F16 => "F16"@,
        VarType::F32 => "F32"@,
        VarType::F64 => "F64"@,
    }
}

/// The name of a parameter binding variant.
pub open spec fn param_type_name(p: ParamType) -> Seq<char> {
    match p {
        ParamType::Unbound => "Unbound"@,
        ParamType::Input => "Input"@,
        ParamType::Output => "Output"@,
        ParamType::Literal => "Literal"@,
    }
}

/// The text of an optional index.
pub open spec fn option_text(o: Option<usize>) -> Seq<char> {
    match o {
        Some(b) => "Some("@ + decimal(b as nat) + ")"@,
        None => "None"@,
    }
}

/// The text of a flag.
pub open spec fn bool_text(b: bool) -> Seq<char> {
    if b {
        "true"@
    } else {
        "false"@
    }
}

/// The debug text of a schedule variable, field by field.
pub open spec fn debug_text(v: ScheduleVar) -> Seq<char> {
    "ScheduleVar { ty: "@ + var_type_name(v.ty) + ", param_ty: "@ + param_type_name(v.param_ty)
        + ", buf: "@ + option_text(v.buf) + ", size: "@ + decimal(v.size as nat) + ", reg: "@
        + decimal(v.reg as nat) + ", literal: "@ + bool_text(v.literal) + " }"@
}

impl VarType {
    /// The name of this variant.
    pub fn variant_name(&self) -> (r: &'static str)
        ensures
            r@ == var_type_name(*self),
    {
        match self {
            VarType::Bool => "Bool",
            VarType::I8 => "I8",
            VarType::U8 => "U8",
            VarType::I16 => "I16",
            VarType::U16 => "U16",
            VarType::I32 => "I32",
            VarType::U32 => "U32",
            VarType::I64 => "I64",
            VarType::U64 => "U64",
            VarType::Ptr => "Ptr",
            VarType::F16 => "F16",
            VarType::F32 => "F32",
            VarType::F64 => "F64",
        }
    }
}

impl ParamType {
    /// The name of this variant.
    pub fn variant_name(&self) -> (r: &'static str)
        ensures
            r@ == param_type_name(*self),
    {
        match self {
            ParamType::Unbound => "Unbound",
            ParamType::Input => "Input",
            ParamType::Output => "Output",
            ParamType::Literal => "Literal",
        }
    }
}

impl ScheduleVar {
    /// Whether this variable is a literal parameter.
    pub fn is_literal(&self) -> (r: bool)
        ensures
            r == self.literal,
    {
        self.literal
    }

    /// Appends the name of this variable's register.
    pub fn push_reg(&self, s: &mut String)
        ensures
            final(s)@ == old(s)@ + reg_text(*self),
    {
        s.append(self.ty.prefix());
        push_decimal(s, self.reg);
        assert(final(s)@ == old(s)@ + spec_prefix(self.ty) + decimal(self.reg as nat));
    }

    /// The name of this variable's register.
    pub fn reg(&self) -> (r: String)
        ensures
            r@ == reg_text(*self),
    {
        let mut s = String::new();
        self.push_reg(&mut s);
        assert(s@ == Seq::<char>::empty() + reg_text(*self));
        s
    }

    /// Appends the debug text of this variable.
    pub fn push_debug(&self, s: &mut String)
        ensures
            final(s)@ == old(s)@ + debug_text(*self),
    {
        let ghost s0 = s@;
        s.append("ScheduleVar { ty: ");
        s.append(self.ty.variant_name());
        s.append(", param_ty: ");
        s.append(self.param_ty.variant_name());
        s.append(", buf: ");
        let ghost s1 = s@;
        assert(s1 =~= s0 + ("ScheduleVar { ty: "@ + var_type_name(self.ty) + ", param_ty: "@
            + param_type_name(self.param_ty) + ", buf: "@));
        push_option(s, self.buf);
        s.append(", size: ");
        push_decimal(s, self.size);
        s.append(", reg: ");
        push_decimal(s, self.reg);
        s.append(", literal: ");
        push_bool(s, self.literal);
        s.append(" }");
        assert(s@ =~= s0 + debug_text(*self));
    }
}

/// Appends the text of an optional index.
fn push_option(s: &mut String, o: Option<usize>)
    ensures
        final(s)@ == old(s)@ + option_text(o),
{
    match o {
        Some(b) => {
            s.append("Some(");
            push_decimal(s, b);
            s.append(")");
            assert(s@ =~= old(s)@ + option_text(o));
        },
        None => {
            s.append("None");
        },
    }
}

/// Appends the text of a flag.
fn push_bool(s: &mut String, b: bool)
    ensures
        final(s)@ == old(s)@ + bool_text(b),
{
    if b {
        s.append("true");
    } else {
        s.append("false");
    }
}

/// The variables of one kernel, in register order, and the number of
/// registers of each kind that the kernel declares.
#[derive(Debug)]
pub struct ScheduleIr {
    pub vars: Vec<ScheduleVar>,
    pub n_regs: usize,
}

impl ScheduleIr {
    /// The number of registers of each kind.
    pub fn n_regs(&self) -> (r: usize)
        ensures
            r == self.n_regs,
    {
        self.n_regs
    }

    /// The variable at `id`.
    pub fn var(&self, id: VarId) -> (r: &ScheduleVar)
        requires
            id.0 < self.vars@.len(),
        ensures
            *r == self.vars@[id.0 as int],
    {
        &self.vars[id.0]
    }
}

/// The parameter environment of a kernel: the device buffers and textures
/// that its parameter table points to.
#[derive(Debug)]
pub struct Env {
    pub buffers: Vec<usize>,
    pub textures: Vec<usize>,
}

impl Env {
    /// The buffers of the parameter table.
    pub fn buffers(&self) -> (r: &[usize])
        ensures
            r@ == self.buffers@,
    {
        self.buffers.as_slice()
    }

    /// The textures of the parameter table.
    pub fn textures(&self) -> (r: &[usize])
        ensures
            r@ == self.textures@,
    {
        self.textures.as_slice()
    }
}

} // verus!
