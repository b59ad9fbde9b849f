//! PTX assembly of the entry point of an OptiX kernel.

use vstd::prelude::*;
use crate::trace::{ParamType, VarType, VarId, spec_name_cuda, spec_size};
use crate::schedule::{ScheduleIr, ScheduleVar, Env, reg_text, debug_text};
use crate::text::{decimal, push_decimal};

verus! {

/// The number of entries of the parameter table: the size, then one per
/// buffer and per texture.
pub open spec fn n_params(env: &Env) -> int {
    (1 + env.buffers@.len() + env.textures@.len()) as int
}

/// The register declarations, each kind with `n_regs` registers.
pub open spec fn reg_decls(n_regs: nat) -> Seq<char> {
    let r = decimal(n_regs);
    "\t.reg.b8   %b <"@ + r + ">; .reg.b16 %w<"@ + r + ">; .reg.b32 %r<"@ + r + ">;\n"@
        + "\t.reg.b64  %rd<"@ + r + ">; .reg.f32 %f<"@ + r + ">; .reg.f64 %d<"@ + r + ">;\n"@
        + "\t.reg.pred %p <"@ + r + ">;\n"@
}

/// The start of the entry: the module header, the parameter table, the
/// entry's name, the registers, and the computation of the element index.
pub open spec fn entry_header(params: nat, n_regs: nat, entry_point: Seq<char>) -> Seq<char> {
    ".version 8.0\n"@ + ".target sm_86\n"@ + ".address_size 64\n"@ + "\n"@
        + ".const .align 8 .b8 params["@ + decimal(8 * params) + "];\n"@ + ".entry "@ + entry_point
        + "(){\n"@ + "\n"@ + reg_decls(n_regs) + "\n"@
        + "\tcall (%r0), _optix_get_launch_index_x, ();\n\tld.const.u32 %r1, [params + 4];\n\tadd.u32 %r0, %r0, %r1;\n\nbody:\n"@
}

/// The byte offset of a variable's buffer pointer in the parameter table.
pub open spec fn param_offset(v: ScheduleVar) -> nat {
    ((v.buf->0 + 1) * 8) as nat
}

/// The comment that opens the load of input variable `id`.
pub open spec fn input_head(v: ScheduleVar, id: nat) -> Seq<char> {
    "\n"@ + "\t// ["@ + decimal(id) + "]: "@ + debug_text(v) + " =>\n"@
}

/// The load of a literal input from the parameter table.
pub open spec fn literal_load(v: ScheduleVar) -> Seq<char> {
    "\tld.param."@ + spec_name_cuda(v.ty) + " "@ + reg_text(v) + ", [params+"@ + decimal(param_offset(v))
        + "];\n"@
}

/// The load of an input element from its buffer in global memory.
pub open spec fn global_load(v: ScheduleVar) -> Seq<char> {
    "\tld.const.u64 %rd0, [params+"@ + decimal(param_offset(v)) + "];\n"@ + (if v.size > 1 {
        "\tmad.wide.u32 %rd0, %r0, "@ + decimal(spec_size(v.ty)) + ", %rd0;\n"@
    } else {
        Seq::empty()
    }) + (if v.ty == VarType::Bool {
        "\tld.global.cs.u8 %w0, [%rd0];\n"@ + "\tsetp.ne.u16 "@ + reg_text(v) + ", %w0, 0;\n"@
    } else {
        "\tld.global.cs."@ + spec_name_cuda(v.ty) + " "@ + reg_text(v) + ", [%rd0];\n"@
    })
}

/// An input element is loaded from global memory straight into its own
/// register, as its PTX type, except a flag: that is loaded as a byte and
/// turned into a predicate, true where the byte is not zero.
pub proof fn law_global_load_into_register(v: ScheduleVar)
    ensures
        v.ty != VarType::Bool ==> exists|p: Seq<char>| global_load(v) == p + "\tld.global.cs."@ + spec_name_cuda(v.ty)
            + " "@ + reg_text(v) + ", [%rd0];\n"@,
        v.ty == VarType::Bool ==> exists|p: Seq<char>| global_load(v) == p + "\tld.global.cs.u8 %w0, [%rd0];\n"@
            + "\tsetp.ne.u16 "@ + reg_text(v) + ", %w0, 0;\n"@,
{
    let p = "\tld.const.u64 %rd0, [params+"@ + decimal(param_offset(v)) + "];\n"@ + (if v.size > 1 {
        "\tmad.wide.u32 %rd0, %r0, "@ + decimal(spec_size(v.ty)) + ", %rd0;\n"@
    } else {
        Seq::empty()
    });
    if v.ty != VarType::Bool {
        assert(global_load(v) =~= p + "\tld.global.cs."@ + spec_name_cuda(v.ty) + " "@ + reg_text(v) + ", [%rd0];\n"@);
    } else {
        assert(global_load(v) =~= p + "\tld.global.cs.u8 %w0, [%rd0];\n"@ + "\tsetp.ne.u16 "@ + reg_text(v) + ", %w0, 0;\n"@);
    }
}

/// The load of an input variable.
pub open spec fn input_text(v: ScheduleVar, id: nat) -> Seq<char> {
    input_head(v, id) + if v.literal {
        literal_load(v)
    } else {
        global_load(v)
    }
}

/// The store of an output variable, after its computation `code`.
pub open spec fn output_text(v: ScheduleVar, code: Seq<char>) -> Seq<char> {
    code + "\n\t// Store:\n\tld.const.u64 %rd0, [params + "@ + decimal(param_offset(v))
        + "]; // rd0 <- params[offset]\n\tmad.wide.u32 %rd0, %r0, "@ + decimal(spec_size(v.ty))
        + ", %rd0; // rd0 <- Index * ty.size() + params[offset]\n"@ + (if v.ty == VarType::Bool {
        "\tselp.u16 %w0, 1, 0, "@ + reg_text(v) + ";\n"@ + "\tst.global.cs.u8 [%rd0], %w0;\n"@
    } else {
        "\tst.global.cs."@ + spec_name_cuda(v.ty) + " [%rd0], "@ + reg_text(v)
            + "; // (Index * ty.size() + params[offset])[Index] <- var\n"@
    })
}

/// The assembly of variable `id`: computed variables are their code, inputs
/// are loaded, outputs are computed and stored.
pub open spec fn var_text(v: ScheduleVar, id: nat, code: Seq<char>) -> Seq<char> {
    match v.param_ty {
        ParamType::Unbound => code,
        ParamType::Input => input_text(v, id),
        ParamType::Output => output_text(v, code),
        ParamType::Literal => Seq::empty(),
    }
}

/// The assembly of the first `k` variables.
pub open spec fn body_text(vars: Seq<ScheduleVar>, codes: Seq<Seq<char>>, k: int) -> Seq<char>
    decreases k,
{
    if k <= 0 {
        Seq::empty()
    } else {
        body_text(vars, codes, k - 1) + var_text(vars[k - 1], (k - 1) as nat, codes[k - 1])
    }
}

/// The whole entry point.
pub open spec fn entry_text(
    ir: &ScheduleIr,
    env: &Env,
    entry_point: Seq<char>,
    codes: Seq<Seq<char>>,
) -> Seq<char> {
    entry_header(n_params(env) as nat, ir.n_regs as nat, entry_point) + body_text(
        ir.vars@,
        codes,
        ir.vars@.len() as int,
    ) + "\n\tret;\n}\n"@
}

/// The variable can be assembled: it is not a literal binding, and a bound
/// variable has a buffer whose pointer offset fits.
pub open spec fn assemblable(v: ScheduleVar) -> bool {
    &&& v.param_ty != ParamType::Literal
    &&& (v.param_ty == ParamType::Input || v.param_ty == ParamType::Output) ==> {
        &&& v.buf is Some
        &&& (v.buf->0 + 1) * 8 <= usize::MAX
    }
}

fn push_reg_decls(out: &mut String, n_regs: usize)
    ensures
        final(out)@ == old(out)@ + reg_decls(n_regs as nat),
{
    let ghost a0 = out@;
    let ghost r = decimal(n_regs as nat);
    out.append("\t.reg.b8   %b <");
    push_decimal(out, n_regs);
    out.append(">; .reg.b16 %w<");
    push_decimal(out, n_regs);
    out.append(">; .reg.b32 %r<");
    push_decimal(out, n_regs);
    out.append(">;\n");
    let ghost a1 = out@;
    assert(a1 =~= a0 + ("\t.reg.b8   %b <"@ + r + ">; .reg.b16 %w<"@ + r + ">; .reg.b32 %r<"@ + r + ">;\n"@));
    out.append("\t.reg.b64  %rd<");
    push_decimal(out, n_regs);
    out.append(">; .reg.f32 %f<");
    push_decimal(out, n_regs);
    out.append(">; .reg.f64 %d<");
    push_decimal(out, n_regs);
    out.append(">;\n");
    let ghost a2 = out@;
    assert(a2 =~= a1 + ("\t.reg.b64  %rd<"@ + r + ">; .reg.f32 %f<"@ + r + ">; .reg.f64 %d<"@ + r + ">;\n"@));
    out.append("\t.reg.pred %p <");
    push_decimal(out, n_regs);
    out.append(">;\n");
    assert(out@ =~= a0 + reg_decls(n_regs as nat));
}

fn push_header(out: &mut String, params: usize, n_regs: usize, entry_point: &str)
    requires
        8 * params <= usize::MAX,
    ensures
        final(out)@ == old(out)@ + entry_header(params as nat, n_regs as nat, entry_point@),
{
    let ghost a0 = out@;
    out.append(".version 8.0\n");
    out.append(".target sm_86\n");
    out.append(".address_size 64\n");
    out.append("\n");
    out.append(".const .align 8 .b8 params[");
    push_decimal(out, 8 * params);
    out.append("];\n");
    out.append(".entry ");
    out.append(entry_point);
    out.append("(){\n");
    out.append("\n");
    let ghost a1 = out@;
    assert(a1 =~= a0 + (".version 8.0\n"@ + ".target sm_86\n"@ + ".address_size 64\n"@ + "\n"@
        + ".const .align 8 .b8 params["@ + decimal(8 * params as nat) + "];\n"@ + ".entry "@
        + entry_point@ + "(){\n"@ + "\n"@));
    push_reg_decls(out, n_regs);
    out.append("\n");
    out.append(
        "\tcall (%r0), _optix_get_launch_index_x, ();\n\tld.const.u32 %r1, [params + 4];\n\tadd.u32 %r0, %r0, %r1;\n\nbody:\n",
    );
    assert(out@ =~= a0 + entry_header(params as nat, n_regs as nat, entry_point@));
}

fn push_input_head(out: &mut String, v: &ScheduleVar, id: usize)
    ensures
        final(out)@ == old(out)@ + input_head(*v, id as nat),
{
    let ghost a0 = out@;
    out.append("\n");
    out.append("\t// [");
    push_decimal(out, id);
    out.append("]: ");
    v.push_debug(out);
    out.append(" =>\n");
    assert(out@ =~= a0 + input_head(*v, id as nat));
}

fn push_literal_load(out: &mut String, v: &ScheduleVar, offset: usize)
    requires
        offset == param_offset(*v),
    ensures
        final(out)@ == old(out)@ + literal_load(*v),
{
    let ghost a0 = out@;
    out.append("\tld.param.");
    out.append(v.ty.name_cuda());
    out.append(" ");
    v.push_reg(out);
    out.append(", [params+");
    push_decimal(out, offset);
    out.append("];\n");
    assert(out@ =~= a0 + literal_load(*v));
}

fn push_global_load(out: &mut String, v: &ScheduleVar, offset: usize)
    requires
        offset == param_offset(*v),
    ensures
        final(out)@ == old(out)@ + global_load(*v),
{
    let ghost a0 = out@;
    out.append("\tld.const.u64 %rd0, [params+");
    push_decimal(out, offset);
    out.append("];\n");
    let ghost a2 = out@;
    if v.size > 1 {
        out.append("\tmad.wide.u32 %rd0, %r0, ");
        push_decimal(out, v.ty.size());
        out.append(", %rd0;\n");
    }
    let ghost a3 = out@;
    let ghost mad = if v.size > 1 {
        "\tmad.wide.u32 %rd0, %r0, "@ + decimal(spec_size(v.ty)) + ", %rd0;\n"@
    } else {
        Seq::<char>::empty()
    };
    assert(a3 =~= a2 + mad);
    if v.ty == VarType::Bool {
        out.append("\tld.global.cs.u8 %w0, [%rd0];\n");
        out.append("\tsetp.ne.u16 ");
        v.push_reg(out);
        out.append(", %w0, 0;\n");
    } else {
        out.append("\tld.global.cs.");
        out.append(v.ty.name_cuda());
        out.append(" ");
        v.push_reg(out);
        out.append(", [%rd0];\n");
    }
    assert(out@ =~= a0 + global_load(*v));
}

fn push_input(out: &mut String, v: &ScheduleVar, id: usize)
    requires
        v.param_ty == ParamType::Input,
        assemblable(*v),
    ensures
        final(out)@ == old(out)@ + input_text(*v, id as nat),
{
    let ghost a0 = out@;
    let offset = match v.buf {
        Some(b) => (b + 1) * 8,
        None => 0,
    };
    push_input_head(out, v, id);
    if v.is_literal() {
        push_literal_load(out, v, offset);
    } else {
        push_global_load(out, v, offset);
    }
    assert(out@ =~= a0 + input_text(*v, id as nat));
}

fn push_output(out: &mut String, v: &ScheduleVar, code: &str)
    requires
        v.param_ty == ParamType::Output,
        assemblable(*v),
    ensures
        final(out)@ == old(out)@ + output_text(*v, code@),
{
    let ghost a0 = out@;
    let offset = match v.buf {
        Some(b) => (b + 1) * 8,
        None => 0,
    };
    out.append(code);
    out.append("\n\t// Store:\n\tld.const.u64 %rd0, [params + ");
    push_decimal(out, offset);
    out.append("]; // rd0 <- params[offset]\n\tmad.wide.u32 %rd0, %r0, ");
    push_decimal(out, v.ty.size());
    out.append(", %rd0; // rd0 <- Index * ty.size() + params[offset]\n");
    let ghost a1 = out@;
    assert(a1 =~= a0 + (code@ + "\n\t// Store:\n\tld.const.u64 %rd0, [params + "@ + decimal(param_offset(*v))
        + "]; // rd0 <- params[offset]\n\tmad.wide.u32 %rd0, %r0, "@ + decimal(spec_size(v.ty))
        + ", %rd0; // rd0 <- Index * ty.size() + params[offset]\n"@));
    if v.ty == VarType::Bool {
        out.append("\tselp.u16 %w0, 1, 0, ");
        v.push_reg(out);
        out.append(";\n");
        out.append("\tst.global.cs.u8 [%rd0], %w0;\n");
    } else {
        out.append("\tst.global.cs.");
        out.append(v.ty.name_cuda());
        out.append(" [%rd0], ");
        v.push_reg(out);
        out.append("; // (Index * ty.size() + params[offset])[Index] <- var\n");
    }
    assert(out@ =~= a0 + output_text(*v, code@));
}

/// Writes the PTX entry point `entry_point` of the kernel scheduled in `ir`
/// with the parameter environment `env` to `out`.
///
/// `var_code[i]` is the assembly of the computation of variable `i`, as
/// the backend's variable assembler writes it; it is used for computed and
/// output variables.
pub fn assemble_entry(
    out: &mut String,
    ir: &ScheduleIr,
    env: &Env,
    entry_point: &str,
    var_code: &[String],
)
    requires
        var_code@.len() == ir.vars@.len(),
        8 * n_params(env) <= usize::MAX,
        forall|i: int| 0 <= i < ir.vars@.len() ==> assemblable(#[trigger] ir.vars@[i]),
    ensures
        final(out)@ == old(out)@ + entry_text(
            ir,
            env,
            entry_point@,
            var_code@.map_values(|c: String| c@),
        ),
{
    let ghost codes = var_code@.map_values(|c: String| c@);
    let n_params = 1 + env.buffers().len() + env.textures().len();
    let n_regs = ir.n_regs();
    let ghost a0 = out@;
    push_header(out, n_params, n_regs, entry_point);
    let ghost a1 = out@;
    let n = ir.vars.len();
    for k in 0..n
        invariant
            n == ir.vars@.len(),
            var_code@.len() == n,
            codes == var_code@.map_values(|c: String| c@),
            forall|i: int| 0 <= i < ir.vars@.len() ==> assemblable(#[trigger] ir.vars@[i]),
            out@ == a1 + body_text(ir.vars@, codes, k as int),
    {
        let var = ir.var(VarId(k));
        let ghost before = out@;
        assert(assemblable(ir.vars@[k as int]));
        match var.param_ty {
            ParamType::Unbound => {
                out.append(var_code[k].as_str());
            },
            ParamType::Input => {
                push_input(out, var, k);
            },
            ParamType::Output => {
                push_output(out, var, var_code[k].as_str());
            },
            ParamType::Literal => {},
        }
        assert(codes[k as int] == var_code@[k as int]@);
        assert(out@ =~= before + var_text(ir.vars@[k as int], k as nat, codes[k as int]));
        assert(out@ =~= a1 + body_text(ir.vars@, codes, k + 1));
    }
    out.append("\n\tret;\n}\n");
    assert(out@ =~= a0 + entry_text(ir, env, entry_point@, codes));
}

} // verus!
