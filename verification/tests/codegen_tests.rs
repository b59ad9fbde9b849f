use tracejit::codegen::assemble_entry;
use tracejit::schedule::{Env, ScheduleIr, ScheduleVar};
use tracejit::trace::{ParamType, VarType, VarId};

fn var(ty: VarType, param_ty: ParamType, buf: Option<usize>, size: usize, reg: usize) -> ScheduleVar {
    ScheduleVar { ty, param_ty, buf, size, reg, literal: false }
}

#[test]
fn debug_text_matches_derived_debug() {
    let vs = [
        var(VarType::U32, ParamType::Input, Some(0), 3, 4),
        var(VarType::Bool, ParamType::Output, None, 1, 12),
        ScheduleVar { literal: true, ..var(VarType::F64, ParamType::Unbound, Some(123), 0, 0) },
    ];
    for v in vs.iter() {
        let mut s = String::new();
        v.push_debug(&mut s);
        assert_eq!(s, format!("{:?}", v));
    }
}

#[test]
fn register_names() {
    assert_eq!(var(VarType::U32, ParamType::Unbound, None, 1, 4).reg(), "%r4");
    assert_eq!(var(VarType::F64, ParamType::Unbound, None, 1, 17).reg(), "%d17");
    assert_eq!(var(VarType::Bool, ParamType::Unbound, None, 1, 0).reg(), "%p0");
}

#[test]
fn schedule_accessors() {
    let ir = ScheduleIr { vars: vec![var(VarType::U8, ParamType::Unbound, None, 1, 3)], n_regs: 9 };
    assert_eq!(ir.n_regs(), 9);
    assert_eq!(ir.var(VarId(0)).reg, 3);
    assert!(!ir.var(VarId(0)).is_literal());
    let env = Env { buffers: vec![7, 8], textures: vec![9] };
    assert_eq!(env.buffers(), &[7, 8][..]);
    assert_eq!(env.textures(), &[9][..]);
}

fn header(params_bytes: usize, n_regs: usize, entry: &str) -> String {
    let mut s = String::new();
    s.push_str(".version 8.0\n.target sm_86\n.address_size 64\n\n");
    s.push_str(&format!(".const .align 8 .b8 params[{}];\n", params_bytes));
    s.push_str(&format!(".entry {}(){{\n\n", entry));
    s.push_str(&format!(
        "\t.reg.b8   %b <{n_regs}>; .reg.b16 %w<{n_regs}>; .reg.b32 %r<{n_regs}>;\n"
    ));
    s.push_str(&format!(
        "\t.reg.b64  %rd<{n_regs}>; .reg.f32 %f<{n_regs}>; .reg.f64 %d<{n_regs}>;\n"
    ));
    s.push_str(&format!("\t.reg.pred %p <{n_regs}>;\n\n"));
    s.push_str("\tcall (%r0), _optix_get_launch_index_x, ();\n\tld.const.u32 %r1, [params + 4];\n\tadd.u32 %r0, %r0, %r1;\n\nbody:\n");
    s
}

#[test]
fn assemble_empty_entry() {
    let ir = ScheduleIr { vars: vec![], n_regs: 4 };
    let env = Env { buffers: vec![], textures: vec![] };
    let mut out = String::new();
    assemble_entry(&mut out, &ir, &env, "__raygen__main", &[]);
    let expected = header(8, 4, "__raygen__main") + "\n\tret;\n}\n";
    assert_eq!(out, expected);
}

#[test]
fn assemble_input_compute_output() {
    let a = var(VarType::U32, ParamType::Input, Some(0), 3, 4);
    let b = var(VarType::U32, ParamType::Unbound, None, 3, 5);
    let c = var(VarType::U32, ParamType::Output, Some(1), 3, 6);
    let ir = ScheduleIr { vars: vec![a, b, c], n_regs: 7 };
    let env = Env { buffers: vec![10, 11], textures: vec![] };
    let code = vec![
        String::new(),
        String::from("\tadd.u32 %r5, %r4, %r4;\n"),
        String::from("\tmov.u32 %r6, %r5;\n"),
    ];
    let mut out = String::from("// prelude\n");
    assemble_entry(&mut out, &ir, &env, "__raygen__cg", &code);
    let mut expected = String::from("// prelude\n");
    expected += &header(24, 7, "__raygen__cg");
    expected += &format!("\n\t// [0]: {:?} =>\n", a);
    expected += "\tld.const.u64 %rd0, [params+8];\n";
    expected += "\tmad.wide.u32 %rd0, %r0, 4, %rd0;\n";
    expected += "\tld.global.cs.u32 %r4, [%rd0];\n";
    expected += "\tadd.u32 %r5, %r4, %r4;\n";
    expected += "\tmov.u32 %r6, %r5;\n";
    expected += "\n\t// Store:\n\tld.const.u64 %rd0, [params + 16]; // rd0 <- params[offset]\n\tmad.wide.u32 %rd0, %r0, 4, %rd0; // rd0 <- Index * ty.size() + params[offset]\n";
    expected += "\tst.global.cs.u32 [%rd0], %r6; // (Index * ty.size() + params[offset])[Index] <- var\n";
    expected += "\n\tret;\n}\n";
    assert_eq!(out, expected);
}

#[test]
fn assemble_bool_and_literal_params() {
    let lit = ScheduleVar { literal: true, ..var(VarType::F32, ParamType::Input, Some(2), 1, 1) };
    let flag = var(VarType::Bool, ParamType::Input, Some(0), 1, 2);
    let out_flag = var(VarType::Bool, ParamType::Output, Some(1), 5, 3);
    let ir = ScheduleIr { vars: vec![lit, flag, out_flag], n_regs: 4 };
    let env = Env { buffers: vec![1, 2, 3], textures: vec![4] };
    let code = vec![String::new(), String::new(), String::from("\tnot.pred %p3, %p2;\n")];
    let mut out = String::new();
    assemble_entry(&mut out, &ir, &env, "k", &code);
    let mut expected = header(40, 4, "k");
    expected += &format!("\n\t// [0]: {:?} =>\n", lit);
    expected += "\tld.param.f32 %f1, [params+24];\n";
    expected += &format!("\n\t// [1]: {:?} =>\n", flag);
    expected += "\tld.const.u64 %rd0, [params+8];\n";
    expected += "\tld.global.cs.u8 %w0, [%rd0];\n";
    expected += "\tsetp.ne.u16 %p2, %w0, 0;\n";
    expected += "\tnot.pred %p3, %p2;\n";
    expected += "\n\t// Store:\n\tld.const.u64 %rd0, [params + 16]; // rd0 <- params[offset]\n\tmad.wide.u32 %rd0, %r0, 1, %rd0; // rd0 <- Index * ty.size() + params[offset]\n";
    expected += "\tselp.u16 %w0, 1, 0, %p3;\n";
    expected += "\tst.global.cs.u8 [%rd0], %w0;\n";
    expected += "\n\tret;\n}\n";
    assert_eq!(out, expected);
}
