use tracejit::trace::{Ir, Op, ParamId, ParamType, Var, VarId, VarType};

const ALL_TYPES: [VarType; 13] = [
    VarType::Bool,
    VarType::I8,
    VarType::U8,
    VarType::I16,
    VarType::U16,
    VarType::I32,
    VarType::U32,
    VarType::I64,
    VarType::U64,
    VarType::Ptr,
    VarType::F16,
    VarType::F32,
    VarType::F64,
];

#[test]
fn var_type_prefixes() {
    let expected = [
        "%p", "%b", "%b", "%w", "%w", "%r", "%r", "%rd", "%rd", "%rd", "%h", "%f", "%d",
    ];
    for (ty, p) in ALL_TYPES.iter().zip(expected.iter()) {
        assert_eq!(ty.prefix(), *p);
    }
}

#[test]
fn var_type_cuda_names() {
    let expected = [
        "pred", "s8", "u8", "s16", "u16", "s32", "u32", "s64", "u64", "u64", "f16", "f32", "f64",
    ];
    for (ty, n) in ALL_TYPES.iter().zip(expected.iter()) {
        assert_eq!(ty.name_cuda(), *n);
    }
}

#[test]
fn var_type_cuda_bin_names() {
    let expected = [
        "pred", "b8", "b8", "b16", "b16", "b32", "b32", "b64", "b64", "b64", "b16", "b32", "b64",
    ];
    for (ty, n) in ALL_TYPES.iter().zip(expected.iter()) {
        assert_eq!(ty.name_cuda_bin(), *n);
    }
}

#[test]
fn var_type_sizes() {
    let expected = [1usize, 1, 1, 2, 2, 4, 4, 8, 8, 8, 2, 4, 8];
    for (ty, s) in ALL_TYPES.iter().zip(expected.iter()) {
        assert_eq!(ty.size(), *s);
    }
}

#[test]
fn var_type_classes() {
    let uints: Vec<VarType> = ALL_TYPES.iter().copied().filter(|t| t.is_uint()).collect();
    assert_eq!(uints, vec![VarType::U8, VarType::U16, VarType::U32, VarType::U64]);
    let singles: Vec<VarType> = ALL_TYPES.iter().copied().filter(|t| t.is_single()).collect();
    assert_eq!(singles, vec![VarType::F32]);
    let doubles: Vec<VarType> = ALL_TYPES.iter().copied().filter(|t| t.is_double()).collect();
    assert_eq!(doubles, vec![VarType::F64]);
}

#[test]
fn defaults() {
    assert_eq!(VarType::default(), VarType::Bool);
    assert_eq!(ParamType::default(), ParamType::Unbound);
    assert_eq!(Op::default(), Op::Nop);
    let v = Var::default();
    assert_eq!(v.op, Op::Nop);
    assert!(v.deps().is_empty());
    assert_eq!(v.ty, VarType::Bool);
    assert_eq!(v.buffer, None);
    assert_eq!(v.size, 0);
    assert_eq!(v.param_ty, ParamType::Unbound);
}

#[test]
fn param_offsets() {
    assert_eq!(ParamId(0).offset(), 0);
    assert_eq!(ParamId(3).offset(), 24);
    assert_eq!(*ParamId(5), 5);
}

#[test]
fn push_and_read_vars() {
    let mut ir = Ir::new();
    let a = ir.buffer_f32(7, 3);
    let b = ir.const_f32(1.5f32.to_bits());
    assert_eq!(a, VarId(0));
    assert_eq!(b, VarId(1));
    let va = ir.var(a);
    assert_eq!(va.param_ty, ParamType::Input);
    assert_eq!(va.buffer, Some(7));
    assert_eq!(va.size, 3);
    assert_eq!(va.ty, VarType::F32);
    assert_eq!(va.op, Op::Nop);
    let vb = ir.var(b);
    assert_eq!(vb.op, Op::ConstF32(1.5f32.to_bits()));
    assert_eq!(vb.ty, VarType::F32);
    assert_eq!(vb.size, 0);
    assert_eq!(vb.buffer, None);
    assert_eq!(ir.vars().len(), 2);
    assert_eq!(ir.ids(), vec![VarId(0), VarId(1)]);
    assert_eq!(ir.host_f32_buffer(a), 7);
}

#[test]
fn add_takes_larger_size_and_records_operands() {
    let mut ir = Ir::new();
    let a = ir.buffer_f32(0, 3);
    let b = ir.buffer_f32(1, 5);
    let c = ir.add(a, b);
    assert_eq!(c, VarId(2));
    let vc = ir.var(c);
    assert_eq!(vc.op, Op::Add);
    assert_eq!(vc.deps(), &[0usize, 1][..]);
    assert_eq!(vc.size, 5);
    assert_eq!(vc.ty, VarType::F32);
    assert_eq!(vc.param_ty, ParamType::Unbound);
    assert_eq!(vc.buffer, None);
}

#[test]
fn assert_ty_folds_sizes() {
    let mut ir = Ir::new();
    let a = ir.buffer_f32(0, 4);
    let b = ir.buffer_f32(1, 9);
    let c = ir.buffer_f32(2, 2);
    let (size, ty) = ir.assert_ty(&[a, b, c]);
    assert_eq!(size, 9);
    assert_eq!(*ty, VarType::F32);
    let (size, _) = ir.assert_ty(&[c]);
    assert_eq!(size, 2);
}

#[test]
fn intermediate_records_add_whatever_the_op() {
    let mut ir = Ir::new();
    let a = ir.buffer_f32(0, 4);
    let m = ir.push_var_intermediate(Op::Mul, &[a, a], VarType::U32, 4);
    let v = ir.var(m);
    assert_eq!(v.op, Op::Add);
    assert_eq!(v.deps(), &[0usize, 0][..]);
    assert_eq!(v.ty, VarType::U32);
    assert_eq!(v.size, 4);
}

#[test]
fn var_mut_updates_one_var() {
    let mut ir = Ir::new();
    let a = ir.buffer_f32(0, 4);
    let b = ir.buffer_f32(1, 4);
    ir.var_mut(a).size = 11;
    assert_eq!(ir.var(a).size, 11);
    assert_eq!(ir.var(b).size, 4);
}

#[test]
fn deps_lists_each_reachable_var_once() {
    let mut ir = Ir::new();
    let a = ir.buffer_f32(0, 3);
    let b = ir.buffer_f32(1, 3);
    let c = ir.add(a, b);
    let d = ir.add(c, a);
    let e = ir.buffer_f32(2, 3);
    let mut got: Vec<usize> = ir.deps(&[d, c]).iter().map(|v| v.0).collect();
    got.sort();
    assert_eq!(got, vec![0, 1, 2, 3]);
    let got: Vec<VarId> = ir.deps(&[e]);
    assert_eq!(got, vec![e]);
    assert!(ir.deps(&[]).is_empty());
}

#[test]
fn schedule_appends() {
    let mut ir = Ir::new();
    let a = ir.buffer_f32(0, 3);
    let b = ir.buffer_f32(1, 3);
    ir.schedule(&[b]);
    ir.schedule(&[a, b]);
    assert_eq!(ir.scheduled(), &[b, a, b][..]);
}

#[test]
fn pending_buffers_lists_unbuffered_scheduled_once() {
    let mut ir = Ir::new();
    let a = ir.buffer_f32(0, 3);
    let b = ir.buffer_f32(1, 3);
    let c = ir.add(a, b);
    let d = ir.push_var_intermediate(Op::Add, &[c], VarType::U16, 5);
    ir.schedule(&[c, a, d, c]);
    assert_eq!(ir.pending_buffers(), vec![(c, 12), (d, 10)]);
}

#[test]
fn retire_scheduled_turns_vars_into_data() {
    let mut ir = Ir::new();
    let a = ir.buffer_f32(0, 3);
    let b = ir.buffer_f32(1, 3);
    let c = ir.add(a, b);
    let d = ir.add(c, b);
    ir.schedule(&[c]);
    ir.retire_scheduled();
    assert!(ir.scheduled().is_empty());
    let vc = ir.var(c);
    assert_eq!(vc.op, Op::Data);
    assert!(vc.deps().is_empty());
    assert_eq!(vc.size, 3);
    let vd = ir.var(d);
    assert_eq!(vd.op, Op::Add);
    assert_eq!(vd.deps(), &[2usize, 1][..]);
}

#[test]
fn is_wf_checks_dependency_and_schedule_order() {
    let mut ir = Ir::new();
    assert!(ir.is_wf());
    let a = ir.buffer_f32(0, 3);
    let b = ir.add(a, a);
    ir.schedule(&[b]);
    assert!(ir.is_wf());
    let ahead = ir.push_var_intermediate(Op::Add, &[VarId(7)], VarType::F32, 3);
    assert!(!ir.is_wf());
    let mut ir2 = Ir::new();
    ir2.buffer_f32(0, 3);
    ir2.push_var_intermediate(Op::Add, &[VarId(0)], VarType::F32, 3);
    assert!(ir2.is_wf());
    let _ = ahead;
}
