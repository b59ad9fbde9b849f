use std::collections::HashSet;
use tracejit::jit::{Backend, Jit, Kernel, Pass, Recorded};
use tracejit::trace::{Ir, Op, VarId};

#[derive(Default)]
struct Recorder {
    next_buffer: usize,
    allocated: Vec<usize>,
    launched: Vec<Vec<usize>>,
    log: Vec<String>,
}

fn sorted_ids(schedule: &Pass) -> Vec<usize> {
    let mut ids: Vec<usize> = schedule.ids.iter().copied().collect();
    ids.sort();
    ids
}

impl Backend for Recorder {
    fn first_register(&mut self) -> usize {
        self.log.push(String::from("first_register"));
        4
    }

    fn buffer_uninit(&mut self, bytes: usize) -> usize {
        self.log.push(format!("alloc {}", bytes));
        self.allocated.push(bytes);
        let h = self.next_buffer;
        self.next_buffer += 1;
        h
    }

    fn assemble(&mut self, _ir: &Ir, first_register: usize, schedule: &Pass) -> String {
        self.log.push(format!("assemble {:?}", sorted_ids(schedule)));
        format!("r{} {:?}", first_register, sorted_ids(schedule))
    }

    fn compile(&mut self, assembly: &str) -> usize {
        self.log.push(format!("compile {}", assembly));
        assembly.len()
    }

    fn execute_async(&mut self, _kernel: &Kernel, schedule: &Pass) {
        self.log.push(format!("execute {:?}", sorted_ids(schedule)));
        self.launched.push(sorted_ids(schedule));
    }

    fn synchronize(&mut self) {
        self.log.push(String::from("synchronize"));
    }
}

fn recorder_from(first_handle: usize) -> Recorder {
    Recorder { next_buffer: first_handle, ..Recorder::default() }
}

fn set(xs: &[usize]) -> HashSet<usize> {
    xs.iter().copied().collect()
}

fn pass(ids: &[usize], deps: &[usize], size: usize) -> Pass {
    Pass { ids: set(ids), deps: set(deps), size }
}

#[test]
fn try_merge_refuses_other_sizes() {
    let mut p = pass(&[1], &[], 3);
    let q = pass(&[2], &[], 4);
    assert_eq!(p.try_merge(&q), None);
    assert_eq!(p.ids, set(&[1]));
    assert_eq!(p.deps, set(&[]));
}

#[test]
fn try_merge_refuses_a_dependent_pass() {
    let mut p = pass(&[1], &[0], 3);
    let q = pass(&[2], &[1], 3);
    assert_eq!(p.try_merge(&q), None);
    assert_eq!(p.ids, set(&[1]));
    assert_eq!(p.deps, set(&[0]));
}

#[test]
fn try_merge_unites_independent_passes() {
    let mut p = pass(&[1], &[0], 3);
    let q = pass(&[2, 5], &[4], 3);
    assert_eq!(p.try_merge(&q), Some(()));
    assert_eq!(p.ids, set(&[1, 2, 5]));
    assert_eq!(p.deps, set(&[0, 4]));
    assert_eq!(p.size, 3);
}

fn sample_ir() -> (Ir, VarId, VarId, VarId, VarId) {
    let mut ir = Ir::new();
    let a = ir.buffer_f32(0, 3);
    let b = ir.buffer_f32(1, 3);
    let c = ir.add(a, b);
    let d = ir.add(c, c);
    let e = ir.add(a, a);
    (ir, a, c, d, e)
}

#[test]
fn passes_have_scheduled_dependencies() {
    let (mut ir, _a, c, d, e) = sample_ir();
    ir.schedule(&[c, d, e]);
    let jit = Jit::default();
    let ps = jit.passes(&ir);
    assert_eq!(ps.len(), 3);
    assert_eq!(ps[0].ids, set(&[c.0]));
    assert_eq!(ps[0].deps, set(&[]));
    assert_eq!(ps[1].ids, set(&[d.0]));
    assert_eq!(ps[1].deps, set(&[c.0]));
    assert_eq!(ps[2].ids, set(&[e.0]));
    assert_eq!(ps[2].deps, set(&[]));
    assert_eq!(ps[1].size, 3);
}

#[test]
fn passes_keep_a_scheduling_order_that_respects_dependencies() {
    let mut ir = Ir::new();
    let a = ir.buffer_f32(0, 3);
    let b = ir.buffer_f32(1, 3);
    let c = ir.add(a, a);
    ir.schedule(&[b, a]);
    let jit = Jit::default();
    let ps = jit.passes(&ir);
    assert_eq!(ps[0].ids, set(&[b.0]));
    assert_eq!(ps[1].ids, set(&[a.0]));
    let mut ir2 = Ir::new();
    let x = ir2.buffer_f32(0, 3);
    let y = ir2.add(x, x);
    let z = ir2.buffer_f32(1, 3);
    ir2.schedule(&[z, x, y]);
    let ps = jit.passes(&ir2);
    assert_eq!(ps[0].ids, set(&[z.0]));
    assert_eq!(ps[1].ids, set(&[x.0]));
    assert_eq!(ps[1].deps, set(&[]));
    assert_eq!(ps[2].ids, set(&[y.0]));
    assert_eq!(ps[2].deps, set(&[x.0]));
    let _ = c;
}

#[test]
fn passes_come_in_dependency_order() {
    let (mut ir, a, c, d, e) = sample_ir();
    ir.schedule(&[d, e, a, c]);
    let jit = Jit::default();
    let ps = jit.passes(&ir);
    assert_eq!(ps.len(), 4);
    assert_eq!(ps[0].ids, set(&[a.0]));
    assert_eq!(ps[1].ids, set(&[e.0]));
    assert_eq!(ps[2].ids, set(&[c.0]));
    assert_eq!(ps[3].ids, set(&[d.0]));
    assert_eq!(ps[2].deps, set(&[a.0]));
    assert_eq!(ps[3].deps, set(&[a.0, c.0]));
    for k in 0..ps.len() {
        for l in (k + 1)..ps.len() {
            assert!(ps[k].deps.is_disjoint(&ps[l].ids));
        }
    }
}

#[test]
fn compile_merges_independent_passes_of_one_size() {
    let (mut ir, _a, c, d, e) = sample_ir();
    ir.schedule(&[c, d, e]);
    let mut jit = Jit::default();
    jit.compile(&ir, &mut Recorded::new(Recorder::default()));
    // e merges into d (the last earlier pass that can take it); d cannot join c.
    assert_eq!(jit.schedules.len(), 2);
    assert_eq!(jit.schedules[0].ids, set(&[c.0]));
    assert_eq!(jit.schedules[1].ids, set(&[d.0, e.0]));
    assert_eq!(jit.schedules[1].deps, set(&[c.0]));
    assert_eq!(jit.kernels.len(), 2);
    assert_eq!(jit.kernels[0].assembly, "r4 [2]");
    assert_eq!(jit.kernels[1].assembly, "r4 [3, 4]");
    assert_eq!(jit.kernels[0].module, Some(6));
    assert_eq!(jit.kernels[1].module, Some(9));
}

#[test]
fn compile_keeps_sizes_apart() {
    let mut ir = Ir::new();
    let a = ir.buffer_f32(0, 3);
    let b = ir.buffer_f32(1, 4);
    let c = ir.add(a, a);
    let d = ir.add(b, b);
    ir.schedule(&[c, d]);
    let mut jit = Jit::default();
    jit.compile(&ir, &mut Recorded::new(Recorder::default()));
    assert_eq!(jit.schedules.len(), 2);
    for p in jit.schedules.iter() {
        for id in p.ids.iter() {
            assert_eq!(ir.var(VarId(*id)).size, p.size);
        }
    }
}

#[test]
fn compile_covers_each_scheduled_var_once() {
    let (mut ir, a, c, d, e) = sample_ir();
    ir.schedule(&[c, e, d, a]);
    let mut jit = Jit::default();
    jit.compile(&ir, &mut Recorded::new(Recorder::default()));
    assert!(jit.schedules.len() <= 4);
    let mut all: Vec<usize> = Vec::new();
    for p in jit.schedules.iter() {
        all.extend(p.ids.iter().copied());
    }
    all.sort();
    assert_eq!(all, vec![a.0, c.0, d.0, e.0]);
}

#[test]
fn planned_passes_cannot_merge_further() {
    let mut ir = Ir::new();
    let a = ir.buffer_f32(0, 3);
    let b = ir.buffer_f32(1, 4);
    let c = ir.add(a, a);
    let d = ir.add(b, b);
    let e = ir.add(c, c);
    let f = ir.add(a, c);
    ir.schedule(&[a, b, c, d, e, f]);
    let mut jit = Jit::default();
    jit.compile(&ir, &mut Recorded::new(Recorder::default()));
    assert!(jit.schedules.len() < 6);
    for k in 0..jit.schedules.len() {
        for l in (k + 1)..jit.schedules.len() {
            let (p, q) = (&jit.schedules[k], &jit.schedules[l]);
            assert!(p.size != q.size || !p.ids.is_disjoint(&q.deps));
        }
    }
}

#[test]
fn compile_with_nothing_scheduled_keeps_the_plan() {
    let (mut ir, _a, c, _d, _e) = sample_ir();
    ir.schedule(&[c]);
    let mut jit = Jit::default();
    jit.compile(&ir, &mut Recorded::new(Recorder::default()));
    jit.kernels[0].assembly.push_str(" kept");
    ir.retire_scheduled();
    jit.compile(&ir, &mut Recorded::new(Recorder::default()));
    assert_eq!(jit.schedules.len(), 1);
    assert_eq!(jit.kernels.len(), 1);
    assert_eq!(jit.kernels[0].assembly, "r4 [2] kept");
}

#[test]
fn eval_allocates_runs_and_retires() {
    let (mut ir, a, c, d, e) = sample_ir();
    ir.schedule(&[d, c, a]);
    assert_eq!(ir.pending_buffers(), vec![(d, 12), (c, 12)]);
    let mut backend = Recorded::new(recorder_from(40));
    let mut jit = Jit::default();
    jit.eval(&mut ir, &mut backend);
    assert_eq!(backend.backend.allocated, vec![12, 12]);
    assert_eq!(ir.var(d).buffer, Some(40));
    assert_eq!(ir.var(c).buffer, Some(41));
    assert_eq!(ir.var(a).buffer, Some(0));
    assert!(ir.scheduled().is_empty());
    for id in [a, c, d] {
        assert_eq!(ir.var(id).op, Op::Data);
        assert!(ir.var(id).deps().is_empty());
    }
    assert_eq!(ir.var(e).op, Op::Add);
    assert_eq!(ir.var(e).deps(), &[0usize, 0][..]);
    assert_eq!(jit.schedules.len(), jit.kernels.len());
    assert_eq!(backend.backend.launched, vec![vec![0], vec![2], vec![3]]);
    assert_eq!(
        backend.backend.log,
        vec![
            "alloc 12",
            "alloc 12",
            "first_register",
            "assemble [0]",
            "assemble [2]",
            "assemble [3]",
            "compile r4 [0]",
            "compile r4 [2]",
            "compile r4 [3]",
            "execute [0]",
            "synchronize",
            "execute [2]",
            "synchronize",
            "execute [3]",
            "synchronize",
        ]
    );
    assert!(jit.kernels.iter().all(|k| k.module.is_some()));
}

#[test]
fn eval_with_nothing_scheduled_runs_the_previous_kernels_again() {
    let (mut ir, _a, c, _d, e) = sample_ir();
    ir.schedule(&[c, e]);
    let mut jit = Jit::default();
    jit.eval(&mut ir, &mut Recorded::new(Recorder::default()));
    assert_eq!(jit.kernels.len(), 1);
    let mut again = Recorded::new(Recorder::default());
    jit.eval(&mut ir, &mut again);
    assert_eq!(again.backend.launched, vec![vec![2, 4]]);
    assert!(again.backend.allocated.is_empty());
    assert_eq!(again.backend.log, vec!["execute [2, 4]", "synchronize"]);
    assert_eq!(jit.kernels.len(), 1);
}

#[test]
fn kernel_debug_lists_each_kernel() {
    let mut jit = Jit::default();
    assert_eq!(jit.kernel_debug(), "");
    jit.kernels.push(Kernel { assembly: String::from("first\n"), module: None });
    jit.kernels.push(Kernel { assembly: String::from("second"), module: Some(1) });
    let rule = "===============================================";
    let expected = format!("{rule}\nKernel 0:\n\nfirst\n{rule}\nKernel 1:\n\nsecond");
    assert_eq!(jit.kernel_debug(), expected);
}

#[test]
fn kernel_debug_numbers_past_ten() {
    let mut jit = Jit::default();
    for _ in 0..12 {
        jit.kernels.push(Kernel { assembly: String::new(), module: None });
    }
    let text = jit.kernel_debug();
    assert!(text.contains("Kernel 10:\n"));
    assert!(text.ends_with("Kernel 11:\n\n"));
}

#[test]
fn schedule_kernel_gives_both() {
    let (mut ir, _a, c, _d, _e) = sample_ir();
    ir.schedule(&[c]);
    let mut jit = Jit::default();
    jit.compile(&ir, &mut Recorded::new(Recorder::default()));
    let (k, s) = jit.schedule_kernel(0);
    k.assembly.push_str(" done");
    assert_eq!(s.ids, set(&[c.0]));
    assert_eq!(jit.kernels[0].assembly, "r4 [2] done");
}
