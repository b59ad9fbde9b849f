//! The traced intermediate representation: variable types, operations and the
//! variable store.

use vstd::prelude::*;
use crate::graph::{dag, reach, reach_deps, reach_all, lemma_reach_unfold, lemma_reach_closed};
use std::collections::HashSet;
use crate::deps::{DepList, dep_items, dep_list_new, dep_list_from_slice, dep_list_as_slice, dep_list_clear};

verus! {

/// How a variable is bound to the parameter table of a kernel.
#[derive(Debug, Clone, Copy, PartialEq, Eq, Structural)]
pub enum ParamType {
    Unbound,
    Input,
    Output,
    Literal,
}

impl Default for ParamType {
    fn default() -> (r: ParamType)
        ensures
            r == ParamType::Unbound,
    {
        ParamType::Unbound
    }
}

/// The operation that computes a traced variable.
///
/// A single precision constant is held by its IEEE-754 bit pattern.
#[derive(Debug, Clone, Copy, PartialEq, Eq, Structural)]
pub enum Op {
    Nop,
    Data,
    Neg,
    Not,
    Sqrt,
    Abs,
    Add,
    Sub,
    Mul,
    Div,
    Mod,
    Mulhi,
    Fma,
    Min,
    Max,
    Cail,
    Floor,
    Round,
    Trunc,
    Eq,
    Neq,
    Lt,
    Le,
    Gt,
    Ge,
    Select,
    Popc,
    Clz,
    Ctz,
    And,
    Or,
    Xor,
    Shl,
    Shr,
    Rcp,
    Rsqrt,
    Sin,
    Cos,
    Exp2,
    Log2,
    Cast,
    Bitcast,
    Gather,
    Scatter,
    Idx,
    ConstF32(u32),
}

impl Default for Op {
    fn default() -> (r: Op)
        ensures
            r == Op::Nop,
    {
        Op::Nop
    }
}

/// The element type of a traced variable.
#[derive(Clone, Copy, Debug, PartialEq, Eq, Structural)]
pub enum VarType {
    Bool,
    I8,
    U8,
    I16,
    U16,
    I32,
    U32,
    I64,
    U64,
    Ptr,
    F16,
    F32,
    F64,
}

impl Default for VarType {
    fn default() -> (r: VarType)
        ensures
            r == VarType::Bool,
    {
        VarType::Bool
    }
}

/// The register prefix of each type.
pub open spec fn spec_prefix(ty: VarType) -> Seq<char> {
    match ty {
        VarType::Bool => "%p"@,
        VarType::I8 | VarType::U8 => "%b"@,
        VarType::I16 | VarType::U16 => "%w"@,
        VarType::I32 | VarType::U32 => "%r"@,
        VarType::I64 | VarType::U64 | VarType::Ptr => "%rd"@,
        VarType::F16 => "%h"@,
        VarType::F32 => "%f"@,
        VarType::F64 => "%d"@,
    }
}

/// The PTX name of each type.
pub open spec fn spec_name_cuda(ty: VarType) -> Seq<char> {
    match ty {
        VarType::Bool => "pred"@,
        VarType::I8 => "s8"@,
        VarType::U8 => "u8"@,
        VarType::I16 => "s16"@,
        VarType::U16 => "u16"@,
        VarType::I32 => "s32"@,
        VarType::U32 => "u32"@,
        VarType::I64 => "s64"@,
        VarType::U64 | VarType::Ptr => "u64"@,
        VarType::F16 => "f16"@,
        VarType::F32 => "f32"@,
        VarType::F64 => "f64"@,
    }
}

/// The PTX name of the untyped bit container of each type.
pub open spec fn spec_name_cuda_bin(ty: VarType) -> Seq<char> {
    match ty {
        VarType::Bool => "pred"@,
        VarType::I8 | VarType::U8 => "b8"@,
        VarType::I16 | VarType::U16 | VarType::F16 => "b16"@,
        VarType::I32 | VarType::U32 | VarType::F32 => "b32"@,
        VarType::I64 | VarType::U64 | VarType::Ptr | VarType::F64 => "b64"@,
    }
}

/// The size in bytes of one element of each type.
pub open spec fn spec_size(ty: VarType) -> nat {
    match ty {
        VarType::Bool | VarType::I8 | VarType::U8 => 1,
        VarType::I16 | VarType::U16 | VarType::F16 => 2,
        VarType::I32 | VarType::U32 | VarType::F32 => 4,
        VarType::I64 | VarType::U64 | VarType::Ptr | VarType::F64 => 8,
    }
}

impl VarType {
    /// The register prefix for this type.
    pub fn prefix(&self) -> (r: &'static str)
        ensures
            r@ == spec_prefix(*self),
    {
        match self {
            VarType::Bool => "%p",
            VarType::I8 => "%b",
            VarType::U8 => "%b",
            VarType::I16 => "%w",
            VarType::U16 => "%w",
            VarType::I32 => "%r",
            VarType::U32 => "%r",
            VarType::I64 => "%rd",
            VarType::U64 => "%rd",
            VarType::Ptr => "%rd",
            VarType::F16 => "%h",
            VarType::F32 => "%f",
            VarType::F64 => "%d",
        }
    }

    /// The PTX representation of this type.
    pub fn name_cuda(&self) -> (r: &'static str)
        ensures
            r@ == spec_name_cuda(*self),
    {
        match self {
            VarType::Bool => "pred",
            VarType::I8 => "s8",
            VarType::U8 => "u8",
            VarType::I16 => "s16",
            VarType::U16 => "u16",
            VarType::I32 => "s32",
            VarType::U32 => "u32",
            VarType::I64 => "s64",
            VarType::U64 => "u64",
            VarType::Ptr => "u64",
            VarType::F16 => "f16",
            VarType::F32 => "f32",
            VarType::F64 => "f64",
        }
    }

    /// The PTX representation of the untyped bits of this type.
    pub fn name_cuda_bin(&self) -> (r: &'static str)
        ensures
            r@ == spec_name_cuda_bin(*self),
    {
        match self {
            VarType::Bool => "pred",
            VarType::I8 => "b8",
            VarType::U8 => "b8",
            VarType::I16 => "b16",
            VarType::U16 => "b16",
            VarType::I32 => "b32",
            VarType::U32 => "b32",
            VarType::I64 => "b64",
            VarType::U64 => "b64",
            VarType::Ptr => "b64",
            VarType::F16 => "b16",
            VarType::F32 => "b32",
            VarType::F64 => "b64",
        }
    }

    /// The size (stride) in bytes of one element of this type.
    pub fn size(&self) -> (r: usize)
        ensures
            r == spec_size(*self),
    {
        match self {
            VarType::Bool => 1,
            VarType::I8 => 1,
            VarType::U8 => 1,
            VarType::I16 => 2,
            VarType::U16 => 2,
            VarType::I32 => 4,
            VarType::U32 => 4,
            VarType::I64 => 8,
            VarType::U64 => 8,
            VarType::Ptr => 8,
            VarType::F16 => 2,
            VarType::F32 => 4,
            VarType::F64 => 8,
        }
    }

    /// Whether this is an unsigned integer type.
    pub fn is_uint(&self) -> (r: bool)
        ensures
            r == (*self == VarType::U8 || *self == VarType::U16 || *self == VarType::U32
                || *self == VarType::U64),
    {
        match self {
            VarType::U8 | VarType::U16 | VarType::U32 | VarType::U64 => true,
            _ => false,
        }
    }

    /// Whether this is the single precision float type.
    pub fn is_single(&self) -> (r: bool)
        ensures
            r == (*self == VarType::F32),
    {
        match self {
            VarType::F32 => true,
            _ => false,
        }
    }

    /// Whether this is the double precision float type.
    pub fn is_double(&self) -> (r: bool)
        ensures
            r == (*self == VarType::F64),
    {
        match self {
            VarType::F64 => true,
            _ => false,
        }
    }
}

/// The index of a variable in an [`Ir`].
#[derive(Clone, Copy, Debug, Hash, PartialEq, Eq, Structural)]
pub struct VarId(pub usize);

/// The index of an entry of a kernel's parameter table.
#[derive(Clone, Copy, Debug)]
pub struct ParamId(pub usize);

impl std::ops::Deref for ParamId {
    type Target = usize;

    fn deref(&self) -> (r: &usize)
        ensures
            *r == self.0,
    {
        &self.0
    }
}

impl ParamId {
    /// The byte offset of this entry: entries are eight bytes wide.
    pub fn offset(self) -> (r: usize)
        requires
            self.0 * 8 <= usize::MAX,
        ensures
            r == self.0 * 8,
    {
        self.0 * 8
    }
}

} // verus!

verus! {

/// A traced variable.
///
/// `buffer` names the device buffer that holds the variable's data, by the
/// handle under which the buffer's owner keeps it.
#[derive(Debug)]
pub struct Var {
    pub op: Op,
    pub deps: DepList,
    pub ty: VarType,
    pub buffer: Option<usize>,
    pub size: usize,
    pub param_ty: ParamType,
}

impl Var {
    /// The indices of the variables this one depends on.
    pub open spec fn dep_seq(&self) -> Seq<usize> {
        dep_items(self.deps)
    }

    /// The indices of the variables this one depends on.
    pub fn deps(&self) -> (r: &[usize])
        ensures
            r@ == self.dep_seq(),
    {
        dep_list_as_slice(&self.deps)
    }
}

impl Default for Var {
    fn default() -> (r: Var)
        ensures
            r.op == Op::Nop,
            r.dep_seq() == Seq::<usize>::empty(),
            r.ty == VarType::Bool,
            r.buffer is None,
            r.size == 0,
            r.param_ty == ParamType::Unbound,
    {
        Var {
            op: Op::Nop,
            deps: dep_list_new(),
            ty: VarType::Bool,
            buffer: None,
            size: 0,
            param_ty: ParamType::Unbound,
        }
    }
}

/// Every dependency of `v` is a variable before index `i`.
pub open spec fn deps_before(v: Var, i: int) -> bool {
    forall|k: int| 0 <= k < v.dep_seq().len() ==> #[trigger] v.dep_seq()[k] < i
}

/// The indices in `ids` are all below `n`.
pub open spec fn ids_below(ids: Seq<VarId>, n: int) -> bool {
    forall|k: int| 0 <= k < ids.len() ==> #[trigger] ids[k].0 < n
}

/// The indices held by `ids`, in order.
pub open spec fn dep_indices(ids: Seq<VarId>) -> Seq<usize>
    decreases ids.len(),
{
    if ids.len() == 0 {
        Seq::empty()
    } else {
        dep_indices(ids.drop_last()).push(ids.last().0)
    }
}

pub proof fn lemma_dep_indices_index(ids: Seq<VarId>, k: int)
    requires
        0 <= k < ids.len(),
    ensures
        dep_indices(ids).len() == ids.len(),
        dep_indices(ids)[k] == ids[k].0,
    decreases ids.len(),
{
    lemma_dep_indices_len(ids);
    if k < ids.len() - 1 {
        lemma_dep_indices_index(ids.drop_last(), k);
    }
}

pub proof fn lemma_dep_indices_len(ids: Seq<VarId>)
    ensures
        dep_indices(ids).len() == ids.len(),
    decreases ids.len(),
{
    if ids.len() > 0 {
        lemma_dep_indices_len(ids.drop_last());
    }
}

/// The variable indices held by `ids`.
pub open spec fn index_set(ids: Seq<VarId>) -> Set<usize> {
    Set::new(|x: usize| exists|k: int| 0 <= k < ids.len() && #[trigger] ids[k].0 == x)
}

/// Appending an index adds it to the index set.
pub proof fn lemma_index_set_push(ids: Seq<VarId>, x: VarId)
    ensures
        index_set(ids.push(x)) == index_set(ids).insert(x.0),
{
    let s = ids.push(x);
    assert forall|y: usize| index_set(s).contains(y) implies index_set(ids).insert(x.0).contains(y) by {
        let k = choose|k: int| 0 <= k < s.len() && #[trigger] s[k].0 == y;
        if k < ids.len() {
            assert(ids[k].0 == y);
        }
    }
    assert forall|y: usize| index_set(ids).insert(x.0).contains(y) implies index_set(s).contains(y) by {
        if y == x.0 {
            assert(s[ids.len() as int].0 == y);
        } else {
            let k = choose|k: int| 0 <= k < ids.len() && #[trigger] ids[k].0 == y;
            assert(s[k].0 == y);
        }
    }
    assert(index_set(s) =~= index_set(ids).insert(x.0));
}

/// The scheduled variables that still need a device buffer, each once, in
/// the order of their first scheduling.
pub open spec fn pending(vars: Seq<Var>, sched: Seq<VarId>) -> Seq<VarId>
    decreases sched.len(),
{
    if sched.len() == 0 {
        Seq::empty()
    } else {
        let p = pending(vars, sched.drop_last());
        let id = sched.last();
        if vars[id.0 as int].buffer is None && !sched.drop_last().contains(id) {
            p.push(id)
        } else {
            p
        }
    }
}

/// The number of bytes that the data of `v` takes.
pub open spec fn buffer_bytes(v: Var) -> int {
    v.size * spec_size(v.ty)
}

/// A buffer allocated for a variable holds all of its elements: one byte per
/// element of a flag or an 8-bit type, two for a 16-bit type, four for a
/// 32-bit type and eight for a 64-bit type or a pointer.
pub proof fn law_buffer_holds_elements(v: Var)
    ensures
        buffer_bytes(v) == v.size * spec_size(v.ty),
        (v.ty == VarType::Bool || v.ty == VarType::I8 || v.ty == VarType::U8) ==> buffer_bytes(v) == v.size,
        (v.ty == VarType::I16 || v.ty == VarType::U16 || v.ty == VarType::F16) ==> buffer_bytes(v) == 2 * v.size,
        (v.ty == VarType::I32 || v.ty == VarType::U32 || v.ty == VarType::F32) ==> buffer_bytes(v) == 4 * v.size,
        (v.ty == VarType::I64 || v.ty == VarType::U64 || v.ty == VarType::F64 || v.ty == VarType::Ptr)
            ==> buffer_bytes(v) == 8 * v.size,
{
}

/// The larger of two integers is at least each of them and is one of them.
pub proof fn law_max_is_larger(a: int, b: int)
    ensures
        spec_max(a, b) >= a,
        spec_max(a, b) >= b,
        spec_max(a, b) == a || spec_max(a, b) == b,
{
}

/// The size folded over the variables `ids` is at least the size of each of
/// them, and, where there is any, it is the size of one of them.
pub proof fn law_max_size_bounds(vars: Seq<Var>, ids: Seq<VarId>)
    ensures
        forall|k: int| 0 <= k < ids.len() ==> max_size(vars, ids) >= (#[trigger] vars[ids[k].0 as int]).size,
        ids.len() == 0 ==> max_size(vars, ids) == 0,
        ids.len() > 0 ==> exists|k: int| 0 <= k < ids.len() && max_size(vars, ids) == (#[trigger] vars[ids[k].0 as int]).size,
    decreases ids.len(),
{
    if ids.len() > 0 {
        let prev = ids.drop_last();
        law_max_size_bounds(vars, prev);
        let last = vars[ids.last().0 as int].size as int;
        law_max_is_larger(max_size(vars, prev), last);
        assert forall|k: int| 0 <= k < ids.len() implies max_size(vars, ids) >= (#[trigger] vars[ids[k].0 as int]).size by {
            if k < ids.len() - 1 {
                assert(ids[k] == prev[k]);
            }
        }
        if max_size(vars, ids) == last {
            assert(vars[ids[ids.len() - 1].0 as int].size == max_size(vars, ids));
        } else {
            assert(prev.len() > 0);
            let k = choose|k: int| 0 <= k < prev.len() && max_size(vars, prev) == (#[trigger] vars[prev[k].0 as int]).size;
            assert(ids[k] == prev[k]);
            assert(vars[ids[k].0 as int].size == max_size(vars, ids));
        }
    }
}

/// The buffer sizes of the variables in `sched` that lack a buffer fit in a
/// `usize`.
pub open spec fn buffer_sizes_fit(vars: Seq<Var>, sched: Seq<VarId>) -> bool {
    forall|k: int|
        0 <= k < sched.len() && (#[trigger] vars[sched[k].0 as int]).buffer is None ==> buffer_bytes(
            vars[sched[k].0 as int],
        ) <= usize::MAX
}

/// A pending variable occurs in the schedule; the pending variables are
/// distinct.
pub proof fn lemma_pending(vars: Seq<Var>, sched: Seq<VarId>)
    ensures
        forall|j: int| 0 <= j < pending(vars, sched).len() ==> sched.contains(
            #[trigger] pending(vars, sched)[j],
        ),
        forall|j: int| 0 <= j < pending(vars, sched).len() ==> (#[trigger] vars[pending(vars, sched)[j].0 as int]).buffer is None,
        pending(vars, sched).no_duplicates(),
    decreases sched.len(),
{
    if sched.len() > 0 {
        let prev = sched.drop_last();
        lemma_pending(vars, prev);
        let p = pending(vars, prev);
        assert forall|j: int| 0 <= j < p.len() implies sched.contains(#[trigger] p[j]) by {
            let m = choose|m: int| 0 <= m < prev.len() && prev[m] == p[j];
            assert(sched[m] == p[j]);
        }
        assert(sched[sched.len() - 1] == sched.last());
    }
}

/// Every scheduled variable without a buffer is pending.
pub proof fn lemma_pending_covers(vars: Seq<Var>, sched: Seq<VarId>)
    ensures
        forall|k: int|
            0 <= k < sched.len() && (#[trigger] vars[sched[k].0 as int]).buffer is None ==> pending(
                vars,
                sched,
            ).contains(sched[k]),
    decreases sched.len(),
{
    if sched.len() > 0 {
        let prev = sched.drop_last();
        lemma_pending_covers(vars, prev);
        let p = pending(vars, prev);
        assert forall|k: int|
            0 <= k < sched.len() && (#[trigger] vars[sched[k].0 as int]).buffer is None implies pending(
                vars,
                sched,
            ).contains(sched[k]) by {
            if k < sched.len() - 1 {
                assert(prev[k] == sched[k]);
                assert(vars[prev[k].0 as int].buffer is None);
                let m = choose|m: int| 0 <= m < p.len() && p[m] == sched[k];
                assert(pending(vars, sched)[m] == sched[k]);
            } else if prev.contains(sched.last()) {
                let m = choose|m: int| 0 <= m < prev.len() && prev[m] == sched.last();
                assert(vars[prev[m].0 as int].buffer is None);
                let q = choose|q: int| 0 <= q < p.len() && p[q] == prev[m];
                assert(pending(vars, sched)[q] == sched[k]);
            } else {
                assert(pending(vars, sched) == p.push(sched.last()));
                assert(pending(vars, sched)[p.len() as int] == sched[k]);
            }
        }
    }
}

/// The larger of two integers.
pub open spec fn spec_max(a: int, b: int) -> int {
    if a < b { b } else { a }
}

/// The largest size among the variables `ids`, folded from the left.
pub open spec fn max_size(vars: Seq<Var>, ids: Seq<VarId>) -> int
    decreases ids.len(),
{
    if ids.len() == 0 {
        0
    } else {
        spec_max(max_size(vars, ids.drop_last()), vars[ids.last().0 as int].size as int)
    }
}

/// The store of traced variables, in the order in which they were traced,
/// and the variables scheduled for evaluation.
#[derive(Debug)]
pub struct Ir {
    vars: Vec<Var>,
    scheduled: Vec<VarId>,
}

impl Default for Ir {
    fn default() -> (r: Ir)
        ensures
            r.spec_vars() == Seq::<Var>::empty(),
            r.spec_scheduled() == Seq::<VarId>::empty(),
            r.wf(),
    {
        Ir::new()
    }
}

impl Ir {
    /// The traced variables, by index.
    pub closed spec fn spec_vars(&self) -> Seq<Var> {
        self.vars@
    }

    /// The variables scheduled for evaluation, in order.
    pub closed spec fn spec_scheduled(&self) -> Seq<VarId> {
        self.scheduled@
    }

    /// The number of traced variables.
    pub open spec fn n_vars(&self) -> int {
        self.spec_vars().len() as int
    }

    /// The dependencies of variable `i`.
    pub open spec fn deps_of(&self, i: int) -> Seq<usize> {
        self.spec_vars()[i].dep_seq()
    }

    /// Well-formedness: each variable depends only on variables traced
    /// before it (so the variables form a DAG in topological order), and each
    /// scheduled index names a variable.
    pub open spec fn wf(&self) -> bool {
        &&& dag(self.spec_vars())
        &&& ids_below(self.spec_scheduled(), self.n_vars())
    }

    /// Whether the store is well-formed (see [`Ir::wf`]).
    pub fn is_wf(&self) -> (r: bool)
        ensures
            r == self.wf(),
    {
        let n = self.vars.len();
        for i in 0..n
            invariant
                n == self.vars@.len(),
                forall|j: int| 0 <= j < i ==> #[trigger] deps_before(self.vars@[j], j),
        {
            let deps = self.vars[i].deps();
            for k in 0..deps.len()
                invariant
                    n == self.vars@.len(),
                    i < n,
                    deps@ == self.vars@[i as int].dep_seq(),
                    forall|m: int| 0 <= m < k ==> #[trigger] deps@[m] < i,
            {
                if deps[k] >= i {
                    assert(!deps_before(self.vars@[i as int], i as int));
                    return false;
                }
            }
        }
        let s = self.scheduled.len();
        for k in 0..s
            invariant
                n == self.vars@.len(),
                s == self.scheduled@.len(),
                dag(self.vars@),
                forall|m: int| 0 <= m < k ==> #[trigger] self.scheduled@[m].0 < n,
        {
            if self.scheduled[k].0 >= n {
                return false;
            }
        }
        true
    }

    /// An empty store.
    pub fn new() -> (r: Ir)
        ensures
            r.spec_vars() == Seq::<Var>::empty(),
            r.spec_scheduled() == Seq::<VarId>::empty(),
            r.wf(),
    {
        Ir { vars: Vec::new(), scheduled: Vec::new() }
    }

    /// Appends `var` and returns its index.
    pub fn push_var(&mut self, var: Var) -> (id: VarId)
        ensures
            id.0 == old(self).n_vars(),
            final(self).spec_vars() == old(self).spec_vars().push(var),
            final(self).spec_scheduled() == old(self).spec_scheduled(),
            old(self).wf() && deps_before(var, old(self).n_vars()) ==> final(self).wf(),
    {
        let id = VarId(self.vars.len());
        self.vars.push(var);
        id
    }

    /// The variable at `id`.
    pub fn var(&self, id: VarId) -> (r: &Var)
        requires
            id.0 < self.n_vars(),
        ensures
            *r == self.spec_vars()[id.0 as int],
    {
        &self.vars[id.0]
    }

    /// The traced variables, by index.
    pub fn vars(&self) -> (r: &[Var])
        ensures
            r@ == self.spec_vars(),
    {
        self.vars.as_slice()
    }

    /// The variables scheduled for evaluation, in order.
    pub fn scheduled(&self) -> (r: &[VarId])
        ensures
            r@ == self.spec_scheduled(),
    {
        self.scheduled.as_slice()
    }

    /// Appends `ids` to the scheduled variables.
    pub fn schedule(&mut self, ids: &[VarId])
        requires
            ids_below(ids@, old(self).n_vars()),
        ensures
            final(self).spec_vars() == old(self).spec_vars(),
            final(self).spec_scheduled() == old(self).spec_scheduled() + ids@,
            old(self).wf() ==> final(self).wf(),
    {
        let n = ids.len();
        for k in 0..n
            invariant
                n == ids@.len(),
                self.vars@ == old(self).vars@,
                self.scheduled@ == old(self).scheduled@ + ids@.take(k as int),
        {
            self.scheduled.push(ids[k]);
            assert(ids@.take(k + 1) == ids@.take(k as int).push(ids@[k as int]));
        }
        assert(ids@.take(n as int) == ids@);
    }

    /// The variable at `id`, for update.
    pub fn var_mut(&mut self, id: VarId) -> (r: &mut Var)
        requires
            id.0 < old(self).n_vars(),
        ensures
            *r == old(self).spec_vars()[id.0 as int],
            final(self).spec_vars() == old(self).spec_vars().update(id.0 as int, *final(r)),
            final(self).spec_scheduled() == old(self).spec_scheduled(),
    {
        &mut self.vars[id.0]
    }

    /// Appends a variable computed from `deps`, of type `ty` and `size`
    /// elements.
    ///
    /// The new variable records `Op::Add` whatever `op` is given.
    pub fn push_var_intermediate(&mut self, op: Op, deps: &[VarId], ty: VarType, size: usize) -> (id: VarId)
        ensures
            id.0 == old(self).n_vars(),
            final(self).n_vars() == old(self).n_vars() + 1,
            final(self).spec_vars().drop_last() == old(self).spec_vars(),
            final(self).spec_vars()[id.0 as int].op == Op::Add,
            final(self).spec_vars()[id.0 as int].dep_seq() == dep_indices(deps@),
            final(self).spec_vars()[id.0 as int].ty == ty,
            final(self).spec_vars()[id.0 as int].param_ty == ParamType::Unbound,
            final(self).spec_vars()[id.0 as int].buffer is None,
            final(self).spec_vars()[id.0 as int].size == size,
            final(self).spec_scheduled() == old(self).spec_scheduled(),
            old(self).wf() && ids_below(deps@, old(self).n_vars()) ==> final(self).wf(),
    {
        let mut indices: Vec<usize> = Vec::new();
        let n = deps.len();
        for k in 0..n
            invariant
                n == deps@.len(),
                indices@ == dep_indices(deps@.take(k as int)),
        {
            indices.push(deps[k].0);
            assert(deps@.take(k + 1).drop_last() == deps@.take(k as int));
        }
        assert(deps@.take(n as int) == deps@);
        let var = Var {
            op: Op::Add,
            deps: dep_list_from_slice(indices.as_slice()),
            ty,
            param_ty: ParamType::Unbound,
            buffer: None,
            size,
        };
        proof {
            lemma_dep_indices_len(deps@);
            if ids_below(deps@, old(self).n_vars()) {
                assert forall|k: int| 0 <= k < var.dep_seq().len() implies #[trigger] var.dep_seq()[k]
                    < old(self).n_vars() by {
                    lemma_dep_indices_index(deps@, k);
                }
            }
        }
        let id = self.push_var(var);
        proof {
            assert(self.spec_vars().drop_last() == old(self).spec_vars());
        }
        id
    }

    /// The largest size among `ids` and their common type.
    ///
    /// All of `ids` must have the same type.
    pub fn assert_ty(&self, ids: &[VarId]) -> (r: (usize, &VarType))
        requires
            ids@.len() > 0,
            ids_below(ids@, self.n_vars()),
            forall|k: int| 0 <= k < ids@.len() ==> self.spec_vars()[#[trigger] ids@[k].0 as int].ty
                == self.spec_vars()[ids@[0].0 as int].ty,
        ensures
            r.0 == max_size(self.spec_vars(), ids@),
            *r.1 == self.spec_vars()[ids@[0].0 as int].ty,
    {
        let ty = &self.vars[ids[0].0].ty;
        let mut size: usize = self.vars[ids[0].0].size;
        let n = ids.len();
        assert(ids@.take(1).drop_last() == ids@.take(0));
        assert(ids@.take(1).last() == ids@[0]);
        assert(max_size(self.spec_vars(), ids@.take(0)) == 0);
        for k in 1..n
            invariant
                n == ids@.len(),
                ids_below(ids@, self.n_vars()),
                size == max_size(self.spec_vars(), ids@.take(k as int)),
        {
            let s = self.vars[ids[k].0].size;
            if s > size {
                size = s;
            }
            assert(ids@.take(k + 1).drop_last() == ids@.take(k as int));
        }
        assert(ids@.take(n as int) == ids@);
        (size, ty)
    }

    /// Appends the sum of `lhs` and `rhs`, which must have the same type.
    pub fn add(&mut self, lhs: VarId, rhs: VarId) -> (id: VarId)
        requires
            lhs.0 < old(self).n_vars(),
            rhs.0 < old(self).n_vars(),
            old(self).spec_vars()[lhs.0 as int].ty == old(self).spec_vars()[rhs.0 as int].ty,
        ensures
            id.0 == old(self).n_vars(),
            final(self).n_vars() == old(self).n_vars() + 1,
            final(self).spec_vars().drop_last() == old(self).spec_vars(),
            final(self).spec_vars()[id.0 as int].op == Op::Add,
            final(self).spec_vars()[id.0 as int].dep_seq() == seq![lhs.0, rhs.0],
            final(self).spec_vars()[id.0 as int].ty == old(self).spec_vars()[lhs.0 as int].ty,
            final(self).spec_vars()[id.0 as int].param_ty == ParamType::Unbound,
            final(self).spec_vars()[id.0 as int].buffer is None,
            final(self).spec_vars()[id.0 as int].size == spec_max(
                old(self).spec_vars()[lhs.0 as int].size as int,
                old(self).spec_vars()[rhs.0 as int].size as int,
            ),
            final(self).spec_vars()[id.0 as int].size >= old(self).spec_vars()[lhs.0 as int].size,
            final(self).spec_vars()[id.0 as int].size >= old(self).spec_vars()[rhs.0 as int].size,
            final(self).spec_vars()[id.0 as int].size == old(self).spec_vars()[lhs.0 as int].size
                || final(self).spec_vars()[id.0 as int].size == old(self).spec_vars()[rhs.0 as int].size,
            final(self).spec_scheduled() == old(self).spec_scheduled(),
            old(self).wf() ==> final(self).wf(),
    {
        let operands = [lhs, rhs];
        let (size, ty) = self.assert_ty(operands.as_slice());
        let ty = *ty;
        proof {
            assert(operands@ == seq![lhs, rhs]);
            assert(operands@.drop_last() == seq![lhs]);
            assert(seq![lhs].drop_last() == Seq::<VarId>::empty());
            assert(seq![lhs].last() == lhs);
            assert(operands@.last() == rhs);
            assert(dep_indices(Seq::<VarId>::empty()) == Seq::<usize>::empty());
            assert(dep_indices(seq![lhs]) == seq![lhs.0]);
            assert(dep_indices(operands@) == seq![lhs.0, rhs.0]);
            assert(max_size(self.spec_vars(), Seq::<VarId>::empty()) == 0);
            assert(max_size(self.spec_vars(), seq![lhs]) == self.spec_vars()[lhs.0 as int].size);
            assert(max_size(self.spec_vars(), operands@) == spec_max(
                self.spec_vars()[lhs.0 as int].size as int,
                self.spec_vars()[rhs.0 as int].size as int,
            ));
        }
        self.push_var_intermediate(Op::Add, operands.as_slice(), ty, size)
    }

    /// Appends a single precision constant, given by its bit pattern.
    pub fn const_f32(&mut self, bits: u32) -> (id: VarId)
        ensures
            id.0 == old(self).n_vars(),
            final(self).n_vars() == old(self).n_vars() + 1,
            final(self).spec_vars().drop_last() == old(self).spec_vars(),
            final(self).spec_vars()[id.0 as int].op == Op::ConstF32(bits),
            final(self).spec_vars()[id.0 as int].dep_seq() == Seq::<usize>::empty(),
            final(self).spec_vars()[id.0 as int].ty == VarType::F32,
            final(self).spec_vars()[id.0 as int].param_ty == ParamType::Unbound,
            final(self).spec_vars()[id.0 as int].buffer is None,
            final(self).spec_vars()[id.0 as int].size == 0,
            final(self).spec_scheduled() == old(self).spec_scheduled(),
            old(self).wf() ==> final(self).wf(),
    {
        let mut var = Var::default();
        var.op = Op::ConstF32(bits);
        var.ty = VarType::F32;
        let id = self.push_var(var);
        proof {
            assert(self.spec_vars().drop_last() == old(self).spec_vars());
        }
        id
    }

    /// Appends an input variable of `len` single precision elements held by
    /// the device buffer `buffer`.
    pub fn buffer_f32(&mut self, buffer: usize, len: usize) -> (id: VarId)
        ensures
            id.0 == old(self).n_vars(),
            final(self).n_vars() == old(self).n_vars() + 1,
            final(self).spec_vars().drop_last() == old(self).spec_vars(),
            final(self).spec_vars()[id.0 as int].op == Op::Nop,
            final(self).spec_vars()[id.0 as int].dep_seq() == Seq::<usize>::empty(),
            final(self).spec_vars()[id.0 as int].ty == VarType::F32,
            final(self).spec_vars()[id.0 as int].param_ty == ParamType::Input,
            final(self).spec_vars()[id.0 as int].buffer == Some(buffer),
            final(self).spec_vars()[id.0 as int].size == len,
            final(self).spec_scheduled() == old(self).spec_scheduled(),
            old(self).wf() ==> final(self).wf(),
    {
        let mut var = Var::default();
        var.param_ty = ParamType::Input;
        var.buffer = Some(buffer);
        var.size = len;
        var.ty = VarType::F32;
        let id = self.push_var(var);
        proof {
            assert(self.spec_vars().drop_last() == old(self).spec_vars());
        }
        id
    }

    /// The device buffer that holds the single precision data of `id`.
    ///
    /// The variable must have type `F32` and a buffer.
    pub fn host_f32_buffer(&self, id: VarId) -> (r: usize)
        requires
            id.0 < self.n_vars(),
            self.spec_vars()[id.0 as int].ty == VarType::F32,
            self.spec_vars()[id.0 as int].buffer is Some,
        ensures
            Some(r) == self.spec_vars()[id.0 as int].buffer,
    {
        let var = &self.vars[id.0];
        match var.buffer {
            Some(b) => b,
            None => 0,
        }
    }

    /// Depth-first visit of `id`: records every variable reachable from `id`
    /// that was not discovered yet.
    fn visit(&self, id: usize, discovered: &mut HashSet<usize>, out: &mut Vec<VarId>)
        requires
            self.wf(),
            id < self.n_vars(),
            forall|x: usize|
                #[trigger] old(discovered)@.contains(x) && x <= id ==> reach(self.spec_vars(), x).subset_of(
                    old(discovered)@,
                ),
            index_set(old(out)@) == old(discovered)@,
            old(out)@.no_duplicates(),
        ensures
            final(discovered)@ == old(discovered)@.union(reach(self.spec_vars(), id)),
            index_set(final(out)@) == final(discovered)@,
            final(out)@.no_duplicates(),
        decreases id,
    {
        broadcast use vstd::std_specs::hash::group_hash_axioms;

        let ghost vars = self.spec_vars();
        proof {
            lemma_reach_unfold(vars, id);
            lemma_reach_closed(vars, id);
        }
        if discovered.contains(&id) {
            assert(discovered@.union(reach(vars, id)) =~= discovered@);
            return;
        }
        let ghost out0 = out@;
        discovered.insert(id);
        out.push(VarId(id));
        proof {
            assert(index_set(out@) =~= index_set(out0).insert(id)) by {
                assert forall|x: usize| index_set(out@).contains(x) implies index_set(out0).insert(id).contains(x) by {
                    let k = choose|k: int| 0 <= k < out@.len() && #[trigger] out@[k].0 == x;
                    if k < out0.len() {
                        assert(out0[k].0 == x);
                    }
                }
                assert forall|x: usize| index_set(out0).insert(id).contains(x) implies index_set(out@).contains(x) by {
                    if x == id {
                        assert(out@[out0.len() as int].0 == x);
                    } else {
                        let k = choose|k: int| 0 <= k < out0.len() && #[trigger] out0[k].0 == x;
                        assert(out@[k].0 == x);
                    }
                }
            }
            assert forall|a: int, b: int| 0 <= a < out@.len() && 0 <= b < out@.len() && a != b implies out@[a]
                != out@[b] by {
                if a == out0.len() {
                    assert(index_set(out0).contains(out0[b].0));
                } else if b == out0.len() {
                    assert(index_set(out0).contains(out0[a].0));
                }
            }
        }
        let deps = self.vars[id].deps();
        let n = deps.len();
        assert(deps_before(vars[id as int], id as int));
        for k in 0..n
            invariant
                self.wf(),
                vars == self.spec_vars(),
                id < self.n_vars(),
                deps@ == vars[id as int].dep_seq(),
                n == deps@.len(),
                deps_before(vars[id as int], id as int),
                discovered@ == old(discovered)@.insert(id).union(reach_deps(vars, id, k as nat)),
                forall|x: usize|
                    #[trigger] discovered@.contains(x) && x < id ==> reach(vars, x).subset_of(discovered@),
                index_set(out@) == discovered@,
                out@.no_duplicates(),
        {
            let d = deps[k];
            assert(d < id);
            let ghost disc0 = discovered@;
            self.visit(d, discovered, out);
            proof {
                assert(reach_deps(vars, id, (k + 1) as nat) == reach_deps(vars, id, k as nat).union(
                    reach(vars, d),
                ));
                assert(discovered@ =~= old(discovered)@.insert(id).union(reach_deps(vars, id, (k + 1) as nat)));
                lemma_reach_closed(vars, d);
                assert forall|x: usize| #[trigger] discovered@.contains(x) && x < id implies reach(
                    vars,
                    x,
                ).subset_of(discovered@) by {
                    if disc0.contains(x) {
                        assert(reach(vars, x).subset_of(disc0));
                    } else {
                        assert(reach(vars, d).contains(x));
                        assert forall|y: usize| reach(vars, x).contains(y) implies discovered@.contains(y) by {
                            assert(reach(vars, d).contains(y));
                        }
                    }
                }
            }
        }
        proof {
            assert(reach(vars, id) == set![id].union(reach_deps(vars, id, n as nat)));
            assert(discovered@ =~= old(discovered)@.union(reach(vars, id)));
        }
    }

    /// Every variable reachable from `schedule`, each listed once.
    pub fn deps(&self, schedule: &[VarId]) -> (r: Vec<VarId>)
        requires
            self.wf(),
            ids_below(schedule@, self.n_vars()),
        ensures
            index_set(r@) == reach_all(self.spec_vars(), schedule@),
            r@.no_duplicates(),
    {
        broadcast use vstd::std_specs::hash::group_hash_axioms;

        let ghost vars = self.spec_vars();
        let mut discovered: HashSet<usize> = HashSet::new();
        let mut out: Vec<VarId> = Vec::new();
        let n = schedule.len();
        assert(index_set(out@) =~= discovered@);
        for k in 0..n
            invariant
                self.wf(),
                vars == self.spec_vars(),
                n == schedule@.len(),
                ids_below(schedule@, self.n_vars()),
                discovered@ == reach_all(vars, schedule@.take(k as int)),
                forall|x: usize| #[trigger] discovered@.contains(x) ==> reach(vars, x).subset_of(discovered@),
                index_set(out@) == discovered@,
                out@.no_duplicates(),
        {
            let s = schedule[k].0;
            let ghost disc0 = discovered@;
            self.visit(s, &mut discovered, &mut out);
            proof {
                assert(schedule@.take(k + 1).drop_last() == schedule@.take(k as int));
                assert(schedule@.take(k + 1).last() == schedule@[k as int]);
                lemma_reach_closed(vars, s);
                assert forall|x: usize| #[trigger] discovered@.contains(x) implies reach(vars, x).subset_of(
                    discovered@,
                ) by {
                    if disc0.contains(x) {
                        assert(reach(vars, x).subset_of(disc0));
                    } else {
                        assert forall|y: usize| reach(vars, x).contains(y) implies discovered@.contains(y) by {
                            assert(reach(vars, s).contains(y));
                        }
                    }
                }
            }
        }
        assert(schedule@.take(n as int) == schedule@);
        out
    }

    /// The scheduled variables that still need a device buffer, each once, in
    /// the order of their first scheduling, with the number of bytes each
    /// buffer takes.
    pub fn pending_buffers(&self) -> (r: Vec<(VarId, usize)>)
        requires
            self.wf(),
            buffer_sizes_fit(self.spec_vars(), self.spec_scheduled()),
        ensures
            r@.len() == pending(self.spec_vars(), self.spec_scheduled()).len(),
            forall|k: int| 0 <= k < r@.len() ==> (#[trigger] r@[k]).0 == pending(
                self.spec_vars(),
                self.spec_scheduled(),
            )[k],
            forall|k: int| 0 <= k < r@.len() ==> (#[trigger] r@[k]).1 == buffer_bytes(
                self.spec_vars()[r@[k].0.0 as int],
            ),
            forall|k: int| 0 <= k < r@.len() ==> (#[trigger] r@[k]).1 == self.spec_vars()[r@[k].0.0 as int].size
                * spec_size(self.spec_vars()[r@[k].0.0 as int].ty),
    {
        broadcast use vstd::std_specs::hash::group_hash_axioms;

        let ghost vars = self.vars@;
        let ghost sched = self.scheduled@;
        let n = self.scheduled.len();
        let mut seen: HashSet<usize> = HashSet::new();
        let mut r: Vec<(VarId, usize)> = Vec::new();
        assert(index_set(sched.take(0)) =~= Set::<usize>::empty());
        for k in 0..n
            invariant
                self.wf(),
                vars == self.spec_vars(),
                sched == self.spec_scheduled(),
                n == sched.len(),
                buffer_sizes_fit(vars, sched),
                seen@ == index_set(sched.take(k as int)),
                r@.len() == pending(vars, sched.take(k as int)).len(),
                forall|j: int| 0 <= j < r@.len() ==> (#[trigger] r@[j]).0 == pending(vars, sched.take(k as int))[j],
                forall|j: int| 0 <= j < r@.len() ==> (#[trigger] r@[j]).1 == buffer_bytes(vars[r@[j].0.0 as int]),
        {
            let id = self.scheduled[k];
            let ghost pre = sched.take(k as int);
            proof {
                assert(sched.take(k + 1).drop_last() == pre);
                assert(sched.take(k + 1).last() == id);
                assert(ids_below(sched, vars.len() as int));
                assert(id.0 < vars.len());
                assert(pre.contains(id) <==> index_set(pre).contains(id.0)) by {
                    if index_set(pre).contains(id.0) {
                        let m = choose|m: int| 0 <= m < pre.len() && #[trigger] pre[m].0 == id.0;
                        assert(pre[m] == id);
                    }
                    if pre.contains(id) {
                        let m = choose|m: int| 0 <= m < pre.len() && pre[m] == id;
                        assert(pre[m].0 == id.0);
                    }
                }
            }
            let var = &self.vars[id.0];
            if var.buffer.is_none() && !seen.contains(&id.0) {
                assert(vars[sched[k as int].0 as int].buffer is None);
                let bytes = var.size * var.ty.size();
                r.push((id, bytes));
            }
            seen.insert(id.0);
            proof {
                lemma_index_set_push(pre, id);
                assert(sched.take(k + 1) == pre.push(id));
            }
        }
        assert(sched.take(n as int) == sched);
        r
    }

    /// Marks the scheduled variables as evaluated: each becomes data with no
    /// dependencies, and nothing remains scheduled.
    pub fn retire_scheduled(&mut self)
        requires
            old(self).wf(),
        ensures
            final(self).wf(),
            final(self).n_vars() == old(self).n_vars(),
            final(self).spec_scheduled() == Seq::<VarId>::empty(),
            forall|i: usize| i < old(self).n_vars() && !index_set(old(self).spec_scheduled()).contains(i)
                ==> #[trigger] final(self).spec_vars()[i as int] == old(self).spec_vars()[i as int],
            forall|i: usize| i < old(self).n_vars() && index_set(old(self).spec_scheduled()).contains(i)
                ==> {
                    &&& (#[trigger] final(self).spec_vars()[i as int]).op == Op::Data
                    &&& final(self).spec_vars()[i as int].dep_seq() == Seq::<usize>::empty()
                    &&& final(self).spec_vars()[i as int].ty == old(self).spec_vars()[i as int].ty
                    &&& final(self).spec_vars()[i as int].size == old(self).spec_vars()[i as int].size
                    &&& final(self).spec_vars()[i as int].buffer == old(self).spec_vars()[i as int].buffer
                    &&& final(self).spec_vars()[i as int].param_ty == old(self).spec_vars()[i as int].param_ty
                },
    {
        let ghost vars0 = self.vars@;
        let ghost sched = self.scheduled@;
        let n = self.scheduled.len();
        assert(index_set(sched.take(0)) =~= Set::<usize>::empty());
        for k in 0..n
            invariant
                n == sched.len(),
                sched == self.scheduled@,
                ids_below(sched, vars0.len() as int),
                self.vars@.len() == vars0.len(),
                forall|i: usize| i < vars0.len() && !index_set(sched.take(k as int)).contains(i)
                    ==> #[trigger] self.vars@[i as int] == vars0[i as int],
                forall|i: usize| i < vars0.len() && index_set(sched.take(k as int)).contains(i)
                    ==> {
                        &&& (#[trigger] self.vars@[i as int]).op == Op::Data
                        &&& self.vars@[i as int].dep_seq() == Seq::<usize>::empty()
                        &&& self.vars@[i as int].ty == vars0[i as int].ty
                        &&& self.vars@[i as int].size == vars0[i as int].size
                        &&& self.vars@[i as int].buffer == vars0[i as int].buffer
                        &&& self.vars@[i as int].param_ty == vars0[i as int].param_ty
                    },
        {
            let id = self.scheduled[k].0;
            assert(id < vars0.len());
            let ghost before = self.vars@;
            let var = &mut self.vars[id];
            var.op = Op::Data;
            dep_list_clear(&mut var.deps);
            proof {
                assert(sched.take(k + 1) == sched.take(k as int).push(sched[k as int]));
                lemma_index_set_push(sched.take(k as int), sched[k as int]);
                assert forall|i: usize| i < vars0.len() && i != id implies #[trigger] self.vars@[i as int] == before[i as int] by {}
                if index_set(sched.take(k as int)).contains(id) {
                    assert(before[id as int].ty == vars0[id as int].ty);
                } else {
                    assert(before[id as int] == vars0[id as int]);
                }
            }
        }
        assert(sched.take(n as int) == sched);
        self.scheduled.clear();
        proof {
            assert forall|i: int| 0 <= i < self.n_vars() implies #[trigger] deps_before(self.spec_vars()[i], i) by {
                if !index_set(sched).contains(i as usize) {
                    assert(deps_before(vars0[i as int], i));
                }
            }
        }
    }

    /// The indices of all traced variables, in order.
    pub fn ids(&self) -> (r: Vec<VarId>)
        ensures
            r@.len() == self.n_vars(),
            forall|i: int| 0 <= i < r@.len() ==> #[trigger] r@[i] == VarId(i as usize),
    {
        let n = self.vars.len();
        let mut r: Vec<VarId> = Vec::new();
        for i in 0..n
            invariant
                n == self.n_vars(),
                r@.len() == i,
                forall|j: int| 0 <= j < i ==> #[trigger] r@[j] == VarId(j as usize),
        {
            r.push(VarId(i));
        }
        r
    }
}

} // verus!
