//! Planning of compute passes: which scheduled variables each kernel
//! computes.

use vstd::prelude::*;
use std::collections::HashSet;
use crate::trace::{Ir, VarId, Var, Op, buffer_bytes, index_set, ids_below, lemma_index_set_push, pending, buffer_sizes_fit, lemma_pending, lemma_pending_covers, deps_before};
use crate::text::{decimal, push_decimal};
use crate::graph::{reach, reach_deps, lemma_reach_unfold, lemma_reach_closed};

verus! {

/// The abstract content of a [`Pass`].
pub struct PassView {
    pub ids: Set<usize>,
    pub deps: Set<usize>,
    pub size: usize,
}

/// A group of scheduled variables computed by one kernel: the variables
/// `ids`, the scheduled variables `deps` that they depend on, and their common
/// number of elements `size`.
#[derive(Debug)]
pub struct Pass {
    pub ids: HashSet<usize>,
    pub deps: HashSet<usize>,
    pub size: usize,
}

impl View for Pass {
    type V = PassView;

    open spec fn view(&self) -> PassView {
        PassView { ids: self.ids@, deps: self.deps@, size: self.size }
    }
}

/// `other` can be merged into `p`: both have the same size and `other`
/// depends on none of the variables of `p`.
pub open spec fn mergeable(p: PassView, other: PassView) -> bool {
    p.size == other.size && p.ids.disjoint(other.deps)
}

/// `p` with `other` merged into it.
pub open spec fn merged_pass(p: PassView, other: PassView) -> PassView {
    PassView { ids: p.ids.union(other.ids), deps: p.deps.union(other.deps), size: p.size }
}

/// The views of `ps`, in order.
pub open spec fn pass_views(ps: Seq<Pass>) -> Seq<PassView> {
    ps.map_values(|p: Pass| p@)
}

/// The pass that computes the scheduled variable `id` alone: it depends on
/// the scheduled variables, other than `id`, that `id` reaches.
pub open spec fn single_pass(vars: Seq<Var>, sched: Seq<VarId>, id: VarId) -> PassView {
    PassView {
        ids: set![id.0],
        deps: reach(vars, id.0).intersect(index_set(sched)).remove(id.0),
        size: vars[id.0 as int].size,
    }
}

/// One pass per scheduled variable, in the order of scheduling.
pub open spec fn scheduled_passes(vars: Seq<Var>, sched: Seq<VarId>) -> Seq<PassView> {
    Seq::new(sched.len(), |k: int| single_pass(vars, sched, sched[k]))
}

/// Pass `k` depends on none of the variables of the passes `ps`.
pub open spec fn ready(ps: Seq<PassView>, k: int) -> bool {
    forall|j: int| 0 <= j < ps.len() ==> ps[k].deps.disjoint(#[trigger] ps[j].ids)
}

/// The first pass from index `i` on that is ready, or the number of passes
/// if none is.
pub open spec fn first_ready(ps: Seq<PassView>, i: int) -> int
    decreases ps.len() - i,
{
    if i < 0 || i >= ps.len() {
        ps.len() as int
    } else if ready(ps, i) {
        i
    } else {
        first_ready(ps, i + 1)
    }
}

/// The passes in dependency order, keeping the given order wherever it
/// allows: each time, the first remaining pass that depends on none of the
/// remaining passes comes next.
pub open spec fn dep_order(ps: Seq<PassView>) -> Seq<PassView>
    decreases ps.len(),
{
    if ps.len() == 0 {
        Seq::empty()
    } else {
        let k = first_ready(ps, 0);
        if 0 <= k < ps.len() {
            seq![ps[k]] + dep_order(ps.remove(k))
        } else {
            ps
        }
    }
}

/// One pass per scheduled variable, in the order of scheduling except
/// where a pass has to wait for a pass it depends on.
pub open spec fn single_passes(vars: Seq<Var>, sched: Seq<VarId>) -> Seq<PassView> {
    dep_order(scheduled_passes(vars, sched))
}

/// No pass depends on a variable of a later pass.
pub open spec fn dependency_ordered(ps: Seq<PassView>) -> bool {
    forall|k: int, l: int| 0 <= k < l < ps.len() ==> #[trigger] ps[k].deps.disjoint(#[trigger] ps[l].ids)
}

/// The pass holds one variable and depends only on variables before it.
pub open spec fn one_var_after_deps(p: PassView) -> bool {
    exists|x: usize| p.ids == set![x] && (forall|d: usize| p.deps.contains(d) ==> d < x)
}

/// Each pass holds one variable and depends only on variables before it.
pub open spec fn single_and_ordered(ps: Seq<PassView>) -> bool {
    forall|k: int| 0 <= k < ps.len() ==> one_var_after_deps(#[trigger] ps[k])
}

proof fn lemma_first_ready(ps: Seq<PassView>, i: int)
    requires
        0 <= i <= ps.len(),
    ensures
        i <= first_ready(ps, i) <= ps.len(),
        first_ready(ps, i) < ps.len() ==> ready(ps, first_ready(ps, i)),
        forall|m: int| i <= m < first_ready(ps, i) ==> !ready(ps, m),
    decreases ps.len() - i,
{
    if i < ps.len() && !ready(ps, i) {
        lemma_first_ready(ps, i + 1);
    }
}

/// The one variable of a pass that holds one.
spec fn the_id(p: PassView) -> usize {
    choose|x: usize| p.ids == set![x] && (forall|d: usize| p.deps.contains(d) ==> d < x)
}

/// Among the first `n` passes, one whose variable is smallest.
proof fn lemma_min_pass(ps: Seq<PassView>, n: int) -> (m: int)
    requires
        single_and_ordered(ps),
        0 < n <= ps.len(),
    ensures
        0 <= m < n,
        forall|k: int| 0 <= k < n ==> the_id(ps[m]) <= the_id(#[trigger] ps[k]),
    decreases n,
{
    if n == 1 {
        0
    } else {
        let m = lemma_min_pass(ps, n - 1);
        if the_id(ps[n - 1]) < the_id(ps[m]) {
            n - 1
        } else {
            m
        }
    }
}

/// Where each pass depends only on variables before its own, some pass is
/// ready.
proof fn lemma_some_ready(ps: Seq<PassView>)
    requires
        single_and_ordered(ps),
        ps.len() > 0,
    ensures
        first_ready(ps, 0) < ps.len(),
{
    let m = lemma_min_pass(ps, ps.len() as int);
    assert(ps[m].ids == set![the_id(ps[m])]);
    assert forall|j: int| 0 <= j < ps.len() implies ps[m].deps.disjoint(#[trigger] ps[j].ids) by {
        assert(ps[j].ids == set![the_id(ps[j])]);
        assert(the_id(ps[m]) <= the_id(ps[j]));
        assert(!ps[m].deps.contains(the_id(ps[j])));
    }
    assert(ready(ps, m));
    lemma_first_ready(ps, 0);
}

/// Ordering by dependencies keeps the passes and their number and keeps
/// them disjoint; where each pass depends only on variables before its own,
/// the order is a dependency order.
pub proof fn lemma_dep_order(ps: Seq<PassView>)
    ensures
        dep_order(ps).len() == ps.len(),
        forall|p: PassView|
            #![trigger dep_order(ps).contains(p)]
            #![trigger ps.contains(p)]
            dep_order(ps).contains(p) <==> ps.contains(p),
        pairwise_disjoint(ps) ==> pairwise_disjoint(dep_order(ps)),
        single_and_ordered(ps) ==> dependency_ordered(dep_order(ps)),
    decreases ps.len(),
{
    if ps.len() > 0 {
        lemma_first_ready(ps, 0);
        let k = first_ready(ps, 0);
        if single_and_ordered(ps) {
            lemma_some_ready(ps);
        }
        if k < ps.len() {
            let rest = ps.remove(k);
            lemma_dep_order(rest);
            let out = dep_order(ps);
            let tail = dep_order(rest);
            assert(out == seq![ps[k]] + tail);
            assert forall|q: PassView| #[trigger] rest.contains(q) <==> (ps.contains(q) && (q != ps[k] || exists|j: int| 0 <= j < ps.len() && j != k && ps[j] == q)) by {
                if rest.contains(q) {
                    let j = choose|j: int| 0 <= j < rest.len() && rest[j] == q;
                    let jj = if j < k { j } else { j + 1 };
                    assert(ps[jj] == q);
                }
                if ps.contains(q) && (q != ps[k] || exists|j: int| 0 <= j < ps.len() && j != k && ps[j] == q) {
                    let j = if q != ps[k] {
                        choose|j: int| 0 <= j < ps.len() && ps[j] == q
                    } else {
                        choose|j: int| 0 <= j < ps.len() && j != k && ps[j] == q
                    };
                    assert(j != k);
                    let jj = if j < k { j } else { j - 1 };
                    assert(rest[jj] == q);
                }
            }
            assert forall|p: PassView| out.contains(p) <==> ps.contains(p) by {
                if out.contains(p) {
                    let j = choose|j: int| 0 <= j < out.len() && out[j] == p;
                    if j > 0 {
                        assert(tail[j - 1] == p);
                        assert(tail.contains(p));
                    }
                }
                if ps.contains(p) {
                    if p == ps[k] {
                        assert(out[0] == p);
                    } else {
                        assert(rest.contains(p));
                        let j = choose|j: int| 0 <= j < tail.len() && tail[j] == p;
                        assert(out[j + 1] == p);
                    }
                }
            }
            if pairwise_disjoint(ps) {
                assert(pairwise_disjoint(rest)) by {
                    assert forall|a: int, b: int| 0 <= a < rest.len() && 0 <= b < rest.len() && a != b implies #[trigger] rest[a].ids.disjoint(#[trigger] rest[b].ids) by {
                        let aa = if a < k { a } else { a + 1 };
                        let bb = if b < k { b } else { b + 1 };
                        assert(rest[a] == ps[aa] && rest[b] == ps[bb]);
                    }
                }
                assert forall|a: int, b: int| 0 <= a < out.len() && 0 <= b < out.len() && a != b implies #[trigger] out[a].ids.disjoint(#[trigger] out[b].ids) by {
                    if a > 0 && b > 0 {
                        assert(out[a] == tail[a - 1] && out[b] == tail[b - 1]);
                    } else {
                        let c = if a == 0 { b } else { a };
                        assert(out[c] == tail[c - 1]);
                        assert(tail.contains(tail[c - 1]));
                        assert(rest.contains(tail[c - 1]));
                        let j = choose|j: int| 0 <= j < rest.len() && rest[j] == tail[c - 1];
                        let jj = if j < k { j } else { j + 1 };
                        assert(ps[jj] == tail[c - 1]);
                        assert(ps[k].ids.disjoint(ps[jj].ids));
                    }
                }
            }
            if single_and_ordered(ps) {
                assert(single_and_ordered(rest)) by {
                    assert forall|a: int| 0 <= a < rest.len() implies one_var_after_deps(#[trigger] rest[a]) by {
                        let aa = if a < k { a } else { a + 1 };
                        assert(rest[a] == ps[aa]);
                        assert(one_var_after_deps(ps[aa]));
                    }
                }
                assert forall|a: int, b: int| 0 <= a < b < out.len() implies #[trigger] out[a].deps.disjoint(#[trigger] out[b].ids) by {
                    assert(out[b] == tail[b - 1]);
                    if a > 0 {
                        assert(out[a] == tail[a - 1]);
                    } else {
                        assert(tail.contains(tail[b - 1]));
                        assert(rest.contains(tail[b - 1]));
                        let j = choose|j: int| 0 <= j < rest.len() && rest[j] == tail[b - 1];
                        let jj = if j < k { j } else { j + 1 };
                        assert(ps[jj] == tail[b - 1]);
                        assert(ps[k].deps.disjoint(ps[jj].ids));
                    }
                }
            }
        }
    }
}

/// The scheduled passes of a well-formed store each hold one variable and
/// depend only on variables before it.
proof fn lemma_scheduled_passes_ordered(vars: Seq<Var>, sched: Seq<VarId>)
    requires
        crate::graph::dag(vars),
        ids_below(sched, vars.len() as int),
    ensures
        single_and_ordered(scheduled_passes(vars, sched)),
{
    let ps = scheduled_passes(vars, sched);
    assert forall|k: int| 0 <= k < ps.len() implies one_var_after_deps(#[trigger] ps[k]) by {
        let x = sched[k].0;
        assert(x < vars.len());
        assert(ps[k] == single_pass(vars, sched, sched[k]));
        lemma_reach_closed(vars, x);
        assert(forall|d: usize| ps[k].deps.contains(d) ==> d < x);
        assert(ps[k].ids == set![x] && (forall|d: usize| ps[k].deps.contains(d) ==> d < x));
    }
}

/// Ordering the passes of a schedule keeps one pass per scheduled variable.
pub proof fn lemma_single_passes_len(vars: Seq<Var>, sched: Seq<VarId>)
    ensures
        single_passes(vars, sched).len() == sched.len(),
{
    lemma_dep_order(scheduled_passes(vars, sched));
}

/// The passes of a schedule depend only on the dependencies and sizes of
/// the variables.
proof fn lemma_single_passes_frame(v1: Seq<Var>, v2: Seq<Var>, sched: Seq<VarId>, k: int)
    requires
        crate::graph::dag(v1),
        v1.len() == v2.len(),
        forall|i: int| 0 <= i < v1.len() ==> (#[trigger] v1[i]).dep_seq() == v2[i].dep_seq(),
        forall|i: int| 0 <= i < v1.len() ==> (#[trigger] v1[i]).size == v2[i].size,
        ids_below(sched, v1.len() as int),
    ensures
        single_passes(v1, sched) == single_passes(v2, sched),
{
    assert forall|j: int| 0 <= j < sched.len() implies #[trigger] scheduled_passes(v1, sched)[j] == scheduled_passes(v2, sched)[j] by {
        crate::graph::lemma_reach_frame(v1, v2, sched[j].0);
    }
    assert(scheduled_passes(v1, sched) =~= scheduled_passes(v2, sched));
}

/// Merges pass `i` into the last of the passes before index `j` that can
/// take it, if any.
pub open spec fn merge_into(ps: Seq<PassView>, i: int, j: int) -> Seq<PassView>
    decreases j,
{
    if j <= 0 {
        ps
    } else if mergeable(ps[j - 1], ps[i]) {
        ps.update(j - 1, merged_pass(ps[j - 1], ps[i])).remove(i)
    } else {
        merge_into(ps, i, j - 1)
    }
}

/// Merges the passes at indices `i - 1` down to `0`, each into the last
/// earlier pass that can take it.
pub open spec fn merge_passes(ps: Seq<PassView>, i: int) -> Seq<PassView>
    decreases i,
{
    if i <= 0 {
        ps
    } else {
        merge_passes(merge_into(ps, i - 1, i - 1), i - 1)
    }
}

/// The passes planned for the variables scheduled in `vars`.
pub open spec fn planned(vars: Seq<Var>, sched: Seq<VarId>) -> Seq<PassView> {
    let ps = single_passes(vars, sched);
    merge_passes(ps, ps.len() as int)
}

/// Each variable of each pass has the size of its pass.
pub open spec fn sizes_agree(vars: Seq<Var>, ps: Seq<PassView>) -> bool {
    forall|k: int, x: usize| 0 <= k < ps.len() && #[trigger] ps[k].ids.contains(x) ==> vars[x as int].size == ps[k].size
}

/// The variables held by any of the passes.
pub open spec fn covered(ps: Seq<PassView>) -> Set<usize> {
    Set::new(|x: usize| exists|k: int| 0 <= k < ps.len() && #[trigger] ps[k].ids.contains(x))
}

/// No variable is held by two passes.
pub open spec fn pairwise_disjoint(ps: Seq<PassView>) -> bool {
    forall|a: int, b: int| 0 <= a < ps.len() && 0 <= b < ps.len() && a != b ==> #[trigger] ps[a].ids.disjoint(
        #[trigger] ps[b].ids,
    )
}

/// Merging one pass keeps sizes agreeing, keeps the covered variables, and
/// keeps passes disjoint.
proof fn lemma_merge_into_keeps(vars: Seq<Var>, ps: Seq<PassView>, i: int, j: int)
    requires
        0 <= j <= i < ps.len(),
    ensures
        sizes_agree(vars, ps) ==> sizes_agree(vars, merge_into(ps, i, j)),
        covered(merge_into(ps, i, j)) == covered(ps),
        pairwise_disjoint(ps) ==> pairwise_disjoint(merge_into(ps, i, j)),
    decreases j,
{
    if j > 0 {
        if mergeable(ps[j - 1], ps[i]) {
            let m = merged_pass(ps[j - 1], ps[i]);
            let r = ps.update(j - 1, m).remove(i);
            assert(r.len() == ps.len() - 1);
            assert forall|k: int| 0 <= k < r.len() implies #[trigger] r[k] == (if k == j - 1 {
                m
            } else if k < i {
                ps[k]
            } else {
                ps[k + 1]
            }) by {}
            if sizes_agree(vars, ps) {
                assert forall|k: int, x: usize| 0 <= k < r.len() && #[trigger] r[k].ids.contains(x) implies vars[x as int].size
                    == r[k].size by {
                    if k == j - 1 {
                        if ps[j - 1].ids.contains(x) {
                        } else {
                            assert(ps[i].ids.contains(x));
                        }
                    } else if k < i {
                        assert(ps[k].ids.contains(x));
                    } else {
                        assert(ps[k + 1].ids.contains(x));
                    }
                }
            }
            assert forall|x: usize| covered(r).contains(x) implies covered(ps).contains(x) by {
                let k = choose|k: int| 0 <= k < r.len() && #[trigger] r[k].ids.contains(x);
                if k == j - 1 {
                    if ps[j - 1].ids.contains(x) {
                    } else {
                        assert(ps[i].ids.contains(x));
                    }
                } else if k < i {
                    assert(ps[k].ids.contains(x));
                } else {
                    assert(ps[k + 1].ids.contains(x));
                }
            }
            assert forall|x: usize| covered(ps).contains(x) implies covered(r).contains(x) by {
                let k = choose|k: int| 0 <= k < ps.len() && #[trigger] ps[k].ids.contains(x);
                if k == j - 1 || k == i {
                    assert(r[j - 1].ids.contains(x));
                } else if k < i {
                    assert(r[k].ids.contains(x));
                } else {
                    assert(r[k - 1].ids.contains(x));
                }
            }
            assert(covered(r) =~= covered(ps));
            if pairwise_disjoint(ps) {
                assert forall|a: int, b: int| 0 <= a < r.len() && 0 <= b < r.len() && a != b implies #[trigger] r[a].ids.disjoint(
                    #[trigger] r[b].ids,
                ) by {
                    let oa = if a == j - 1 { j - 1 } else if a < i { a } else { a + 1 };
                    let ob = if b == j - 1 { j - 1 } else if b < i { b } else { b + 1 };
                    if a == j - 1 {
                        assert(ps[j - 1].ids.disjoint(ps[ob].ids));
                        assert(ps[i].ids.disjoint(ps[ob].ids));
                    } else if b == j - 1 {
                        assert(ps[oa].ids.disjoint(ps[j - 1].ids));
                        assert(ps[oa].ids.disjoint(ps[i].ids));
                    } else {
                        assert(ps[oa].ids.disjoint(ps[ob].ids));
                    }
                }
            }
        } else {
            lemma_merge_into_keeps(vars, ps, i, j - 1);
        }
    }
}

/// Merging from index `i` down keeps sizes agreeing, keeps the covered
/// variables, keeps passes disjoint, and adds no pass.
proof fn lemma_merge_passes_keeps(vars: Seq<Var>, ps: Seq<PassView>, i: int)
    requires
        0 <= i <= ps.len(),
    ensures
        sizes_agree(vars, ps) ==> sizes_agree(vars, merge_passes(ps, i)),
        covered(merge_passes(ps, i)) == covered(ps),
        pairwise_disjoint(ps) ==> pairwise_disjoint(merge_passes(ps, i)),
        merge_passes(ps, i).len() <= ps.len(),
    decreases i,
{
    if i > 0 {
        lemma_merge_into_keeps(vars, ps, i - 1, i - 1);
        lemma_merge_into_len(ps, i - 1, i - 1);
        lemma_merge_passes_keeps(vars, merge_into(ps, i - 1, i - 1), i - 1);
    }
}

/// Facts on the passes of a schedule, before merging: each is the pass of
/// a scheduled variable, and they hold exactly the scheduled variables.
proof fn lemma_single_passes(vars: Seq<Var>, sched: Seq<VarId>)
    ensures
        single_passes(vars, sched).len() == sched.len(),
        forall|k: int| 0 <= k < single_passes(vars, sched).len() ==> exists|m: int| 0 <= m < sched.len()
            && #[trigger] single_passes(vars, sched)[k] == single_pass(vars, sched, sched[m]),
        covered(single_passes(vars, sched)) == index_set(sched),
        sched.no_duplicates() ==> pairwise_disjoint(single_passes(vars, sched)),
{
    let sp = scheduled_passes(vars, sched);
    let ps = single_passes(vars, sched);
    lemma_dep_order(sp);
    assert forall|k: int| 0 <= k < ps.len() implies exists|m: int| 0 <= m < sched.len()
        && #[trigger] ps[k] == single_pass(vars, sched, sched[m]) by {
        assert(ps.contains(ps[k]));
        assert(sp.contains(ps[k]));
        let m = choose|m: int| 0 <= m < sp.len() && sp[m] == ps[k];
        assert(sp[m] == single_pass(vars, sched, sched[m]));
    }
    assert forall|x: usize| covered(ps).contains(x) implies index_set(sched).contains(x) by {
        let k = choose|k: int| 0 <= k < ps.len() && #[trigger] ps[k].ids.contains(x);
        let m = choose|m: int| 0 <= m < sched.len() && #[trigger] ps[k] == single_pass(vars, sched, sched[m]);
        assert(sched[m].0 == x);
    }
    assert forall|x: usize| index_set(sched).contains(x) implies covered(ps).contains(x) by {
        let m = choose|m: int| 0 <= m < sched.len() && #[trigger] sched[m].0 == x;
        assert(sp[m] == single_pass(vars, sched, sched[m]));
        assert(sp.contains(sp[m]));
        assert(ps.contains(sp[m]));
        let k = choose|k: int| 0 <= k < ps.len() && ps[k] == sp[m];
        assert(ps[k].ids.contains(x));
    }
    assert(covered(ps) =~= index_set(sched));
    if sched.no_duplicates() {
        assert forall|a: int, b: int| 0 <= a < sp.len() && 0 <= b < sp.len() && a != b implies #[trigger] sp[a].ids.disjoint(
            #[trigger] sp[b].ids,
        ) by {
            assert(sp[a] == single_pass(vars, sched, sched[a]));
            assert(sp[b] == single_pass(vars, sched, sched[b]));
            assert(sched[a] != sched[b]);
            assert(sched[a].0 != sched[b].0);
        }
    }
}

/// Planning puts every variable of a pass in a kernel of that variable's
/// size: passes are merged only where their sizes agree.
pub proof fn law_planned_sizes(vars: Seq<Var>, sched: Seq<VarId>)
    ensures
        sizes_agree(vars, planned(vars, sched)),
{
    let ps = single_passes(vars, sched);
    lemma_single_passes(vars, sched);
    assert forall|k: int, x: usize| 0 <= k < ps.len() && #[trigger] ps[k].ids.contains(x) implies vars[x as int].size
        == ps[k].size by {
        let m = choose|m: int| 0 <= m < sched.len() && #[trigger] ps[k] == single_pass(vars, sched, sched[m]);
    }
    lemma_merge_passes_keeps(vars, ps, ps.len() as int);
}

/// Planning neither loses nor adds a variable: the planned passes hold
/// exactly the scheduled variables.
pub proof fn law_planned_covers(vars: Seq<Var>, sched: Seq<VarId>)
    ensures
        covered(planned(vars, sched)) == index_set(sched),
{
    let ps = single_passes(vars, sched);
    lemma_single_passes(vars, sched);
    lemma_merge_passes_keeps(vars, ps, ps.len() as int);
}

/// Where no variable is scheduled twice, each scheduled variable is
/// computed by exactly one planned kernel.
pub proof fn law_planned_disjoint(vars: Seq<Var>, sched: Seq<VarId>)
    requires
        sched.no_duplicates(),
    ensures
        pairwise_disjoint(planned(vars, sched)),
{
    let ps = single_passes(vars, sched);
    lemma_single_passes(vars, sched);
    lemma_merge_passes_keeps(vars, ps, ps.len() as int);
}

/// Planning never yields more kernels than there are scheduled variables.
pub proof fn law_planned_count(vars: Seq<Var>, sched: Seq<VarId>)
    ensures
        planned(vars, sched).len() <= sched.len(),
{
    let ps = single_passes(vars, sched);
    lemma_single_passes(vars, sched);
    lemma_merge_passes_keeps(vars, ps, ps.len() as int);
}

/// No pass at or after index `i` could be merged into an earlier pass.
pub open spec fn settled_from(ps: Seq<PassView>, i: int) -> bool {
    forall|k: int, l: int| 0 <= k < l < ps.len() && i <= l ==> !#[trigger] mergeable(ps[k], ps[l])
}

/// Merging pass `i` into the passes before `j` either changes nothing, no
/// pass before `j` being able to take it, or merges it into one of them.
proof fn lemma_merge_into_cases(ps: Seq<PassView>, i: int, j: int)
    requires
        0 <= j <= i < ps.len(),
    ensures
        (merge_into(ps, i, j) == ps && forall|k: int| 0 <= k < j ==> !#[trigger] mergeable(ps[k], ps[i]))
            || exists|m: int| 0 <= m < j && #[trigger] mergeable(ps[m], ps[i]) && merge_into(ps, i, j) == ps.update(
            m,
            merged_pass(ps[m], ps[i]),
        ).remove(i),
    decreases j,
{
    if j > 0 && !mergeable(ps[j - 1], ps[i]) {
        lemma_merge_into_cases(ps, i, j - 1);
    }
}

/// Merging the passes from index `i` down keeps every settled pass
/// settled, and settles the rest.
proof fn lemma_merge_passes_settles(ps: Seq<PassView>, i: int)
    requires
        0 <= i <= ps.len(),
        settled_from(ps, i),
    ensures
        settled_from(merge_passes(ps, i), 0),
    decreases i,
{
    if i > 0 {
        let q = merge_into(ps, i - 1, i - 1);
        lemma_merge_into_cases(ps, i - 1, i - 1);
        if q == ps {
            assert(settled_from(q, i - 1));
        } else {
            let m = choose|m: int| 0 <= m < i - 1 && #[trigger] mergeable(ps[m], ps[i - 1]) && q == ps.update(
                m,
                merged_pass(ps[m], ps[i - 1]),
            ).remove(i - 1);
            assert forall|k: int, l: int| 0 <= k < l < q.len() && i - 1 <= l implies !#[trigger] mergeable(q[k], q[l]) by {
                assert(q[l] == ps[l + 1]);
                if k == m {
                    assert(!mergeable(ps[m], ps[l + 1]));
                } else if k < i - 1 {
                    assert(q[k] == ps[k]);
                    assert(!mergeable(ps[k], ps[l + 1]));
                } else {
                    assert(q[k] == ps[k + 1]);
                    assert(!mergeable(ps[k + 1], ps[l + 1]));
                }
            }
        }
        lemma_merge_passes_settles(q, i - 1);
    }
}

/// Planning merges as far as it can: no planned pass could take a later
/// one.
pub proof fn law_planned_unmergeable(vars: Seq<Var>, sched: Seq<VarId>)
    ensures
        forall|k: int, l: int| 0 <= k < l < planned(vars, sched).len() ==> !#[trigger] mergeable(
            planned(vars, sched)[k],
            planned(vars, sched)[l],
        ),
{
    let ps = single_passes(vars, sched);
    lemma_merge_passes_settles(ps, ps.len() as int);
}

/// Merging asks exactly for independence: `other` can be merged into `p`
/// if and only if both have the same size and `other` depends on none of the
/// variables of `p`, however many dependencies `other` has. Merging keeps
/// every variable and dependency of both and the common size.
pub proof fn law_merge_needs_independence(p: PassView, other: PassView)
    ensures
        mergeable(p, other) <==> (p.size == other.size && forall|x: usize| #[trigger] other.deps.contains(x) ==> !p.ids.contains(x)),
        mergeable(p, other) ==> {
            &&& merged_pass(p, other).size == p.size
            &&& forall|x: usize| #[trigger] merged_pass(p, other).ids.contains(x) <==> (p.ids.contains(x) || other.ids.contains(x))
            &&& forall|x: usize| #[trigger] merged_pass(p, other).deps.contains(x) <==> (p.deps.contains(x) || other.deps.contains(x))
        },
{
}

/// The pass of a scheduled variable depends on exactly the other scheduled
/// variables that the variable reaches through its dependencies: every one of
/// its operands that is scheduled, everything scheduled that any operand
/// reaches, and nothing else.
pub proof fn law_pass_deps(vars: Seq<Var>, sched: Seq<VarId>, id: VarId)
    requires
        crate::graph::dag(vars),
        id.0 < vars.len(),
    ensures
        forall|j: int| 0 <= j < vars[id.0 as int].dep_seq().len() && index_set(sched).contains(
            #[trigger] vars[id.0 as int].dep_seq()[j],
        ) && vars[id.0 as int].dep_seq()[j] != id.0 ==> single_pass(vars, sched, id).deps.contains(
            vars[id.0 as int].dep_seq()[j],
        ),
        forall|j: int, x: usize|
            0 <= j < vars[id.0 as int].dep_seq().len() && #[trigger] reach(vars, vars[id.0 as int].dep_seq()[j]).contains(x)
                && index_set(sched).contains(x) && x != id.0 ==> #[trigger] single_pass(vars, sched, id).deps.contains(x),
        forall|x: usize| #[trigger] single_pass(vars, sched, id).deps.contains(x) ==> {
            &&& index_set(sched).contains(x)
            &&& x != id.0
            &&& exists|j: int| 0 <= j < vars[id.0 as int].dep_seq().len() && #[trigger] reach(
                vars,
                vars[id.0 as int].dep_seq()[j],
            ).contains(x)
        },
        single_pass(vars, sched, id).ids == set![id.0],
        single_pass(vars, sched, id).size == vars[id.0 as int].size,
{
    let x0 = id.0;
    let ds = vars[x0 as int].dep_seq();
    crate::graph::lemma_reach_unfold(vars, x0);
    crate::graph::lemma_reach_deps(vars, x0, ds.len());
    assert(deps_before(vars[x0 as int], x0 as int));
    assert forall|j: int, x: usize|
        0 <= j < ds.len() && #[trigger] reach(vars, ds[j]).contains(x) implies reach(vars, x0).contains(x) by {
        assert(reach_deps(vars, x0, ds.len()).contains(x));
    }
    assert forall|j: int| 0 <= j < ds.len() && index_set(sched).contains(#[trigger] ds[j]) && ds[j] != x0 implies single_pass(
        vars,
        sched,
        id,
    ).deps.contains(ds[j]) by {
        assert(ds[j] < x0);
        crate::graph::lemma_reach_unfold(vars, ds[j]);
        assert(reach(vars, ds[j]).contains(ds[j]));
        assert(reach(vars, x0).contains(ds[j]));
    }
}

/// Before merging, there is one pass per scheduled variable: each pass is
/// the pass of one scheduled variable (see [`law_pass_deps`]), and every
/// scheduled variable is held by a pass.
pub proof fn law_passes_one_per_variable(vars: Seq<Var>, sched: Seq<VarId>)
    ensures
        single_passes(vars, sched).len() == sched.len(),
        forall|k: int| 0 <= k < single_passes(vars, sched).len() ==> exists|m: int| 0 <= m < sched.len()
            && #[trigger] single_passes(vars, sched)[k] == single_pass(vars, sched, sched[m]),
        covered(single_passes(vars, sched)) == index_set(sched),
{
    lemma_single_passes(vars, sched);
}

/// The passes come in dependency order: no pass depends on a variable that a
/// later pass computes.
pub proof fn law_passes_in_dependency_order(vars: Seq<Var>, sched: Seq<VarId>)
    requires
        crate::graph::dag(vars),
        ids_below(sched, vars.len() as int),
    ensures
        dependency_ordered(single_passes(vars, sched)),
{
    lemma_scheduled_passes_ordered(vars, sched);
    lemma_dep_order(scheduled_passes(vars, sched));
}

/// Where the scheduling order is already a dependency order, the passes
/// keep it.
pub proof fn law_passes_keep_scheduling_order(vars: Seq<Var>, sched: Seq<VarId>)
    requires
        dependency_ordered(scheduled_passes(vars, sched)),
    ensures
        single_passes(vars, sched) == scheduled_passes(vars, sched),
{
    let sp = scheduled_passes(vars, sched);
    assert forall|k: int| 0 <= k < sp.len() implies #[trigger] sp[k].deps.disjoint(sp[k].ids) by {
        assert(sp[k] == single_pass(vars, sched, sched[k]));
    }
    lemma_dep_order_keeps(sp);
}

/// Passes already in dependency order, none depending on itself, keep
/// their order.
proof fn lemma_dep_order_keeps(ps: Seq<PassView>)
    requires
        dependency_ordered(ps),
        forall|k: int| 0 <= k < ps.len() ==> #[trigger] ps[k].deps.disjoint(ps[k].ids),
    ensures
        dep_order(ps) == ps,
    decreases ps.len(),
{
    if ps.len() > 0 {
        assert(ready(ps, 0)) by {
            assert forall|j: int| 0 <= j < ps.len() implies ps[0].deps.disjoint(#[trigger] ps[j].ids) by {
                if j > 0 {
                    assert(ps[0].deps.disjoint(ps[j].ids));
                }
            }
        }
        let rest = ps.remove(0);
        assert(dependency_ordered(rest)) by {
            assert forall|k: int, l: int| 0 <= k < l < rest.len() implies #[trigger] rest[k].deps.disjoint(#[trigger] rest[l].ids) by {
                assert(rest[k] == ps[k + 1] && rest[l] == ps[l + 1]);
            }
        }
        assert forall|k: int| 0 <= k < rest.len() implies #[trigger] rest[k].deps.disjoint(rest[k].ids) by {
            assert(rest[k] == ps[k + 1]);
        }
        lemma_dep_order_keeps(rest);
        assert(ps =~= seq![ps[0]] + rest);
    }
}

/// Merging one pass removes at most that pass.
pub proof fn lemma_merge_into_len(ps: Seq<PassView>, i: int, j: int)
    requires
        0 <= j <= i < ps.len(),
    ensures
        merge_into(ps, i, j).len() == ps.len() || merge_into(ps, i, j).len() == ps.len() - 1,
    decreases j,
{
    if j > 0 && !mergeable(ps[j - 1], ps[i]) {
        lemma_merge_into_len(ps, i, j - 1);
    }
}

impl Pass {
    /// Tries to merge `other` into `self`: possible only where both have the
    /// same size and `other` does not depend on `self`.
    pub fn try_merge(&mut self, other: &Pass) -> (r: Option<()>)
        ensures
            r is Some <==> mergeable(old(self)@, other@),
            r is Some <==> (old(self).size == other.size && old(self)@.ids.disjoint(other@.deps)),
            final(self)@ == (if mergeable(old(self)@, other@) {
                merged_pass(old(self)@, other@)
            } else {
                old(self)@
            }),
    {
        broadcast use vstd::std_specs::hash::group_hash_axioms;

        if self.size != other.size {
            return None;
        }
        for x in it: other.deps.iter()
            invariant
                forall|j: int| 0 <= j < it.index() ==> !self.ids@.contains(*it.seq()[j]),
        {
            if self.ids.contains(x) {
                return None;
            }
        }
        assert(self.ids@.disjoint(other.deps@));
        let ghost ids0 = self.ids@;
        let ghost deps0 = self.deps@;
        for x in it: other.ids.iter()
            invariant
                self.size == old(self).size,
                self.deps@ == deps0,
                it.seq().unref().to_set() == other.ids@,
                self.ids@ == ids0.union(it.seq().take(it.index()).unref().to_set()),
                it.index() == it.seq().len() ==> self.ids@ == ids0.union(other.ids@),
        {
            self.ids.insert(*x);
            proof {
                let i = it.index();
                assert(it.seq().take(i + 1).unref() == it.seq().take(i).unref().push(*x));
                it.seq().take(i).unref().lemma_push_to_set_commute(*x);
                assert(self.ids@ =~= ids0.union(it.seq().take(i + 1).unref().to_set()));
                assert(i + 1 == it.seq().len() ==> it.seq().take(i + 1) =~= it.seq());
                assert(i + 1 == it.seq().len() ==> self.ids@ =~= ids0.union(other.ids@));
            }
        }
        assert(self.ids@ =~= ids0.union(other.ids@));
        for x in it: other.deps.iter()
            invariant
                self.size == old(self).size,
                self.ids@ == ids0.union(other.ids@),
                it.seq().unref().to_set() == other.deps@,
                self.deps@ == deps0.union(it.seq().take(it.index()).unref().to_set()),
                it.index() == it.seq().len() ==> self.deps@ == deps0.union(other.deps@),
        {
            self.deps.insert(*x);
            proof {
                let i = it.index();
                assert(it.seq().take(i + 1).unref() == it.seq().take(i).unref().push(*x));
                it.seq().take(i).unref().lemma_push_to_set_commute(*x);
                assert(self.deps@ =~= deps0.union(it.seq().take(i + 1).unref().to_set()));
                assert(i + 1 == it.seq().len() ==> it.seq().take(i + 1) =~= it.seq());
                assert(i + 1 == it.seq().len() ==> self.deps@ =~= deps0.union(other.deps@));
            }
        }
        assert(self.deps@ =~= deps0.union(other.deps@));
        Some(())
    }
}

/// Adds to `deps` the scheduled variables that `id` reaches.
fn dependencies_in(ir: &Ir, id: usize, scheduled: &HashSet<usize>, deps: &mut HashSet<usize>)
    requires
        ir.wf(),
        id < ir.n_vars(),
    ensures
        final(deps)@ == old(deps)@.union(reach(ir.spec_vars(), id).intersect(scheduled@)),
    decreases id,
{
    broadcast use vstd::std_specs::hash::group_hash_axioms;

    let ghost vars = ir.spec_vars();
    proof {
        lemma_reach_unfold(vars, id);
    }
    if scheduled.contains(&id) {
        deps.insert(id);
    }
    let var = ir.var(VarId(id));
    let var_deps = var.deps();
    let n = var_deps.len();
    assert(crate::trace::deps_before(vars[id as int], id as int));
    for k in 0..n
        invariant
            ir.wf(),
            vars == ir.spec_vars(),
            id < ir.n_vars(),
            var_deps@ == vars[id as int].dep_seq(),
            n == var_deps@.len(),
            crate::trace::deps_before(vars[id as int], id as int),
            deps@ == old(deps)@.union(set![id].union(reach_deps(vars, id, k as nat)).intersect(scheduled@)),
    {
        let d = var_deps[k];
        assert(d < id);
        dependencies_in(ir, d, scheduled, deps);
        assert(reach_deps(vars, id, (k + 1) as nat) == reach_deps(vars, id, k as nat).union(reach(vars, d)));
        assert(deps@ =~= old(deps)@.union(set![id].union(reach_deps(vars, id, (k + 1) as nat)).intersect(scheduled@)));
    }
    assert(reach(vars, id) == set![id].union(reach_deps(vars, id, n as nat)));
}

/// Moves the pass at `i` into the last pass before it that can take it, if
/// any.
fn merge_one(passes: &mut Vec<Pass>, i: usize)
    requires
        i < old(passes)@.len(),
    ensures
        pass_views(final(passes)@) == merge_into(pass_views(old(passes)@), i as int, i as int),
{
    let ghost ps = pass_views(passes@);
    let other = passes.remove(i);
    assert(pass_views(passes@) =~= ps.remove(i as int));
    let mut merged = false;
    let mut j = i;
    while j > 0 && !merged
        invariant
            j <= i,
            i <= passes@.len() + 1,
            i < ps.len(),
            other@ == ps[i as int],
            !merged ==> pass_views(passes@) == ps.remove(i as int) && merge_into(ps, i as int, j as int) == merge_into(
                ps,
                i as int,
                i as int,
            ),
            merged ==> pass_views(passes@) == merge_into(ps, i as int, i as int),
        decreases j,
    {
        j -= 1;
        let ghost before = passes@;
        assert(pass_views(passes@).len() == passes@.len());
        assert(passes@.len() == ps.len() - 1);
        assert(pass_views(passes@)[j as int] == ps[j as int]);
        let r = passes[j].try_merge(&other);
        if r.is_some() {
            merged = true;
            proof {
                let target = ps.update(j as int, merged_pass(ps[j as int], ps[i as int])).remove(i as int);
                assert(passes@.len() == before.len());
                assert forall|k: int| 0 <= k < passes@.len() implies #[trigger] pass_views(passes@)[k]
                    == target[k] by {
                    if k != j {
                        assert(passes@[k] == before[k]);
                        assert(pass_views(before)[k] == ps.remove(i as int)[k]);
                    }
                }
                assert(pass_views(passes@) =~= target);
            }
        } else {
            proof {
                assert(pass_views(passes@) =~= pass_views(before));
            }
        }
    }
    if !merged {
        assert(pass_views(passes@).len() == passes@.len());
        let ghost before = passes@;
        passes.insert(i, other);
        proof {
            assert forall|k: int| 0 <= k < passes@.len() implies #[trigger] pass_views(passes@)[k]
                == ps[k] by {
                if k < i {
                    assert(pass_views(before)[k] == ps.remove(i as int)[k]);
                } else if k > i {
                    assert(pass_views(before)[k - 1] == ps.remove(i as int)[k - 1]);
                }
            }
            assert(pass_views(passes@) =~= ps);
        }
    }
}

/// Merges the passes from the last to the first, each into the last earlier
/// pass that can take it.
fn merge_all(passes: &mut Vec<Pass>)
    ensures
        pass_views(final(passes)@) == merge_passes(pass_views(old(passes)@), old(passes)@.len() as int),
{
    let n = passes.len();
    let mut i = n;
    while i > 0
        invariant
            i <= n,
            i <= passes@.len(),
            merge_passes(pass_views(passes@), i as int) == merge_passes(pass_views(old(passes)@), n as int),
        decreases i,
    {
        i -= 1;
        let ghost ps = pass_views(passes@);
        merge_one(passes, i);
        proof {
            lemma_merge_into_len(ps, i as int, i as int);
        }
    }
}

/// The text of each kernel assembly.
pub open spec fn kernel_texts(kernels: Seq<Kernel>) -> Seq<Seq<char>> {
    kernels.map_values(|k: Kernel| k.assembly@)
}

/// The listing of the first `n` kernel assemblies: each under a rule and
/// its number.
pub open spec fn kernel_listing(kernels: Seq<Seq<char>>, n: int) -> Seq<char>
    decreases n,
{
    if n <= 0 {
        Seq::empty()
    } else {
        kernel_listing(kernels, n - 1) + "===============================================\n"@ + "Kernel "@ + decimal((n - 1) as nat)
            + ":\n"@ + "\n"@ + kernels[n - 1]
    }
}

/// A kernel built from one schedule: its assembly, and the handle of its
/// compiled module once the backend has compiled it.
#[derive(Debug)]
pub struct Kernel {
    pub assembly: String,
    pub module: Option<usize>,
}

/// A call made to a [`Backend`] through [`Recorded`], with what was handed
/// to it and what it returned.
pub enum BackendCall {
    FirstRegister { register: usize },
    BufferUninit { bytes: usize, handle: usize },
    Assemble { ir: Ir, first_register: usize, schedule: PassView, assembly: Seq<char> },
    Compile { assembly: Seq<char>, module: usize },
    Execute { assembly: Seq<char>, kernel_module: Option<usize>, schedule: PassView },
    Synchronize,
}

/// What an evaluation of the variables `sched` of `vars` did: it allocated
/// one buffer of each pending variable's byte size, which the variable now
/// has (the buffers `handles`); if anything was scheduled, it compiled the
/// kernels, assembling them from `mid` (the variables with their new
/// buffers) with the first register `first_register`; and it launched every
/// kernel over its schedule, synchronizing after each. `calls0` and `calls`
/// are the backend's calls before and after.
pub open spec fn eval_record(
    vars: Seq<Var>,
    sched: Seq<VarId>,
    final_vars: Seq<Var>,
    calls0: Seq<BackendCall>,
    calls: Seq<BackendCall>,
    schedules: Seq<PassView>,
    kernels: Seq<Kernel>,
    handles: Seq<usize>,
    mid: Ir,
    first_register: usize,
) -> bool {
    let pend = pending(vars, sched);
    &&& handles.len() == pend.len()
    &&& forall|j: int| 0 <= j < pend.len() ==> final_vars[#[trigger] pend[j].0 as int].buffer == Some(handles[j])
    &&& mid.spec_vars() == buffered(vars, pend, handles)
    &&& mid.spec_scheduled() == sched
    &&& calls == calls0 + alloc_calls(vars, pend, handles) + (if sched.len() > 0 {
        build_calls(mid, first_register, schedules, kernels)
    } else {
        Seq::empty()
    }) + launch_calls(kernels, schedules, kernels.len() as int)
}

/// A code generation backend: it allocates device buffers, assembles a
/// kernel for a schedule, compiles assemblies for the device and runs the
/// compiled kernels.
pub trait Backend {
    /// The first register that a schedule may use.
    fn first_register(&mut self) -> usize;

    /// Allocates an uninitialized device buffer of `bytes` bytes and returns
    /// its handle.
    fn buffer_uninit(&mut self, bytes: usize) -> usize;

    /// Assembles the kernel that computes `schedule`, reading its variables
    /// from `ir`, with registers from `first_register` on.
    fn assemble(&mut self, ir: &Ir, first_register: usize, schedule: &Pass) -> String;

    /// Compiles an assembly for the device and returns the module's handle.
    fn compile(&mut self, assembly: &str) -> usize;

    /// Launches `kernel` over `schedule`.
    fn execute_async(&mut self, kernel: &Kernel, schedule: &Pass);

    /// Waits for the launched kernels to finish.
    fn synchronize(&mut self);
}

/// A backend together with the history of the calls made to it through
/// this handle.
pub struct Recorded<B> {
    pub backend: B,
    history: Ghost<Seq<BackendCall>>,
}

impl<B: Backend> Recorded<B> {
    /// The calls made so far, in order, with their arguments and results.
    pub closed spec fn calls(&self) -> Seq<BackendCall> {
        self.history@
    }

    /// `backend`, with no call made yet.
    pub fn new(backend: B) -> (r: Recorded<B>)
        ensures
            r.calls() == Seq::<BackendCall>::empty(),
    {
        Recorded { backend, history: Ghost(Seq::empty()) }
    }

    /// Asks the backend for its first register.
    pub fn first_register(&mut self) -> (r: usize)
        ensures
            final(self).calls() == old(self).calls().push(BackendCall::FirstRegister { register: r }),
    {
        let r = self.backend.first_register();
        self.history = Ghost(self.history@.push(BackendCall::FirstRegister { register: r }));
        r
    }

    /// Asks the backend for a buffer of `bytes` bytes.
    pub fn buffer_uninit(&mut self, bytes: usize) -> (r: usize)
        ensures
            final(self).calls() == old(self).calls().push(BackendCall::BufferUninit { bytes, handle: r }),
    {
        let r = self.backend.buffer_uninit(bytes);
        self.history = Ghost(self.history@.push(BackendCall::BufferUninit { bytes, handle: r }));
        r
    }

    /// Has the backend assemble the kernel of `schedule`.
    pub fn assemble(&mut self, ir: &Ir, first_register: usize, schedule: &Pass) -> (r: String)
        ensures
            final(self).calls() == old(self).calls().push(
                BackendCall::Assemble { ir: *ir, first_register, schedule: schedule@, assembly: r@ },
            ),
    {
        let r = self.backend.assemble(ir, first_register, schedule);
        self.history = Ghost(
            self.history@.push(BackendCall::Assemble { ir: *ir, first_register, schedule: schedule@, assembly: r@ }),
        );
        r
    }

    /// Has the backend compile `assembly`.
    pub fn compile(&mut self, assembly: &str) -> (r: usize)
        ensures
            final(self).calls() == old(self).calls().push(BackendCall::Compile { assembly: assembly@, module: r }),
    {
        let r = self.backend.compile(assembly);
        self.history = Ghost(self.history@.push(BackendCall::Compile { assembly: assembly@, module: r }));
        r
    }

    /// Has the backend launch `kernel` over `schedule`.
    pub fn execute_async(&mut self, kernel: &Kernel, schedule: &Pass)
        ensures
            final(self).calls() == old(self).calls().push(
                BackendCall::Execute { assembly: kernel.assembly@, kernel_module: kernel.module, schedule: schedule@ },
            ),
    {
        self.backend.execute_async(kernel, schedule);
        self.history = Ghost(
            self.history@.push(
                BackendCall::Execute { assembly: kernel.assembly@, kernel_module: kernel.module, schedule: schedule@ },
            ),
        );
    }

    /// Has the backend wait for the launched kernels.
    pub fn synchronize(&mut self)
        ensures
            final(self).calls() == old(self).calls().push(BackendCall::Synchronize),
    {
        self.backend.synchronize();
        self.history = Ghost(self.history@.push(BackendCall::Synchronize));
    }
}

/// The calls that assemble one kernel per schedule: kernel `k` from schedule
/// `k`, in order.
pub open spec fn assemble_calls(ir: Ir, first_register: usize, schedules: Seq<PassView>, kernels: Seq<Kernel>) -> Seq<BackendCall> {
    Seq::new(
        schedules.len(),
        |k: int| BackendCall::Assemble { ir, first_register, schedule: schedules[k], assembly: kernels[k].assembly@ },
    )
}

/// The calls that compile each kernel's assembly, in order.
pub open spec fn compile_calls(kernels: Seq<Kernel>) -> Seq<BackendCall> {
    Seq::new(kernels.len(), |k: int| BackendCall::Compile { assembly: kernels[k].assembly@, module: kernels[k].module->0 })
}

/// The calls of a compilation: the first register is asked for, every
/// kernel is assembled, and then every kernel is compiled.
pub open spec fn build_calls(ir: Ir, first_register: usize, schedules: Seq<PassView>, kernels: Seq<Kernel>) -> Seq<BackendCall> {
    seq![BackendCall::FirstRegister { register: first_register }] + assemble_calls(ir, first_register, schedules, kernels)
        + compile_calls(kernels)
}

/// The calls that run the first `n` kernels, each over its schedule and
/// followed by a synchronization.
pub open spec fn launch_calls(kernels: Seq<Kernel>, schedules: Seq<PassView>, n: int) -> Seq<BackendCall>
    decreases n,
{
    if n <= 0 {
        Seq::empty()
    } else {
        launch_calls(kernels, schedules, n - 1) + seq![
            BackendCall::Execute { assembly: kernels[n - 1].assembly@, kernel_module: kernels[n - 1].module, schedule: schedules[n - 1] },
            BackendCall::Synchronize,
        ]
    }
}

/// The calls that allocate the buffers of the pending variables: one of
/// each variable's byte size, in order, returning `handles`.
pub open spec fn alloc_calls(vars: Seq<Var>, pend: Seq<VarId>, handles: Seq<usize>) -> Seq<BackendCall> {
    Seq::new(
        pend.len(),
        |j: int| BackendCall::BufferUninit { bytes: buffer_bytes(vars[pend[j].0 as int]) as usize, handle: handles[j] },
    )
}

/// `v` with the buffer `h`.
pub open spec fn with_buffer(v: Var, h: usize) -> Var {
    Var { op: v.op, deps: v.deps, ty: v.ty, buffer: Some(h), size: v.size, param_ty: v.param_ty }
}

/// `vars` with the pending variables given the buffers `handles`, in order.
pub open spec fn buffered(vars: Seq<Var>, pend: Seq<VarId>, handles: Seq<usize>) -> Seq<Var>
    decreases pend.len(),
{
    if pend.len() == 0 {
        vars
    } else {
        let i = pend.last().0 as int;
        buffered(vars, pend.drop_last(), handles.take(pend.len() - 1)).update(i, with_buffer(vars[i], handles[pend.len() - 1]))
    }
}

/// The just-in-time compiler: it plans schedules (passes of variables) from
/// the scheduled variables of an [`Ir`] and builds one kernel per schedule.
///
/// `Ir -> [Schedule; N] -> [Kernel; N]`: the variables of the `Ir` become
/// passes, one per scheduled variable, in dependency order; the passes are
/// merged where sizes and dependencies allow; each remaining pass is the
/// schedule of one kernel.
#[derive(Debug)]
pub struct Jit {
    pub schedules: Vec<Pass>,
    pub kernels: Vec<Kernel>,
}

impl Default for Jit {
    fn default() -> (r: Jit)
        ensures
            r.schedules@.len() == 0,
            r.kernels@.len() == 0,
    {
        Jit { schedules: Vec::new(), kernels: Vec::new() }
    }
}

/// Whether pass `k` depends on none of the passes: each pass `j` holds the
/// one variable `xs[j]`.
fn is_ready(passes: &Vec<Pass>, xs: &Vec<usize>, k: usize) -> (r: bool)
    requires
        k < passes@.len(),
        passes@.len() == xs@.len(),
        forall|j: int| 0 <= j < passes@.len() ==> (#[trigger] passes@[j])@.ids == set![xs@[j]],
    ensures
        r == ready(pass_views(passes@), k as int),
{
    broadcast use vstd::std_specs::hash::group_hash_axioms;

    let n = passes.len();
    for j in 0..n
        invariant
            n == passes@.len(),
            n == xs@.len(),
            k < n,
            forall|m: int| 0 <= m < n ==> (#[trigger] passes@[m])@.ids == set![xs@[m]],
            forall|m: int| 0 <= m < j ==> passes@[k as int]@.deps.disjoint(#[trigger] passes@[m]@.ids),
    {
        if passes[k].deps.contains(&xs[j]) {
            assert(!passes@[k as int]@.deps.disjoint(passes@[j as int]@.ids));
            assert(pass_views(passes@)[j as int] == passes@[j as int]@);
            return false;
        }
        assert(passes@[k as int]@.deps.disjoint(passes@[j as int]@.ids));
    }
    assert forall|m: int| 0 <= m < n implies passes@[k as int]@.deps.disjoint(#[trigger] pass_views(passes@)[m].ids) by {
        assert(pass_views(passes@)[m] == passes@[m]@);
    }
    true
}

/// The passes in dependency order, keeping their order wherever it allows:
/// each pass `j` holds the one variable `xs[j]`.
fn order_passes(passes: Vec<Pass>, xs: Vec<usize>) -> (r: Vec<Pass>)
    requires
        passes@.len() == xs@.len(),
        forall|j: int| 0 <= j < passes@.len() ==> (#[trigger] passes@[j])@.ids == set![xs@[j]],
    ensures
        pass_views(r@) == dep_order(pass_views(passes@)),
{
    let ghost target = dep_order(pass_views(passes@));
    let mut rem = passes;
    let mut rxs = xs;
    let mut out: Vec<Pass> = Vec::new();
    while rem.len() > 0
        invariant
            rem@.len() == rxs@.len(),
            forall|j: int| 0 <= j < rem@.len() ==> (#[trigger] rem@[j])@.ids == set![rxs@[j]],
            pass_views(out@) + dep_order(pass_views(rem@)) == target,
        decreases rem@.len(),
    {
        let ghost rv = pass_views(rem@);
        let n = rem.len();
        let mut k: usize = 0;
        let mut found = false;
        while k < n && !found
            invariant
                n == rem@.len(),
                rv == pass_views(rem@),
                rem@.len() == rxs@.len(),
                forall|j: int| 0 <= j < rem@.len() ==> (#[trigger] rem@[j])@.ids == set![rxs@[j]],
                k <= n,
                found ==> k < n && first_ready(rv, 0) == k,
                !found ==> first_ready(rv, 0) == first_ready(rv, k as int),
            decreases n - k + (if found { 0int } else { 1int }),
        {
            if is_ready(&rem, &rxs, k) {
                found = true;
            } else {
                k += 1;
            }
        }
        if found {
            let ghost before_out = out@;
            let ghost rem0 = rem@;
            let ghost rxs0 = rxs@;
            let p = rem.remove(k);
            rxs.remove(k);
            out.push(p);
            proof {
                assert(pass_views(rem@) =~= rv.remove(k as int));
                assert(dep_order(rv) == seq![rv[k as int]] + dep_order(rv.remove(k as int)));
                assert(pass_views(out@) =~= pass_views(before_out).push(rv[k as int]));
                assert(pass_views(out@) + dep_order(pass_views(rem@)) =~= pass_views(before_out) + dep_order(rv));
                assert forall|j: int| 0 <= j < rem@.len() implies (#[trigger] rem@[j])@.ids == set![rxs@[j]] by {
                    let jj = if j < k { j } else { j + 1 };
                    assert(rem@[j] == rem0[jj] && rxs@[j] == rxs0[jj]);
                }
            }
        } else {
            proof {
                assert(first_ready(rv, n as int) == n);
                assert(dep_order(rv) == rv);
            }
            let ghost before_out = out@;
            out.append(&mut rem);
            rxs.clear();
            proof {
                assert(pass_views(out@) =~= pass_views(before_out) + rv);
                assert(pass_views(rem@) =~= Seq::<PassView>::empty());
                assert(dep_order(pass_views(rem@)) == Seq::<PassView>::empty());
                assert(pass_views(out@) + dep_order(pass_views(rem@)) =~= pass_views(before_out) + dep_order(rv));
            }
        }
    }
    assert(pass_views(rem@) =~= Seq::<PassView>::empty());
    assert(pass_views(out@) =~= target);
    out
}

impl Jit {
    /// One pass per scheduled variable, in dependency order: each holds its
    /// variable and depends on the scheduled variables, other than itself,
    /// that its variable reaches. The passes keep the order in which their
    /// variables were scheduled, except that a pass whose dependency was
    /// scheduled after it waits until that dependency's pass has come.
    pub fn passes(&self, ir: &Ir) -> (r: Vec<Pass>)
        requires
            ir.wf(),
        ensures
            pass_views(r@) == single_passes(ir.spec_vars(), ir.spec_scheduled()),
    {
        broadcast use vstd::std_specs::hash::group_hash_axioms;

        let ghost vars = ir.spec_vars();
        let sched = ir.scheduled();
        let n = sched.len();
        let mut scheduled: HashSet<usize> = HashSet::new();
        assert(index_set(sched@.take(0)) =~= Set::<usize>::empty());
        for k in 0..n
            invariant
                n == sched@.len(),
                scheduled@ == index_set(sched@.take(k as int)),
        {
            scheduled.insert(sched[k].0);
            proof {
                assert(sched@.take(k + 1) == sched@.take(k as int).push(sched@[k as int]));
                lemma_index_set_push(sched@.take(k as int), sched@[k as int]);
            }
        }
        assert(sched@.take(n as int) == sched@);
        let mut passes: Vec<Pass> = Vec::new();
        let mut xs: Vec<usize> = Vec::new();
        for k in 0..n
            invariant
                ir.wf(),
                vars == ir.spec_vars(),
                sched@ == ir.spec_scheduled(),
                n == sched@.len(),
                scheduled@ == index_set(sched@),
                passes@.len() == k,
                xs@.len() == k,
                forall|j: int| 0 <= j < k ==> (#[trigger] passes@[j])@.ids == set![xs@[j]],
                pass_views(passes@) == scheduled_passes(vars, sched@).take(k as int),
        {
            let id = sched[k].0;
            proof {
                assert(ids_below(sched@, ir.n_vars()));
                assert(sched@[k as int].0 < ir.n_vars());
            }
            let mut deps: HashSet<usize> = HashSet::new();
            dependencies_in(ir, id, &scheduled, &mut deps);
            deps.remove(&id);
            let mut ids: HashSet<usize> = HashSet::new();
            ids.insert(id);
            let size = ir.var(VarId(id)).size;
            let ghost before = passes@;
            passes.push(Pass { ids, deps, size });
            xs.push(id);
            proof {
                assert(deps@ =~= reach(vars, id).intersect(index_set(sched@)).remove(id));
                assert(ids@ =~= set![id]);
                assert(passes@[k as int]@ == single_pass(vars, sched@, sched@[k as int]));
                assert forall|j: int| 0 <= j < k implies #[trigger] pass_views(passes@)[j] == pass_views(before)[j] by {
                    assert(passes@[j] == before[j]);
                }
                assert(pass_views(passes@) =~= scheduled_passes(vars, sched@).take(k + 1));
            }
        }
        assert(scheduled_passes(vars, sched@).take(n as int) =~= scheduled_passes(vars, sched@));
        order_passes(passes, xs)
    }

    /// Compiles the variables scheduled in `ir`: the passes, merged, become
    /// the schedules; the backend assembles one kernel per schedule, and then
    /// compiles each. Where nothing is scheduled, nothing changes.
    pub fn compile<B: Backend>(&mut self, ir: &Ir, backend: &mut Recorded<B>)
        requires
            ir.wf(),
        ensures
            ir.spec_scheduled().len() == 0 ==> final(self).schedules@ == old(self).schedules@
                && final(self).kernels@ == old(self).kernels@ && final(backend).calls() == old(backend).calls(),
            ir.spec_scheduled().len() > 0 ==> {
                &&& pass_views(final(self).schedules@) == planned(ir.spec_vars(), ir.spec_scheduled())
                &&& final(self).kernels@.len() == final(self).schedules@.len()
                &&& forall|k: int| 0 <= k < final(self).kernels@.len() ==> (#[trigger] final(self).kernels@[k]).module is Some
                &&& exists|first_register: usize| final(backend).calls() == old(backend).calls() + build_calls(
                    *ir,
                    first_register,
                    pass_views(final(self).schedules@),
                    final(self).kernels@,
                )
            },
    {
        if ir.scheduled().len() == 0 {
            return;
        }
        self.schedules.clear();
        self.kernels.clear();
        let mut passes = self.passes(ir);
        merge_all(&mut passes);
        let ghost calls0 = backend.calls();
        let first_register = backend.first_register();
        self.schedules = passes;
        let n = self.schedules.len();
        let ghost c1 = backend.calls();
        for i in 0..n
            invariant
                n == self.schedules@.len(),
                pass_views(self.schedules@) == planned(ir.spec_vars(), ir.spec_scheduled()),
                self.kernels@.len() == i,
                forall|k: int| 0 <= k < i ==> (#[trigger] self.kernels@[k]).module is None,
                backend.calls() == c1 + assemble_calls(*ir, first_register, pass_views(self.schedules@).take(i as int), self.kernels@),
        {
            let ghost before = self.kernels@;
            let assembly = backend.assemble(ir, first_register, &self.schedules[i]);
            self.kernels.push(Kernel { assembly, module: None });
            proof {
                assert forall|k: int| 0 <= k < i implies self.kernels@[k] == before[k] by {}
                assert(backend.calls() =~= c1 + assemble_calls(*ir, first_register, pass_views(self.schedules@).take(i + 1), self.kernels@));
            }
        }
        assert(pass_views(self.schedules@).take(n as int) == pass_views(self.schedules@));
        let ghost assembled = self.kernels@;
        let ghost c2 = backend.calls();
        for i in 0..n
            invariant
                n == self.schedules@.len(),
                pass_views(self.schedules@) == planned(ir.spec_vars(), ir.spec_scheduled()),
                self.kernels@.len() == n,
                assembled.len() == n,
                forall|k: int| 0 <= k < n ==> (#[trigger] self.kernels@[k]).assembly == assembled[k].assembly,
                forall|k: int| 0 <= k < i ==> (#[trigger] self.kernels@[k]).module is Some,
                backend.calls() == c2 + compile_calls(self.kernels@.take(i as int)),
        {
            let ghost before = self.kernels@;
            let module = backend.compile(self.kernels[i].assembly.as_str());
            self.kernels[i].module = Some(module);
            proof {
                assert forall|k: int| 0 <= k < n && k != i implies self.kernels@[k] == before[k] by {}
                assert(self.kernels@.take(i + 1) =~= self.kernels@.take(i as int).push(self.kernels@[i as int]));
                assert(compile_calls(self.kernels@.take(i as int)) =~= compile_calls(before.take(i as int)));
                assert(backend.calls() =~= c2 + compile_calls(self.kernels@.take(i + 1)));
            }
        }
        proof {
            assert(self.kernels@.take(n as int) == self.kernels@);
            assert(assemble_calls(*ir, first_register, pass_views(self.schedules@), self.kernels@) =~= assemble_calls(
                *ir,
                first_register,
                pass_views(self.schedules@),
                assembled,
            ));
            assert(backend.calls() =~= calls0 + build_calls(*ir, first_register, pass_views(self.schedules@), self.kernels@));
        }
    }

    /// Evaluates the variables scheduled in `ir` on `backend`: each
    /// scheduled variable without a device buffer gets a new one; the kernels
    /// are compiled as by [`Jit::compile`] and run one after the other; then
    /// the scheduled variables become data with no dependencies, and nothing
    /// stays scheduled.
    ///
    /// Where nothing is scheduled, the kernels of the previous compilation
    /// run again.
    pub fn eval<B: Backend>(&mut self, ir: &mut Ir, backend: &mut Recorded<B>)
        requires
            old(ir).wf(),
            buffer_sizes_fit(old(ir).spec_vars(), old(ir).spec_scheduled()),
            old(ir).spec_scheduled().len() == 0 ==> old(self).kernels@.len() <= old(self).schedules@.len(),
        ensures
            final(ir).wf(),
            final(ir).n_vars() == old(ir).n_vars(),
            final(ir).spec_scheduled() == Seq::<VarId>::empty(),
            forall|i: usize| i < old(ir).n_vars() && !index_set(old(ir).spec_scheduled()).contains(i)
                ==> #[trigger] final(ir).spec_vars()[i as int] == old(ir).spec_vars()[i as int],
            forall|i: usize| i < old(ir).n_vars() && index_set(old(ir).spec_scheduled()).contains(i) ==> {
                &&& (#[trigger] final(ir).spec_vars()[i as int]).op == Op::Data
                &&& final(ir).spec_vars()[i as int].dep_seq() == Seq::<usize>::empty()
                &&& final(ir).spec_vars()[i as int].ty == old(ir).spec_vars()[i as int].ty
                &&& final(ir).spec_vars()[i as int].size == old(ir).spec_vars()[i as int].size
                &&& final(ir).spec_vars()[i as int].param_ty == old(ir).spec_vars()[i as int].param_ty
                &&& final(ir).spec_vars()[i as int].buffer is Some
                &&& old(ir).spec_vars()[i as int].buffer is Some ==> final(ir).spec_vars()[i as int].buffer
                    == old(ir).spec_vars()[i as int].buffer
            },
            old(ir).spec_scheduled().len() == 0 ==> final(self).schedules@ == old(self).schedules@
                && final(self).kernels@ == old(self).kernels@,
            old(ir).spec_scheduled().len() > 0 ==> {
                &&& pass_views(final(self).schedules@) == planned(old(ir).spec_vars(), old(ir).spec_scheduled())
                &&& final(self).kernels@.len() == final(self).schedules@.len()
                &&& forall|k: int| 0 <= k < final(self).kernels@.len() ==> (#[trigger] final(self).kernels@[k]).module is Some
            },
            exists|handles: Seq<usize>, mid: Ir, first_register: usize| #[trigger] eval_record(
                old(ir).spec_vars(),
                old(ir).spec_scheduled(),
                final(ir).spec_vars(),
                old(backend).calls(),
                final(backend).calls(),
                pass_views(final(self).schedules@),
                final(self).kernels@,
                handles,
                mid,
                first_register,
            ),
    {
        let ghost vars0 = ir.spec_vars();
        let ghost sched0 = ir.spec_scheduled();
        let ghost calls0 = backend.calls();
        let handles = attach_buffers(ir, backend);
        let ghost mid = *ir;
        let ghost c_mid = backend.calls();
        proof {
            assert forall|i: int| 0 <= i < vars0.len() implies (#[trigger] vars0[i]).dep_seq() == ir.spec_vars()[i].dep_seq() by {
                assert(ir.spec_vars()[i].deps == vars0[i].deps);
            }
            assert forall|k: int| 0 <= k < single_passes(vars0, sched0).len() implies #[trigger] single_passes(vars0, sched0)[k] == single_passes(ir.spec_vars(), sched0)[k] by {
                lemma_single_passes_frame(vars0, ir.spec_vars(), sched0, k);
            }
            lemma_single_passes_len(vars0, sched0);
            lemma_single_passes_len(ir.spec_vars(), sched0);
            assert(single_passes(vars0, sched0) =~= single_passes(ir.spec_vars(), sched0));
        }
        self.compile(ir, backend);
        let ghost c_built = backend.calls();
        let n_kernels = self.kernels.len();
        let ghost ks = self.kernels@;
        let ghost ss = pass_views(self.schedules@);
        for i in 0..n_kernels
            invariant
                n_kernels == self.kernels@.len(),
                n_kernels <= self.schedules@.len(),
                ks == self.kernels@,
                ss == pass_views(self.schedules@),
                backend.calls() == c_built + launch_calls(ks, ss, i as int),
        {
            backend.execute_async(&self.kernels[i], &self.schedules[i]);
            backend.synchronize();
            proof {
                assert(ss[i as int] == self.schedules@[i as int]@);
                assert(backend.calls() =~= c_built + launch_calls(ks, ss, i + 1));
            }
        }
        let ghost vars1 = ir.spec_vars();
        ir.retire_scheduled();
        proof {
            lemma_pending(vars0, sched0);
            let pend = pending(vars0, sched0);
            assert forall|i: usize| i < vars0.len() && !index_set(sched0).contains(i) implies #[trigger] ir.spec_vars()[i as int]
                == vars0[i as int] by {
                if index_set(pend).contains(i) {
                    let m = choose|m: int| 0 <= m < pend.len() && #[trigger] pend[m].0 == i;
                    let id = pend[m];
                    assert(sched0.contains(id));
                    let q = choose|q: int| 0 <= q < sched0.len() && sched0[q] == id;
                    assert(sched0[q].0 == i);
                }
                assert(vars1[i as int] == vars0[i as int]);
            }
            assert forall|i: usize| i < vars0.len() && index_set(sched0).contains(i) implies (#[trigger] ir.spec_vars()[i as int]).buffer is Some by {
                let q = choose|q: int| 0 <= q < sched0.len() && #[trigger] sched0[q].0 == i;
                assert(vars1[sched0[q].0 as int].buffer is Some);
            }
            assert forall|j: int| 0 <= j < pend.len() implies ir.spec_vars()[#[trigger] pend[j].0 as int].buffer == Some(handles@[j]) by {
                assert(sched0.contains(pend[j]));
                let q = choose|q: int| 0 <= q < sched0.len() && sched0[q] == pend[j];
                assert(index_set(sched0).contains(pend[j].0)) by {
                    assert(sched0[q].0 == pend[j].0);
                }
                assert(vars1[pend[j].0 as int].buffer == Some(handles@[j]));
            }
            assert(handles@.len() == pend.len());
            assert(mid.spec_vars() == buffered(vars0, pend, handles@));
            assert(mid.spec_scheduled() == sched0);
            assert(c_mid == calls0 + alloc_calls(vars0, pend, handles@));
            if sched0.len() > 0 {
                let fr = choose|fr: usize| c_built == c_mid + build_calls(mid, fr, ss, ks);
                assert(c_built == c_mid + build_calls(mid, fr, ss, ks));
                assert(backend.calls() =~= calls0 + alloc_calls(vars0, pend, handles@)
                    + build_calls(mid, fr, ss, ks) + launch_calls(ks, ss, ks.len() as int));
                assert(eval_record(vars0, sched0, ir.spec_vars(), calls0, backend.calls(), ss, ks, handles@, mid, fr));
            } else {
                assert(backend.calls() =~= calls0 + alloc_calls(vars0, pend, handles@)
                    + Seq::<BackendCall>::empty() + launch_calls(ks, ss, ks.len() as int));
                assert(backend.calls() =~= calls0 + alloc_calls(vars0, pend, handles@)
                    + (if sched0.len() > 0 { build_calls(mid, 0, ss, ks) } else { Seq::<BackendCall>::empty() })
                    + launch_calls(ks, ss, ks.len() as int));
                assert(eval_record(vars0, sched0, ir.spec_vars(), calls0, backend.calls(), ss, ks, handles@, mid, 0));
            }
        }
    }

    /// The `i`-th kernel and its schedule, for update.
    pub fn schedule_kernel(&mut self, i: usize) -> (r: (&mut Kernel, &mut Pass))
        requires
            i < old(self).kernels@.len(),
            i < old(self).schedules@.len(),
        ensures
            *r.0 == old(self).kernels@[i as int],
            *r.1 == old(self).schedules@[i as int],
            final(self).kernels@ == old(self).kernels@.update(i as int, *final(r.0)),
            final(self).schedules@ == old(self).schedules@.update(i as int, *final(r.1)),
    {
        (&mut self.kernels[i], &mut self.schedules[i])
    }

    /// The kernel assemblies as one text, each under a rule and its number,
    /// for snapshot testing.
    pub fn kernel_debug(&self) -> (r: String)
        ensures
            r@ == kernel_listing(kernel_texts(self.kernels@), self.kernels@.len() as int),
    {
        let mut string = String::new();
        let n = self.kernels.len();
        for i in 0..n
            invariant
                n == self.kernels@.len(),
                string@ == kernel_listing(kernel_texts(self.kernels@), i as int),
        {
            string.append("===============================================\n");
            string.append("Kernel ");
            push_decimal(&mut string, i);
            string.append(":\n");
            string.append("\n");
            string.append(self.kernels[i].assembly.as_str());
        }
        string
    }
}

/// Gives every scheduled variable without a device buffer a new buffer from
/// `backend`, each in the order of [`Ir::pending_buffers`] and of the byte
/// size given there; returns the handles of the new buffers.
fn attach_buffers<B: Backend>(ir: &mut Ir, backend: &mut Recorded<B>) -> (handles: Ghost<Seq<usize>>)
    requires
        old(ir).wf(),
        buffer_sizes_fit(old(ir).spec_vars(), old(ir).spec_scheduled()),
    ensures
        final(ir).wf(),
        final(ir).n_vars() == old(ir).n_vars(),
        final(ir).spec_scheduled() == old(ir).spec_scheduled(),
        handles@.len() == pending(old(ir).spec_vars(), old(ir).spec_scheduled()).len(),
        final(ir).spec_vars() == buffered(old(ir).spec_vars(), pending(old(ir).spec_vars(), old(ir).spec_scheduled()), handles@),
        final(backend).calls() == old(backend).calls() + alloc_calls(
            old(ir).spec_vars(),
            pending(old(ir).spec_vars(), old(ir).spec_scheduled()),
            handles@,
        ),
        forall|j: int| 0 <= j < handles@.len() ==> final(ir).spec_vars()[#[trigger] pending(old(ir).spec_vars(), old(ir).spec_scheduled())[j].0 as int].buffer == Some(handles@[j]),
        forall|k: int| 0 <= k < final(ir).spec_scheduled().len()
            ==> (#[trigger] final(ir).spec_vars()[final(ir).spec_scheduled()[k].0 as int]).buffer is Some,
        forall|i: usize| i < old(ir).n_vars() && !index_set(pending(old(ir).spec_vars(), old(ir).spec_scheduled())).contains(i)
            ==> #[trigger] final(ir).spec_vars()[i as int] == old(ir).spec_vars()[i as int],
        forall|i: int| 0 <= i < old(ir).n_vars() ==> {
            &&& (#[trigger] final(ir).spec_vars()[i]).op == old(ir).spec_vars()[i].op
            &&& final(ir).spec_vars()[i].deps == old(ir).spec_vars()[i].deps
            &&& final(ir).spec_vars()[i].ty == old(ir).spec_vars()[i].ty
            &&& final(ir).spec_vars()[i].size == old(ir).spec_vars()[i].size
            &&& final(ir).spec_vars()[i].param_ty == old(ir).spec_vars()[i].param_ty
            &&& old(ir).spec_vars()[i].buffer is Some ==> final(ir).spec_vars()[i].buffer == old(ir).spec_vars()[i].buffer
        },
{
    let ghost vars0 = ir.spec_vars();
    let ghost pend = pending(vars0, ir.spec_scheduled());
    let ghost calls0 = backend.calls();
    let ghost mut hs: Seq<usize> = Seq::empty();
    proof {
        lemma_pending(vars0, ir.spec_scheduled());
    }
    let needed = ir.pending_buffers();
    let n = needed.len();
    assert(index_set(pend.take(0)) =~= Set::<usize>::empty());
    assert(pend.take(0) =~= Seq::<VarId>::empty());
    assert(alloc_calls(vars0, pend.take(0), hs) =~= Seq::<BackendCall>::empty());
    for k in 0..n
        invariant
            n == needed@.len(),
            n == pend.len(),
            pend.no_duplicates(),
            forall|j: int| 0 <= j < n ==> (#[trigger] needed@[j]).0 == pend[j],
            forall|j: int| 0 <= j < n ==> (#[trigger] needed@[j]).1 == buffer_bytes(vars0[pend[j].0 as int]),
            forall|j: int| 0 <= j < n ==> ir.spec_scheduled().contains(#[trigger] pend[j]),
            forall|j: int| 0 <= j < n ==> (#[trigger] vars0[pend[j].0 as int]).buffer is None,
            ir.spec_scheduled() == old(ir).spec_scheduled(),
            ids_below(ir.spec_scheduled(), vars0.len() as int),
            ir.n_vars() == vars0.len(),
            hs.len() == k,
            ir.spec_vars() == buffered(vars0, pend.take(k as int), hs),
            backend.calls() == calls0 + alloc_calls(vars0, pend.take(k as int), hs),
            forall|j: int| 0 <= j < k ==> ir.spec_vars()[#[trigger] pend[j].0 as int].buffer == Some(hs[j]),
            forall|i: usize| i < vars0.len() && !index_set(pend.take(k as int)).contains(i)
                ==> #[trigger] ir.spec_vars()[i as int] == vars0[i as int],
            forall|i: int| 0 <= i < vars0.len() ==> {
                &&& (#[trigger] ir.spec_vars()[i]).op == vars0[i].op
                &&& ir.spec_vars()[i].deps == vars0[i].deps
                &&& ir.spec_vars()[i].ty == vars0[i].ty
                &&& ir.spec_vars()[i].size == vars0[i].size
                &&& ir.spec_vars()[i].param_ty == vars0[i].param_ty
                &&& vars0[i].buffer is Some ==> ir.spec_vars()[i].buffer == vars0[i].buffer
            },
    {
        let id = needed[k].0;
        let bytes = needed[k].1;
        proof {
            let m = choose|m: int| 0 <= m < ir.spec_scheduled().len() && ir.spec_scheduled()[m] == pend[k as int];
            assert(ir.spec_scheduled()[m].0 < vars0.len());
            assert(!index_set(pend.take(k as int)).contains(id.0)) by {
                if index_set(pend.take(k as int)).contains(id.0) {
                    let q = choose|q: int| 0 <= q < k && #[trigger] pend.take(k as int)[q].0 == id.0;
                    assert(pend[q] == pend[k as int]);
                }
            }
        }
        let ghost before = ir.spec_vars();
        let handle = backend.buffer_uninit(bytes);
        let var = ir.var_mut(id);
        var.buffer = Some(handle);
        proof {
            let hs2 = hs.push(handle);
            assert(pend.take(k + 1) == pend.take(k as int).push(pend[k as int]));
            assert(pend.take(k + 1).drop_last() == pend.take(k as int));
            assert(hs2.take(k as int) == hs);
            assert(ir.spec_vars()[id.0 as int] == with_buffer(vars0[id.0 as int], handle));
            assert(ir.spec_vars() == before.update(id.0 as int, with_buffer(vars0[id.0 as int], handle)));
            assert(ir.spec_vars() == buffered(vars0, pend.take(k + 1), hs2));
            assert(backend.calls() =~= calls0 + alloc_calls(vars0, pend.take(k + 1), hs2));
            lemma_index_set_push(pend.take(k as int), pend[k as int]);
            assert forall|j: int| 0 <= j < k + 1 implies ir.spec_vars()[#[trigger] pend[j].0 as int].buffer == Some(hs2[j]) by {
                if j < k {
                    assert(pend[j] != pend[k as int]);
                    assert(pend[j].0 != pend[k as int].0);
                }
            }
            hs = hs2;
        }
    }
    assert(pend.take(n as int) == pend);
    proof {
        assert(crate::graph::dag(vars0));
        assert forall|i: int| 0 <= i < ir.n_vars() implies #[trigger] deps_before(ir.spec_vars()[i], i) by {
            assert(deps_before(vars0[i], i));
            assert(ir.spec_vars()[i].deps == vars0[i].deps);
            assert(ir.spec_vars()[i].dep_seq() == vars0[i].dep_seq());
        }
        lemma_pending_covers(vars0, ir.spec_scheduled());
        assert forall|k: int| 0 <= k < ir.spec_scheduled().len() implies (#[trigger] ir.spec_vars()[ir.spec_scheduled()[k].0 as int]).buffer is Some by {
            let id = ir.spec_scheduled()[k];
            assert(id.0 < vars0.len());
            if vars0[id.0 as int].buffer is None {
                let m = choose|m: int| 0 <= m < pend.len() && pend[m] == id;
                assert(ir.spec_vars()[pend[m].0 as int].buffer == Some(hs[m]));
            } else {
                assert(ir.spec_vars()[id.0 as int].buffer == vars0[id.0 as int].buffer);
            }
        }
    }
    Ghost(hs)
}

} // verus!
