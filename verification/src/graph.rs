//! Reachability in the dependency graph of traced variables.

use vstd::prelude::*;
use crate::trace::{Var, VarId, deps_before};

verus! {

/// The variables form a DAG in topological order: each depends only on
/// variables before it.
pub open spec fn dag(vars: Seq<Var>) -> bool {
    forall|i: int| 0 <= i < vars.len() ==> #[trigger] deps_before(vars[i], i)
}

/// The variables reachable from `id` by following dependencies, `id`
/// included.
pub open spec fn reach(vars: Seq<Var>, id: usize) -> Set<usize>
    decreases id, 1nat, 0nat,
{
    set![id].union(reach_deps(vars, id, vars[id as int].dep_seq().len()))
}

/// The variables reachable from the first `k` dependencies of `id`.
pub open spec fn reach_deps(vars: Seq<Var>, id: usize, k: nat) -> Set<usize>
    decreases id, 0nat, k,
{
    if k == 0 {
        Set::empty()
    } else {
        let d = vars[id as int].dep_seq()[k - 1];
        reach_deps(vars, id, (k - 1) as nat).union(
            if d < id {
                reach(vars, d)
            } else {
                Set::empty()
            },
        )
    }
}

/// The variables reachable from any of `roots`.
pub open spec fn reach_all(vars: Seq<Var>, roots: Seq<VarId>) -> Set<usize>
    decreases roots.len(),
{
    if roots.len() == 0 {
        Set::empty()
    } else {
        reach_all(vars, roots.drop_last()).union(reach(vars, roots.last().0))
    }
}

/// Everything reachable from the first `k` dependencies comes from one of
/// them, and each of them contributes all it reaches.
pub proof fn lemma_reach_deps(vars: Seq<Var>, id: usize, k: nat)
    requires
        dag(vars),
        id < vars.len(),
        k <= vars[id as int].dep_seq().len(),
    ensures
        forall|x: usize| #[trigger] reach_deps(vars, id, k).contains(x) ==> exists|j: int|
            0 <= j < k && #[trigger] reach(vars, vars[id as int].dep_seq()[j]).contains(x),
        forall|j: int, x: usize|
            0 <= j < k && #[trigger] reach(vars, vars[id as int].dep_seq()[j]).contains(x)
                ==> #[trigger] reach_deps(vars, id, k).contains(x),
    decreases k,
{
    assert(deps_before(vars[id as int], id as int));
    let deps = vars[id as int].dep_seq();
    if k > 0 {
        lemma_reach_deps(vars, id, (k - 1) as nat);
        let d = deps[k - 1];
        assert(d < id);
        assert(reach_deps(vars, id, k) == reach_deps(vars, id, (k - 1) as nat).union(reach(vars, d)));
        assert forall|x: usize| #[trigger] reach_deps(vars, id, k).contains(x) implies exists|j: int|
            0 <= j < k && #[trigger] reach(vars, deps[j]).contains(x) by {
            if !reach_deps(vars, id, (k - 1) as nat).contains(x) {
                assert(reach(vars, deps[k - 1]).contains(x));
            }
        }
        assert forall|j: int, x: usize|
            0 <= j < k && #[trigger] reach(vars, deps[j]).contains(x)
                implies #[trigger] reach_deps(vars, id, k).contains(x) by {
            if j < k - 1 {
                assert(reach_deps(vars, id, (k - 1) as nat).contains(x));
            }
        }
    } else {
        assert(reach_deps(vars, id, k) == Set::<usize>::empty());
    }
}

/// The variables reachable from `id` are `id` itself and the variables
/// reachable from its dependencies.
pub proof fn lemma_reach_unfold(vars: Seq<Var>, id: usize)
    requires
        dag(vars),
        id < vars.len(),
    ensures
        reach(vars, id).contains(id),
        forall|x: usize| #[trigger] reach(vars, id).contains(x) ==> x == id || exists|j: int|
            0 <= j < vars[id as int].dep_seq().len() && #[trigger] reach(
                vars,
                vars[id as int].dep_seq()[j],
            ).contains(x),
        forall|j: int, x: usize|
            0 <= j < vars[id as int].dep_seq().len() && #[trigger] reach(
                vars,
                vars[id as int].dep_seq()[j],
            ).contains(x) ==> #[trigger] reach(vars, id).contains(x),
{
    let n = vars[id as int].dep_seq().len();
    lemma_reach_deps(vars, id, n);
    assert(reach(vars, id) == set![id].union(reach_deps(vars, id, n)));
}

/// Reachability stays below the starting variable and is transitive.
pub proof fn lemma_reach_closed(vars: Seq<Var>, id: usize)
    requires
        dag(vars),
        id < vars.len(),
    ensures
        forall|x: usize| #[trigger] reach(vars, id).contains(x) ==> x <= id,
        forall|x: usize, y: usize|
            #[trigger] reach(vars, id).contains(x) && #[trigger] reach(vars, x).contains(y)
                ==> reach(vars, id).contains(y),
    decreases id,
{
    lemma_reach_unfold(vars, id);
    assert(deps_before(vars[id as int], id as int));
    let deps = vars[id as int].dep_seq();
    assert forall|j: int| #![trigger deps[j]] 0 <= j < deps.len() implies {
        &&& forall|x: usize| #[trigger] reach(vars, deps[j]).contains(x) ==> x <= deps[j]
        &&& forall|x: usize, y: usize|
            #[trigger] reach(vars, deps[j]).contains(x) && #[trigger] reach(vars, x).contains(y)
                ==> reach(vars, deps[j]).contains(y)
    } by {
        assert(deps[j] < id);
        lemma_reach_closed(vars, deps[j]);
    }
    assert forall|x: usize| #[trigger] reach(vars, id).contains(x) implies x <= id by {
        if x != id {
            let j = choose|j: int|
                0 <= j < deps.len() && #[trigger] reach(vars, deps[j]).contains(x);
            assert(deps[j] < id);
        }
    }
    assert forall|x: usize, y: usize|
        #[trigger] reach(vars, id).contains(x) && #[trigger] reach(vars, x).contains(y)
            implies reach(vars, id).contains(y) by {
        if x != id {
            let j = choose|j: int|
                0 <= j < deps.len() && #[trigger] reach(vars, deps[j]).contains(x);
            assert(reach(vars, deps[j]).contains(y));
        }
    }
}

/// Reachability depends only on the dependencies of the variables.
pub proof fn lemma_reach_frame(v1: Seq<Var>, v2: Seq<Var>, id: usize)
    requires
        dag(v1),
        v1.len() == v2.len(),
        forall|i: int| 0 <= i < v1.len() ==> (#[trigger] v1[i]).dep_seq() == v2[i].dep_seq(),
        id < v1.len(),
    ensures
        reach(v1, id) == reach(v2, id),
    decreases id, 1nat, 0nat,
{
    let n = v1[id as int].dep_seq().len();
    lemma_reach_deps_frame(v1, v2, id, n);
    assert(v1[id as int].dep_seq() == v2[id as int].dep_seq());
}

proof fn lemma_reach_deps_frame(v1: Seq<Var>, v2: Seq<Var>, id: usize, k: nat)
    requires
        dag(v1),
        v1.len() == v2.len(),
        forall|i: int| 0 <= i < v1.len() ==> (#[trigger] v1[i]).dep_seq() == v2[i].dep_seq(),
        id < v1.len(),
        k <= v1[id as int].dep_seq().len(),
    ensures
        reach_deps(v1, id, k) == reach_deps(v2, id, k),
    decreases id, 0nat, k,
{
    assert(v1[id as int].dep_seq() == v2[id as int].dep_seq());
    if k > 0 {
        lemma_reach_deps_frame(v1, v2, id, (k - 1) as nat);
        let d = v1[id as int].dep_seq()[k - 1];
        assert(deps_before(v1[id as int], id as int));
        assert(d < id);
        lemma_reach_frame(v1, v2, d);
    }
}

} // verus!
