//! Graph resolution: structural checks of a plan and its level-stratified
//! topological ordering.

use crate::plan::{Ast, AstTask};
use crate::strings::{concat_str, join_strings, joined};
use vstd::prelude::*;

verus! {

/// The dependency names of a task, in the order written.
pub open spec fn dep_names(t: AstTask) -> Seq<Seq<char>> {
    t.after@.map_values(|s: String| s@)
}

pub open spec fn names_unique(tasks: Seq<AstTask>) -> bool {
    forall|i: int, j: int| 0 <= i < j < tasks.len() ==> tasks[i].name@ != tasks[j].name@
}

pub open spec fn is_task_name(tasks: Seq<AstTask>, name: Seq<char>) -> bool {
    exists|i: int| 0 <= i < tasks.len() && tasks[i].name@ == name
}

/// Every dependency of every task names a declared task.
pub open spec fn deps_known(tasks: Seq<AstTask>) -> bool {
    forall|i: int, k: int|
        0 <= i < tasks.len() && 0 <= k < tasks[i].after.len() ==> is_task_name(
            tasks,
            #[trigger] tasks[i].after@[k]@,
        )
}

/// Task `c` lists task `p` among its dependencies.
pub open spec fn depends_on(tasks: Seq<AstTask>, c: int, p: int) -> bool {
    exists|k: int| 0 <= k < tasks[c].after.len() && #[trigger] tasks[c].after@[k]@ == tasks[p].name@
}

/// Task `t` has no dependency chain longer than `k` steps.
pub open spec fn settled_within(tasks: Seq<AstTask>, t: int, k: nat) -> bool
    decreases k,
{
    if k == 0 {
        tasks[t].after.len() == 0
    } else {
        forall|p: int|
            0 <= p < tasks.len() && #[trigger] depends_on(tasks, t, p) ==> settled_within(
                tasks,
                p,
                (k - 1) as nat,
            )
    }
}

/// Every dependency chain from task `t` is finite.
pub open spec fn settled(tasks: Seq<AstTask>, t: int) -> bool {
    exists|k: nat| settled_within(tasks, t, k)
}

/// The dependency graph has no cycle: every task's dependency chains end.
pub open spec fn acyclic(tasks: Seq<AstTask>) -> bool {
    forall|t: int| 0 <= t < tasks.len() ==> #[trigger] settled(tasks, t)
}

/// Task `i` repeats the name of an earlier task, and is the first such task.
pub open spec fn first_repeat(tasks: Seq<AstTask>, i: int) -> bool {
    &&& 0 <= i < tasks.len()
    &&& exists|j: int| 0 <= j < i && tasks[j].name@ == tasks[i].name@
    &&& forall|a: int, b: int| 0 <= a < b < i ==> tasks[a].name@ != tasks[b].name@
}

/// Dependency `k` of task `i` is unknown, and is the first unknown one when
/// tasks and then dependencies are taken in order.
pub open spec fn first_unknown(tasks: Seq<AstTask>, i: int, k: int) -> bool {
    &&& 0 <= i < tasks.len()
    &&& 0 <= k < tasks[i].after.len()
    &&& !is_task_name(tasks, tasks[i].after@[k]@)
    &&& forall|i2: int, k2: int|
        0 <= i2 < tasks.len() && 0 <= k2 < tasks[i2].after.len() && (i2 < i || (i2 == i && k2
            < k)) ==> is_task_name(tasks, #[trigger] tasks[i2].after@[k2]@)
}

pub open spec fn duplicate_message(name: Seq<char>) -> Seq<char> {
    "duplicate task name '"@ + name + "'"@
}

pub open spec fn unknown_message(task: Seq<char>, dep: Seq<char>) -> Seq<char> {
    "task '"@ + task + "' depends on unknown task '"@ + dep + "'"@
}

/// The names of the tasks among the first `i` whose dependency chains do not end.
pub open spec fn unresolved_names(tasks: Seq<AstTask>, i: int) -> Seq<Seq<char>>
    decreases i,
{
    if i <= 0 {
        Seq::empty()
    } else if settled(tasks, i - 1) {
        unresolved_names(tasks, i - 1)
    } else {
        unresolved_names(tasks, i - 1).push(tasks[i - 1].name@)
    }
}

pub open spec fn cycle_message(tasks: Seq<AstTask>) -> Seq<char> {
    "cycle detected in plan: "@ + joined(unresolved_names(tasks, tasks.len() as int), ", "@)
}

/// The levels, one after the other.
pub open spec fn flatten_levels<A>(levels: Seq<Seq<A>>) -> Seq<A>
    decreases levels.len(),
{
    if levels.len() == 0 {
        Seq::empty()
    } else {
        flatten_levels(levels.drop_last()) + levels.last()
    }
}

pub open spec fn levels_view(levels: Seq<Vec<String>>) -> Seq<Seq<Seq<char>>> {
    levels.map_values(|l: Vec<String>| l@.map_values(|s: String| s@))
}

/// `name` stands in one of the levels before level `l`.
pub open spec fn placed_before(levels: Seq<Seq<Seq<char>>>, l: int, name: Seq<char>) -> bool {
    exists|l2: int| 0 <= l2 < l && #[trigger] levels[l2].contains(name)
}

/// Task `t`, standing in level `l`, has every dependency in an earlier level,
/// and, past the first level, one dependency in the level just before.
pub open spec fn well_placed(t: AstTask, levels: Seq<Seq<Seq<char>>>, l: int) -> bool {
    &&& forall|k: int| 0 <= k < t.after.len() ==> placed_before(levels, l, #[trigger] t.after@[k]@)
    &&& l > 0 ==> exists|k: int| 0 <= k < t.after.len() && levels[l - 1].contains(
        #[trigger] t.after@[k]@,
    )
}

/// `levels` is a layering of the tasks: no level is empty, every task stands
/// exactly once, and each stands in the level its dependencies place it in.
pub open spec fn valid_layering(tasks: Seq<AstTask>, levels: Seq<Seq<Seq<char>>>) -> bool {
    &&& forall|l: int| 0 <= l < levels.len() ==> #[trigger] levels[l].len() > 0
    &&& flatten_levels(levels).no_duplicates()
    &&& flatten_levels(levels).len() == tasks.len()
    &&& forall|i: int| 0 <= i < tasks.len() ==> flatten_levels(levels).contains(#[trigger] tasks[i].name@)
    &&& forall|l: int, j: int| 0 <= l < levels.len() && 0 <= j < levels[l].len() ==> is_task_name(tasks, #[trigger] levels[l][j])
    &&& forall|l: int, j: int, i: int|
        0 <= l < levels.len() && 0 <= j < levels[l].len() && 0 <= i < tasks.len()
            && #[trigger] levels[l][j] == #[trigger] tasks[i].name@ ==> well_placed(tasks[i], levels, l)
}

// ---------------------------------------------------------------------------
// Index-level machinery.

/// The index of the task named `name`, if any.
fn find_task(tasks: &Vec<AstTask>, name: &String) -> (r: Option<usize>)
    ensures
        match r {
            Some(i) => i < tasks.len() && tasks@[i as int].name@ == name@,
            None => !is_task_name(tasks@, name@),
        },
{
    let mut i: usize = 0;
    while i < tasks.len()
        invariant
            i <= tasks.len(),
            forall|j: int| 0 <= j < i ==> tasks@[j].name@ != name@,
        decreases tasks.len() - i,
    {
        if tasks[i].name == *name {
            return Some(i);
        }
        i += 1;
    }
    None
}

/// The first task whose name repeats an earlier one.
fn find_repeat(tasks: &Vec<AstTask>) -> (r: Option<usize>)
    ensures
        match r {
            Some(i) => first_repeat(tasks@, i as int),
            None => names_unique(tasks@),
        },
{
    let mut i: usize = 0;
    while i < tasks.len()
        invariant
            i <= tasks.len(),
            forall|a: int, b: int| 0 <= a < b < i ==> tasks@[a].name@ != tasks@[b].name@,
        decreases tasks.len() - i,
    {
        let mut j: usize = 0;
        while j < i
            invariant
                i < tasks.len(),
                j <= i,
                forall|a: int, b: int| 0 <= a < b < i ==> tasks@[a].name@ != tasks@[b].name@,
                forall|a: int| 0 <= a < j ==> tasks@[a].name@ != tasks@[i as int].name@,
            decreases i - j,
        {
            if tasks[j].name == tasks[i].name {
                assert(tasks@[j as int].name@ == tasks@[i as int].name@);
                return Some(i);
            }
            j += 1;
        }
        i += 1;
    }
    None
}

/// Dependency `k` of task `c` resolves to task `p`.
pub open spec fn dep_index_ok(tasks: Seq<AstTask>, deps: Seq<Seq<usize>>) -> bool {
    &&& deps.len() == tasks.len()
    &&& forall|c: int| 0 <= c < tasks.len() ==> #[trigger] deps[c].len() == tasks[c].after.len()
    &&& forall|c: int, k: int|
        0 <= c < tasks.len() && 0 <= k < deps[c].len() ==> (#[trigger] deps[c][k]) < tasks.len()
            && tasks[deps[c][k] as int].name@ == tasks[c].after@[k]@
}

/// Resolves every dependency name to a task index, or reports the first
/// unknown one as (task, position).
fn resolve_dependencies(tasks: &Vec<AstTask>) -> (r: Result<Vec<Vec<usize>>, (usize, usize)>)
    ensures
        match r {
            Ok(d) => deps_known(tasks@) && dep_index_ok(tasks@, d@.map_values(|v: Vec<usize>| v@)),
            Err((i, k)) => first_unknown(tasks@, i as int, k as int),
        },
{
    let mut out: Vec<Vec<usize>> = Vec::new();
    let mut i: usize = 0;
    while i < tasks.len()
        invariant
            i <= tasks.len(),
            out.len() == i,
            forall|c: int| 0 <= c < i ==> #[trigger] out@[c]@.len() == tasks@[c].after.len(),
            forall|c: int, k: int|
                0 <= c < i && 0 <= k < out@[c]@.len() ==> (#[trigger] out@[c]@[k]) < tasks.len()
                    && tasks@[out@[c]@[k] as int].name@ == tasks@[c].after@[k]@,
            forall|c: int, k: int|
                0 <= c < i && 0 <= k < tasks@[c].after.len() ==> is_task_name(
                    tasks@,
                    #[trigger] tasks@[c].after@[k]@,
                ),
        decreases tasks.len() - i,
    {
        let task = &tasks[i];
        let mut row: Vec<usize> = Vec::new();
        let mut k: usize = 0;
        while k < task.after.len()
            invariant
                i < tasks.len(),
                *task == tasks@[i as int],
                k <= task.after.len(),
                row.len() == k,
                forall|m: int| 0 <= m < k ==> (#[trigger] row@[m]) < tasks.len()
                    && tasks@[row@[m] as int].name@ == task.after@[m]@,
                forall|c: int, m: int|
                    0 <= c < i && 0 <= m < tasks@[c].after.len() ==> is_task_name(
                        tasks@,
                        #[trigger] tasks@[c].after@[m]@,
                    ),
                forall|m: int| 0 <= m < k ==> is_task_name(tasks@, #[trigger] task.after@[m]@),
            decreases task.after.len() - k,
        {
            match find_task(tasks, &task.after[k]) {
                Some(p) => {
                    row.push(p);
                },
                None => {
                    return Err((i, k));
                },
            }
            k += 1;
        }
        out.push(row);
        i += 1;
    }
    proof {
        let v = out@.map_values(|v: Vec<usize>| v@);
        assert forall|c: int| 0 <= c < tasks.len() implies #[trigger] v[c].len()
            == tasks@[c].after.len() by {
            assert(out@[c]@.len() == tasks@[c].after.len());
        }
        assert forall|c: int, k: int| 0 <= c < tasks.len() && 0 <= k < v[c].len() implies (
        #[trigger] v[c][k]) < tasks.len() && tasks@[v[c][k] as int].name@ == tasks@[c].after@[k]@ by {
            assert(out@[c]@[k] == v[c][k]);
        }
    }
    Ok(out)
}

/// For each task, the tasks that depend on it, in declaration order (a task
/// that lists the same dependency twice appears twice).
fn dependents(n: usize, deps: &Vec<Vec<usize>>) -> (r: Vec<Vec<usize>>)
    requires
        deps.len() == n,
        forall|c: int, k: int| 0 <= c < n && 0 <= k < deps@[c]@.len() ==> (#[trigger] deps@[c]@[k]) < n,
    ensures
        r.len() == n,
        forall|p: int, j: int| 0 <= p < n && 0 <= j < r@[p]@.len() ==> (#[trigger] r@[p]@[j]) < n,
        forall|p: int, c: int|
            0 <= p < n && 0 <= c < n ==> (#[trigger] r@[p]@.contains(c as usize) <==> deps@[c]@.contains(
                p as usize,
            )),
        forall|p: int, j1: int, j2: int| 0 <= p < n && 0 <= j1 < j2 < r@[p]@.len() ==> #[trigger] r@[p]@[j1] <= #[trigger] r@[p]@[j2],
{
    let mut r: Vec<Vec<usize>> = Vec::new();
    let mut p: usize = 0;
    while p < n
        invariant
            p <= n,
            r.len() == p,
            forall|q: int| 0 <= q < p ==> #[trigger] r@[q]@.len() == 0,
        decreases n - p,
    {
        r.push(Vec::new());
        p += 1;
    }
    let mut c: usize = 0;
    while c < n
        invariant
            deps.len() == n,
            forall|c2: int, k: int| 0 <= c2 < n && 0 <= k < deps@[c2]@.len() ==> (#[trigger] deps@[c2]@[k]) < n,
            c <= n,
            r.len() == n,
            forall|q: int, j: int| 0 <= q < n && 0 <= j < r@[q]@.len() ==> (#[trigger] r@[q]@[j]) < c,
            forall|q: int, j1: int, j2: int| 0 <= q < n && 0 <= j1 < j2 < r@[q]@.len() ==> #[trigger] r@[q]@[j1] <= #[trigger] r@[q]@[j2],
            forall|q: int, x: int|
                0 <= q < n && 0 <= x < c ==> (#[trigger] r@[q]@.contains(x as usize) <==> deps@[x]@.contains(
                    q as usize,
                )),
        decreases n - c,
    {
        let row = &deps[c];
        let mut k: usize = 0;
        while k < row.len()
            invariant
                deps.len() == n,
                forall|c2: int, k2: int| 0 <= c2 < n && 0 <= k2 < deps@[c2]@.len() ==> (#[trigger] deps@[c2]@[k2]) < n,
                c < n,
                *row == deps@[c as int],
                k <= row.len(),
                r.len() == n,
                forall|q: int, j: int| 0 <= q < n && 0 <= j < r@[q]@.len() ==> (#[trigger] r@[q]@[j]) <= c,
                forall|q: int, j1: int, j2: int| 0 <= q < n && 0 <= j1 < j2 < r@[q]@.len() ==> #[trigger] r@[q]@[j1] <= #[trigger] r@[q]@[j2],
                forall|q: int, x: int|
                    0 <= q < n && 0 <= x < c ==> (#[trigger] r@[q]@.contains(x as usize) <==> deps@[x]@.contains(
                        q as usize,
                    )),
                forall|q: int|
                    0 <= q < n ==> (#[trigger] r@[q]@.contains(c) <==> row@.subrange(0, k as int).contains(
                        q as usize,
                    )),
            decreases row.len() - k,
        {
            let p = row[k];
            let ghost old_r = r@;
            r[p].push(c);
            proof {
                assert forall|q: int| 0 <= q < n implies (#[trigger] r@[q]@.contains(c)
                    <==> row@.subrange(0, k + 1).contains(q as usize)) by {
                    let pre = row@.subrange(0, k as int);
                    let post = row@.subrange(0, k + 1);
                    assert(post =~= pre.push(p));
                    if q == p {
                        assert(r@[q]@ =~= old_r[q]@.push(c));
                        assert(r@[q]@[r@[q]@.len() - 1] == c);
                        assert(post[k as int] == p);
                    } else {
                        assert(r@[q] == old_r[q]);
                        if post.contains(q as usize) {
                            let j = choose|j: int| 0 <= j < post.len() && post[j] == q as usize;
                            assert(j < k);
                            assert(pre[j] == q as usize);
                        }
                        if pre.contains(q as usize) {
                            let j = choose|j: int| 0 <= j < pre.len() && pre[j] == q as usize;
                            assert(post[j] == q as usize);
                        }
                    }
                }
                assert forall|q: int, x: int| 0 <= q < n && 0 <= x < c implies (#[trigger] r@[q]@.contains(
                    x as usize,
                ) <==> deps@[x]@.contains(q as usize)) by {
                    if q == p {
                        assert(r@[q]@ =~= old_r[q]@.push(c));
                        if old_r[q]@.contains(x as usize) {
                            let j = choose|j: int| 0 <= j < old_r[q]@.len() && old_r[q]@[j] == x as usize;
                            assert(r@[q]@[j] == x);
                        }
                        if r@[q]@.contains(x as usize) {
                            let j = choose|j: int| 0 <= j < r@[q]@.len() && r@[q]@[j] == x as usize;
                            assert(j < old_r[q]@.len());
                            assert(old_r[q]@[j] == x);
                        }
                    } else {
                        assert(r@[q] == old_r[q]);
                    }
                }
                assert forall|q: int, j1: int, j2: int| 0 <= q < n && 0 <= j1 < j2 < r@[q]@.len() implies #[trigger] r@[q]@[j1] <= #[trigger] r@[q]@[j2] by {
                    if q == p {
                        assert(r@[q]@ =~= old_r[q]@.push(c));
                        if j2 < old_r[q]@.len() {
                            assert(r@[q]@[j1] == old_r[q]@[j1]);
                            assert(r@[q]@[j2] == old_r[q]@[j2]);
                        } else {
                            assert(r@[q]@[j1] == old_r[q]@[j1]);
                            assert(old_r[q]@[j1] <= c);
                        }
                    } else {
                        assert(r@[q] == old_r[q]);
                    }
                }
                assert forall|q: int, j: int| 0 <= q < n && 0 <= j < r@[q]@.len() implies (
                #[trigger] r@[q]@[j]) <= c by {
                    if q == p {
                        assert(r@[q]@ =~= old_r[q]@.push(c));
                        if j < old_r[q]@.len() {
                            assert(r@[q]@[j] == old_r[q]@[j]);
                        }
                    } else {
                        assert(r@[q] == old_r[q]);
                    }
                }
            }
            k += 1;
        }
        proof {
            assert(row@.subrange(0, row.len() as int) =~= row@);
            assert forall|q: int, x: int| 0 <= q < n && 0 <= x < c + 1 implies (#[trigger] r@[q]@.contains(
                x as usize,
            ) <==> deps@[x]@.contains(q as usize)) by {
                if x == c {
                    assert(r@[q]@.contains(c) <==> row@.subrange(0, row.len() as int).contains(q as usize));
                }
            }
            assert forall|q: int, j: int| 0 <= q < n && 0 <= j < r@[q]@.len() implies (
            #[trigger] r@[q]@[j]) < c + 1 by {
                assert(r@[q]@[j] <= c);
            }
        }
        c += 1;
    }
    r
}

proof fn lemma_distinct_bounded(s: Seq<usize>, n: nat)
    requires
        s.no_duplicates(),
        forall|i: int| 0 <= i < s.len() ==> (#[trigger] s[i]) < n,
    ensures
        s.len() <= n,
{
    let t = s.map_values(|x: usize| x as int);
    assert(t.no_duplicates()) by {
        assert forall|i: int, j: int| 0 <= i < t.len() && 0 <= j < t.len() && i != j implies t[i]
            != t[j] by {
            assert(s[i] != s[j]);
        }
    }
    t.unique_seq_to_set();
    assert(t.to_set().subset_of(vstd::set_lib::set_int_range(0, n as int))) by {
        assert forall|x: int| t.to_set().contains(x) implies vstd::set_lib::set_int_range(
            0,
            n as int,
        ).contains(x) by {
            let i = choose|i: int| 0 <= i < t.len() && t[i] == x;
            assert(s[i] < n);
        }
    }
    vstd::set_lib::lemma_int_range(0, n as int);
    vstd::set_lib::lemma_len_subset(t.to_set(), vstd::set_lib::set_int_range(0, n as int));
}

proof fn lemma_contains_concat<A>(a: Seq<A>, b: Seq<A>, x: A)
    ensures
        (a + b).contains(x) <==> (a.contains(x) || b.contains(x)),
{
    if (a + b).contains(x) {
        let q = choose|q: int| 0 <= q < (a + b).len() && (a + b)[q] == x;
        if q >= a.len() {
            assert(b[q - a.len()] == x);
        }
    }
    if a.contains(x) {
        let q = choose|q: int| 0 <= q < a.len() && a[q] == x;
        assert((a + b)[q] == x);
    }
    if b.contains(x) {
        let q = choose|q: int| 0 <= q < b.len() && b[q] == x;
        assert((a + b)[a.len() + q] == x);
    }
}

proof fn lemma_flatten_contains<A>(levels: Seq<Seq<A>>, l: int, j: int)
    requires
        0 <= l < levels.len(),
        0 <= j < levels[l].len(),
    ensures
        flatten_levels(levels).contains(levels[l][j]),
    decreases levels.len(),
{
    let x = levels[l][j];
    lemma_contains_concat(flatten_levels(levels.drop_last()), levels.last(), x);
    if l == levels.len() - 1 {
        assert(levels.last()[j] == x);
    } else {
        lemma_flatten_contains(levels.drop_last(), l, j);
    }
}

proof fn lemma_flatten_push<A>(levels: Seq<Seq<A>>, x: Seq<A>)
    ensures
        flatten_levels(levels.push(x)) == flatten_levels(levels) + x,
{
    assert(levels.push(x).drop_last() =~= levels);
}

/// Every listed task is marked.
fn all_marked(ids: &Vec<usize>, marks: &Vec<bool>) -> (r: bool)
    requires
        forall|k: int| 0 <= k < ids.len() ==> (#[trigger] ids@[k]) < marks.len(),
    ensures
        r == forall|k: int| 0 <= k < ids.len() ==> marks@[#[trigger] ids@[k] as int],
{
    let mut k: usize = 0;
    while k < ids.len()
        invariant
            k <= ids.len(),
            forall|k2: int| 0 <= k2 < ids.len() ==> (#[trigger] ids@[k2]) < marks.len(),
            forall|k2: int| 0 <= k2 < k ==> marks@[#[trigger] ids@[k2] as int],
        decreases ids.len() - k,
    {
        if !marks[ids[k]] {
            return false;
        }
        k += 1;
    }
    true
}

/// The common shape of the index-level layering state.
pub open spec fn deps_in_range(deps: Seq<Seq<usize>>, n: int) -> bool {
    forall|c: int, k: int| 0 <= c < n && 0 <= k < deps[c].len() ==> (#[trigger] deps[c][k]) < n
}

pub open spec fn dependents_ok(deps: Seq<Seq<usize>>, children: Seq<Seq<usize>>, n: int) -> bool {
    &&& children.len() == n
    &&& forall|p: int, j: int| 0 <= p < n && 0 <= j < children[p].len() ==> (#[trigger] children[p][j]) < n
    &&& forall|p: int, c: int|
        0 <= p < n && 0 <= c < n ==> (#[trigger] children[p].contains(c as usize) <==> deps[c].contains(p as usize))
}

/// Position `q` of `level` holds one of `deps`, and no later position does.
pub open spec fn last_dep_at(level: Seq<usize>, deps: Seq<usize>, q: int) -> bool {
    &&& 0 <= q < level.len()
    &&& deps.contains(level[q])
    &&& forall|q2: int| q < q2 < level.len() ==> !deps.contains(#[trigger] level[q2])
}

pub open spec fn step_up(s: Seq<usize>, j: int) -> bool {
    s[j] < s[j + 1]
}

/// Strictly increasing.
pub open spec fn increasing(s: Seq<usize>) -> bool {
    forall|j: int| 0 <= j < s.len() - 1 ==> #[trigger] step_up(s, j)
}

/// Entries `j` and `j + 1` of `next` come in order of the position of their
/// last dependency in `level`, then of their index.
pub open spec fn ordered_pair(level: Seq<usize>, next: Seq<usize>, d: Seq<Seq<usize>>, j: int) -> bool {
    exists|q1: int, q2: int|
        #[trigger] last_dep_at(level, d[next[j] as int], q1) && #[trigger] last_dep_at(level, d[next[j + 1] as int], q2)
            && (q1 < q2 || (q1 == q2 && next[j] < next[j + 1]))
}

pub open spec fn comp_order(comp: Seq<int>, next: Seq<usize>, j: int) -> bool {
    comp[j] < comp[j + 1] || (comp[j] == comp[j + 1] && next[j] < next[j + 1])
}

pub open spec fn next_level_ordered(level: Seq<usize>, next: Seq<usize>, d: Seq<Seq<usize>>) -> bool {
    forall|j: int| 0 <= j < next.len() - 1 ==> #[trigger] ordered_pair(level, next, d, j)
}

proof fn lemma_last_dep_here(flat: Seq<usize>, current: Seq<usize>, next: Seq<usize>, deps: Seq<usize>, i: int, done: Seq<bool>, n: int)
    requires
        (flat + current + next).no_duplicates(),
        0 <= i < current.len(),
        done.len() == n,
        forall|q: int| 0 <= q < (flat + current + next).len() ==> #[trigger] (flat + current + next)[q] < n,
        forall|x: int| 0 <= x < n ==> (#[trigger] done[x] <==> (flat.contains(x as usize) || current.subrange(0, i + 1).contains(x as usize))),
        forall|k: int| 0 <= k < deps.len() ==> done[#[trigger] deps[k] as int],
        forall|k: int| 0 <= k < deps.len() ==> (#[trigger] deps[k]) < n,
        deps.contains(current[i]),
    ensures
        last_dep_at(current, deps, i),
{
    let big = flat + current + next;
    assert forall|q2: int| i < q2 < current.len() implies !deps.contains(#[trigger] current[q2]) by {
        if deps.contains(current[q2]) {
            let k = choose|k: int| 0 <= k < deps.len() && deps[k] == current[q2];
            assert(done[deps[k] as int]);
            assert(big[flat.len() + q2] == current[q2]);
            if flat.contains(current[q2]) {
                let m = choose|m: int| 0 <= m < flat.len() && flat[m] == current[q2];
                assert(big[m] == current[q2]);
            } else {
                let pre = current.subrange(0, i + 1);
                assert(pre.contains(current[q2]));
                let m = choose|m: int| 0 <= m < pre.len() && pre[m] == current[q2];
                assert(big[flat.len() + m] == current[q2]);
            }
        }
    }
}

proof fn lemma_push_order(comp: Seq<int>, next: Seq<usize>, c: usize, i: int, kids: Seq<usize>, j: int)
    requires
        comp.len() == next.len(),
        0 <= j < kids.len(),
        kids[j] == c,
        forall|j2: int| 0 <= j2 < next.len() ==> #[trigger] comp[j2] <= i,
        forall|j2: int| 0 <= j2 < next.len() - 1 ==> #[trigger] comp_order(comp, next, j2),
        forall|j2: int| 0 <= j2 < next.len() && comp[j2] == i ==> kids.subrange(0, j).contains(#[trigger] next[j2]),
        forall|j1: int, j2: int| 0 <= j1 < j2 < kids.len() ==> #[trigger] kids[j1] <= #[trigger] kids[j2],
        forall|j2: int| 0 <= j2 < next.len() ==> c != #[trigger] next[j2],
    ensures
        forall|j2: int| 0 <= j2 < next.len() ==> #[trigger] comp_order(comp.push(i), next.push(c), j2),
{
    let cp = comp.push(i);
    let np = next.push(c);
    assert forall|j2: int| 0 <= j2 < next.len() implies #[trigger] comp_order(cp, np, j2) by {
        if j2 < next.len() - 1 {
            assert(comp_order(comp, next, j2));
            assert(cp[j2] == comp[j2] && cp[j2 + 1] == comp[j2 + 1] && np[j2] == next[j2] && np[j2 + 1] == next[j2 + 1]);
        } else {
            assert(comp[j2] <= i);
            if comp[j2] == i {
                assert(kids.subrange(0, j).contains(next[j2]));
                let jj = choose|jj: int| 0 <= jj < j && kids.subrange(0, j)[jj] == next[j2];
                assert(kids[jj] <= kids[j]);
            }
        }
    }
}

proof fn lemma_prefix_step(comp0: Seq<int>, next0: Seq<usize>, comp: Seq<int>, next: Seq<usize>, c: usize, i: int, kids: Seq<usize>, j: int)
    requires
        comp0.len() == next0.len(),
        0 <= j < kids.len(),
        kids[j] == c,
        (next == next0 && comp == comp0) || (next == next0.push(c) && comp == comp0.push(i)),
        forall|j2: int| 0 <= j2 < next0.len() && comp0[j2] == i ==> kids.subrange(0, j).contains(#[trigger] next0[j2]),
    ensures
        forall|j2: int| 0 <= j2 < next.len() && comp[j2] == i ==> kids.subrange(0, j + 1).contains(#[trigger] next[j2]),
{
    assert forall|j2: int| 0 <= j2 < next.len() && comp[j2] == i implies kids.subrange(0, j + 1).contains(#[trigger] next[j2]) by {
        if j2 < next0.len() {
            assert(next[j2] == next0[j2]);
            assert(comp[j2] == comp0[j2]);
            assert(kids.subrange(0, j).contains(next0[j2]));
            let jj = choose|jj: int| 0 <= jj < j && kids.subrange(0, j)[jj] == next0[j2];
            assert(kids.subrange(0, j + 1)[jj] == next[j2]);
        } else {
            assert(kids.subrange(0, j + 1)[j] == next[j2]);
        }
    }
}

/// Kahn's layering over task indices. Returns the levels, which tasks were
/// placed, and the level of each placed task.
#[verifier::rlimit(100)]
fn layer_indices(deps: &Vec<Vec<usize>>, children: &Vec<Vec<usize>>) -> (r: (
    Vec<Vec<usize>>,
    Vec<bool>,
    Ghost<Seq<int>>,
))
    requires
        deps_in_range(deps@.map_values(|v: Vec<usize>| v@), deps.len() as int),
        dependents_ok(
            deps@.map_values(|v: Vec<usize>| v@),
            children@.map_values(|v: Vec<usize>| v@),
            deps.len() as int,
        ),
        forall|p: int, j1: int, j2: int| 0 <= p < children.len() && 0 <= j1 < j2 < children@[p]@.len() ==> #[trigger] children@[p]@[j1] <= #[trigger] children@[p]@[j2],
    ensures
        ({
            let n = deps.len() as int;
            let d = deps@.map_values(|v: Vec<usize>| v@);
            let glv = r.0@.map_values(|v: Vec<usize>| v@);
            let queued = r.1@;
            let lvl = r.2@;
            &&& queued.len() == n
            &&& lvl.len() == n
            &&& forall|l: int| 0 <= l < glv.len() ==> #[trigger] glv[l].len() > 0
            &&& flatten_levels(glv).no_duplicates()
            &&& forall|l: int, j: int| 0 <= l < glv.len() && 0 <= j < glv[l].len() ==> (#[trigger] glv[l][j]) < n
                && lvl[glv[l][j] as int] == l
            &&& forall|t: int| 0 <= t < n ==> (#[trigger] queued[t] <==> flatten_levels(glv).contains(t as usize))
            &&& forall|t: int| 0 <= t < n && #[trigger] queued[t] ==> 0 <= lvl[t] < glv.len() && glv[lvl[t]].contains(t as usize)
            &&& forall|t: int, k: int|
                0 <= t < n && queued[t] && 0 <= k < d[t].len() ==> queued[#[trigger] d[t][k] as int] && lvl[d[t][k] as int] < lvl[t]
            &&& forall|t: int| 0 <= t < n && queued[t] && lvl[t] == 0 ==> #[trigger] d[t].len() == 0
            &&& forall|t: int| 0 <= t < n && queued[t] && lvl[t] > 0 ==> exists|k: int| 0 <= k < d[t].len() && #[trigger] lvl[d[t][k] as int] == lvl[t] - 1
            &&& forall|t: int| 0 <= t < n && !queued[t] ==> exists|k: int| 0 <= k < d[t].len() && !queued[#[trigger] d[t][k] as int]
            &&& glv.len() > 0 ==> increasing(glv[0])
            &&& forall|k: int| 0 <= k < glv.len() - 1 ==> next_level_ordered(#[trigger] glv[k], glv[k + 1], d)
        }),
{
    let ghost d = deps@.map_values(|v: Vec<usize>| v@);
    let ghost ch = children@.map_values(|v: Vec<usize>| v@);
    let n = deps.len();
    let mut queued: Vec<bool> = Vec::new();
    let mut done: Vec<bool> = Vec::new();
    let mut ready: Vec<usize> = Vec::new();
    let ghost mut lvl: Seq<int> = Seq::new(n as nat, |i: int| 0int);
    let mut t: usize = 0;
    while t < n
        invariant
            n == deps.len(),
            d == deps@.map_values(|v: Vec<usize>| v@),
            t <= n,
            lvl.len() == n,
            queued.len() == t,
            done.len() == t,
            forall|x: int| 0 <= x < t ==> !(#[trigger] done@[x]),
            forall|x: int| 0 <= x < t ==> (#[trigger] queued@[x] <==> d[x].len() == 0),
            forall|x: int| 0 <= x < n ==> #[trigger] lvl[x] == 0,
            forall|x: int| 0 <= x < t ==> (#[trigger] queued@[x] <==> ready@.contains(x as usize)),
            forall|j: int| 0 <= j < ready.len() ==> (#[trigger] ready@[j]) < t,
            ready@.no_duplicates(),
            increasing(ready@),
        decreases n - t,
    {
        let leaf = deps[t].len() == 0;
        proof {
            assert(d[t as int] == deps@[t as int]@);
        }
        let ghost ready0 = ready@;
        queued.push(leaf);
        done.push(false);
        if leaf {
            ready.push(t);
            proof {
                assert forall|j: int| 0 <= j < ready@.len() - 1 implies #[trigger] step_up(ready@, j) by {
                    if j < ready0.len() - 1 {
                        assert(step_up(ready0, j));
                    } else {
                        assert(ready0[j] < t);
                    }
                }
            }
        }
        proof {
            assert forall|x: int| 0 <= x < t + 1 implies (#[trigger] queued@[x] <==> ready@.contains(x as usize)) by {
                if x < t {
                    if ready@.contains(x as usize) {
                        let j = choose|j: int| 0 <= j < ready.len() && ready@[j] == x as usize;
                        if leaf {
                            assert(j < ready.len() - 1);
                        }
                    }
                    if queued@[x] {
                        let j = choose|j: int| 0 <= j < ready0.len() && ready0[j] == x as usize;
                        assert(ready@[j] == x as usize);
                    }
                } else {
                    if leaf {
                        assert(ready@[ready.len() - 1] == t);
                    }
                }
            }
        }
        t += 1;
    }
    assert(ready@.no_duplicates());
    let mut levels: Vec<Vec<usize>> = Vec::new();
    let ghost mut glv: Seq<Seq<usize>> = Seq::empty();
    let mut seen: usize = 0;
    proof {
        assert(flatten_levels(glv) + ready@ =~= ready@);
        lemma_distinct_bounded(ready@, n as nat);
        assert forall|x: int| 0 <= x < n && !queued@[x] implies exists|k: int| 0 <= k < d[x].len() && !done@[#[trigger] d[x][k] as int] by {
            assert(d[x].len() > 0);
            assert(d[x][0] < n);
            assert(!done@[d[x][0] as int]);
        }
    }
    while ready.len() > 0
        invariant
            n == deps.len(),
            d == deps@.map_values(|v: Vec<usize>| v@),
            ch == children@.map_values(|v: Vec<usize>| v@),
            deps_in_range(d, n as int),
            dependents_ok(d, ch, n as int),
            queued.len() == n,
            done.len() == n,
            lvl.len() == n,
            glv.len() == levels.len(),
            forall|l: int| 0 <= l < levels.len() ==> #[trigger] levels@[l]@ == glv[l],
            seen == flatten_levels(glv).len(),
            seen + ready.len() <= n,
            forall|l: int| 0 <= l < glv.len() ==> #[trigger] glv[l].len() > 0,
            (flatten_levels(glv) + ready@).no_duplicates(),
            forall|q: int| 0 <= q < (flatten_levels(glv) + ready@).len() ==> #[trigger] (flatten_levels(glv) + ready@)[q] < n,
            forall|x: int| 0 <= x < n ==> (#[trigger] queued@[x] <==> (flatten_levels(glv) + ready@).contains(x as usize)),
            forall|x: int| 0 <= x < n ==> (#[trigger] done@[x] <==> flatten_levels(glv).contains(x as usize)),
            forall|x: int| 0 <= x < n && #[trigger] done@[x] ==> lvl[x] < glv.len(),
            forall|l: int, j: int| 0 <= l < glv.len() && 0 <= j < glv[l].len() ==> (#[trigger] glv[l][j]) < n
                && lvl[glv[l][j] as int] == l,
            forall|j: int| 0 <= j < ready.len() ==> (#[trigger] ready@[j]) < n && lvl[ready@[j] as int] == glv.len(),
            forall|x: int| 0 <= x < n && #[trigger] queued@[x] ==> 0 <= lvl[x] <= glv.len()
                && (lvl[x] < glv.len() ==> glv[lvl[x]].contains(x as usize))
                && (lvl[x] == glv.len() ==> ready@.contains(x as usize)),
            forall|x: int, k: int|
                0 <= x < n && queued@[x] && 0 <= k < d[x].len() ==> done@[#[trigger] d[x][k] as int] && lvl[d[x][k] as int] < lvl[x],
            forall|x: int| 0 <= x < n && queued@[x] && lvl[x] == 0 ==> #[trigger] d[x].len() == 0,
            forall|x: int| 0 <= x < n && queued@[x] && lvl[x] > 0 ==> exists|k: int| 0 <= k < d[x].len() && #[trigger] lvl[d[x][k] as int] == lvl[x] - 1,
            forall|x: int| 0 <= x < n && !queued@[x] ==> exists|k: int| 0 <= k < d[x].len() && !done@[#[trigger] d[x][k] as int],
            forall|p: int, j1: int, j2: int| 0 <= p < children.len() && 0 <= j1 < j2 < children@[p]@.len() ==> #[trigger] children@[p]@[j1] <= #[trigger] children@[p]@[j2],
            glv.len() == 0 ==> increasing(ready@),
            glv.len() > 0 ==> increasing(glv[0]),
            glv.len() > 0 ==> next_level_ordered(glv.last(), ready@, d),
            forall|k: int| 0 <= k < glv.len() - 1 ==> next_level_ordered(#[trigger] glv[k], glv[k + 1], d),
        decreases n - seen,
    {
        let current = ready;
        let ghost flat = flatten_levels(glv);
        let ghost big_l = glv.len() as int;
        let mut next: Vec<usize> = Vec::new();
        let ghost mut comp: Seq<int> = Seq::empty();
        let mut i: usize = 0;
        proof {
            assert(flat + current@ + next@ =~= flat + current@);
            assert(current@.subrange(0, 0) =~= Seq::<usize>::empty());
            assert forall|x: int| 0 <= x < n && #[trigger] done@[x] implies queued@[x] by {
                lemma_contains_concat(flat, current@, x as usize);
            }
            assert forall|x: int| 0 <= x < n implies (#[trigger] done@[x] <==> (flat.contains(x as usize) || current@.subrange(0, 0).contains(x as usize))) by {
            }
        }
        while i < current.len()
            invariant
                n == deps.len(),
                d == deps@.map_values(|v: Vec<usize>| v@),
                ch == children@.map_values(|v: Vec<usize>| v@),
                deps_in_range(d, n as int),
                dependents_ok(d, ch, n as int),
                queued.len() == n,
                done.len() == n,
                lvl.len() == n,
                big_l == glv.len(),
                flat == flatten_levels(glv),
                i <= current.len(),
                (flat + current@ + next@).no_duplicates(),
                forall|q: int| 0 <= q < (flat + current@ + next@).len() ==> #[trigger] (flat + current@ + next@)[q] < n,
                forall|x: int| 0 <= x < n && #[trigger] done@[x] ==> queued@[x],
                forall|x: int| 0 <= x < n && #[trigger] done@[x] ==> lvl[x] <= big_l,
                forall|x: int| 0 <= x < n ==> (#[trigger] queued@[x] <==> (flat + current@ + next@).contains(x as usize)),
                forall|x: int| 0 <= x < n ==> (#[trigger] done@[x] <==> (flat.contains(x as usize) || current@.subrange(0, i as int).contains(x as usize))),
                forall|l: int, j: int| 0 <= l < glv.len() && 0 <= j < glv[l].len() ==> (#[trigger] glv[l][j]) < n
                    && lvl[glv[l][j] as int] == l,
                forall|j: int| 0 <= j < current.len() ==> (#[trigger] current@[j]) < n && lvl[current@[j] as int] == big_l,
                forall|j: int| 0 <= j < next.len() ==> (#[trigger] next@[j]) < n && lvl[next@[j] as int] == big_l + 1,
                forall|x: int| 0 <= x < n && #[trigger] queued@[x] ==> 0 <= lvl[x] <= big_l + 1
                    && (lvl[x] < big_l ==> glv[lvl[x]].contains(x as usize))
                    && (lvl[x] == big_l ==> current@.contains(x as usize))
                    && (lvl[x] == big_l + 1 ==> next@.contains(x as usize)),
                forall|x: int, k: int|
                    0 <= x < n && queued@[x] && 0 <= k < d[x].len() ==> done@[#[trigger] d[x][k] as int] && lvl[d[x][k] as int] < lvl[x],
                forall|x: int| 0 <= x < n && queued@[x] && lvl[x] == 0 ==> #[trigger] d[x].len() == 0,
                forall|x: int| 0 <= x < n && queued@[x] && lvl[x] > 0 ==> exists|k: int| 0 <= k < d[x].len() && #[trigger] lvl[d[x][k] as int] == lvl[x] - 1,
                forall|x: int| 0 <= x < n && !queued@[x] ==> exists|k: int| 0 <= k < d[x].len() && !done@[#[trigger] d[x][k] as int],
                forall|p: int, j1: int, j2: int| 0 <= p < children.len() && 0 <= j1 < j2 < children@[p]@.len() ==> #[trigger] children@[p]@[j1] <= #[trigger] children@[p]@[j2],
                comp.len() == next.len(),
                forall|j2: int| 0 <= j2 < next.len() ==> 0 <= #[trigger] comp[j2] < i && last_dep_at(current@, d[next@[j2] as int], comp[j2]),
                forall|j2: int| 0 <= j2 < next.len() - 1 ==> #[trigger] comp_order(comp, next@, j2),
            decreases current.len() - i,
        {
            let p = current[i];
            let ghost done0 = done@;
            done[p] = true;
            proof {
                assert(current@.subrange(0, i + 1) =~= current@.subrange(0, i as int).push(p));
                assert forall|x: int| 0 <= x < n && !queued@[x] implies (exists|k: int| 0 <= k < d[x].len() && !done@[#[trigger] d[x][k] as int])
                    || ch[p as int].contains(x as usize) by {
                    let k0 = choose|k: int| 0 <= k < d[x].len() && !done0[#[trigger] d[x][k] as int];
                    if d[x][k0] != p {
                        assert(!done@[d[x][k0] as int]);
                    } else {
                        assert(d[x].contains(p));
                    }
                }
                assert forall|x: int| 0 <= x < n implies (#[trigger] done@[x] <==> (flat.contains(x as usize) || current@.subrange(0, i + 1).contains(x as usize))) by {
                    let pre = current@.subrange(0, i as int);
                    let post = current@.subrange(0, i + 1);
                    if post.contains(x as usize) && x != p {
                        let j = choose|j: int| 0 <= j < post.len() && post[j] == x as usize;
                        assert(pre[j] == x as usize);
                    }
                    if pre.contains(x as usize) {
                        let j = choose|j: int| 0 <= j < pre.len() && pre[j] == x as usize;
                        assert(post[j] == x as usize);
                    }
                    if x == p {
                        assert(post[i as int] == p);
                    }
                }
            }
            let kids = &children[p];
            let mut j: usize = 0;
            proof {
                assert forall|j2: int| 0 <= j2 < next.len() implies 0 <= #[trigger] comp[j2] <= i && last_dep_at(current@, d[next@[j2] as int], comp[j2]) by {
                    assert(0 <= comp[j2] < i);
                    assert(last_dep_at(current@, d[next@[j2] as int], comp[j2]));
                }
                assert(kids@ == children@[p as int]@);
                assert forall|j1: int, j2: int| 0 <= j1 < j2 < kids.len() implies #[trigger] kids@[j1] <= #[trigger] kids@[j2] by {
                    assert(children@[p as int]@[j1] <= children@[p as int]@[j2]);
                }
                assert((flat + current@ + next@)[flat.len() + i] == p);
                assert(queued@[p as int]);
                assert(kids@.subrange(0, kids.len() as int) =~= kids@);
                assert(ch[p as int] == children@[p as int]@);
            }
            while j < kids.len()
                invariant
                    n == deps.len(),
                    d == deps@.map_values(|v: Vec<usize>| v@),
                    ch == children@.map_values(|v: Vec<usize>| v@),
                    deps_in_range(d, n as int),
                    dependents_ok(d, ch, n as int),
                    p < n,
                    kids@ == ch[p as int],
                    j <= kids.len(),
                    queued.len() == n,
                    done.len() == n,
                    lvl.len() == n,
                    big_l == glv.len(),
                    flat == flatten_levels(glv),
                    i < current.len(),
                    p == current@[i as int],
                    lvl[p as int] == big_l,
                    done@[p as int],
                    (flat + current@ + next@).no_duplicates(),
                    forall|q: int| 0 <= q < (flat + current@ + next@).len() ==> #[trigger] (flat + current@ + next@)[q] < n,
                    forall|x: int| 0 <= x < n && #[trigger] done@[x] ==> queued@[x],
                    forall|x: int| 0 <= x < n && #[trigger] done@[x] ==> lvl[x] <= big_l,
                    forall|x: int| 0 <= x < n ==> (#[trigger] queued@[x] <==> (flat + current@ + next@).contains(x as usize)),
                    forall|x: int| 0 <= x < n ==> (#[trigger] done@[x] <==> (flat.contains(x as usize) || current@.subrange(0, i + 1).contains(x as usize))),
                    forall|l: int, j2: int| 0 <= l < glv.len() && 0 <= j2 < glv[l].len() ==> (#[trigger] glv[l][j2]) < n
                        && lvl[glv[l][j2] as int] == l,
                    forall|j2: int| 0 <= j2 < current.len() ==> (#[trigger] current@[j2]) < n && lvl[current@[j2] as int] == big_l,
                    forall|j2: int| 0 <= j2 < next.len() ==> (#[trigger] next@[j2]) < n && lvl[next@[j2] as int] == big_l + 1,
                    forall|x: int| 0 <= x < n && #[trigger] queued@[x] ==> 0 <= lvl[x] <= big_l + 1
                        && (lvl[x] < big_l ==> glv[lvl[x]].contains(x as usize))
                        && (lvl[x] == big_l ==> current@.contains(x as usize))
                        && (lvl[x] == big_l + 1 ==> next@.contains(x as usize)),
                    forall|x: int, k: int|
                        0 <= x < n && queued@[x] && 0 <= k < d[x].len() ==> done@[#[trigger] d[x][k] as int] && lvl[d[x][k] as int] < lvl[x],
                    forall|x: int| 0 <= x < n && queued@[x] && lvl[x] == 0 ==> #[trigger] d[x].len() == 0,
                    forall|x: int| 0 <= x < n && queued@[x] && lvl[x] > 0 ==> exists|k: int| 0 <= k < d[x].len() && #[trigger] lvl[d[x][k] as int] == lvl[x] - 1,
                    forall|x: int| 0 <= x < n && !queued@[x] ==> (exists|k: int| 0 <= k < d[x].len() && !done@[#[trigger] d[x][k] as int])
                        || kids@.subrange(j as int, kids.len() as int).contains(x as usize),
                    comp.len() == next.len(),
                    forall|j2: int| 0 <= j2 < next.len() ==> 0 <= #[trigger] comp[j2] <= i && last_dep_at(current@, d[next@[j2] as int], comp[j2]),
                    forall|j2: int| 0 <= j2 < next.len() - 1 ==> #[trigger] comp_order(comp, next@, j2),
                    forall|j2: int| 0 <= j2 < next.len() && comp[j2] == i ==> kids@.subrange(0, j as int).contains(#[trigger] next@[j2]),
                    forall|j1: int, j2: int| 0 <= j1 < j2 < kids.len() ==> #[trigger] kids@[j1] <= #[trigger] kids@[j2],
                decreases kids.len() - j,
            {
                let c = kids[j];
                let ghost next_before = next@;
                let ghost comp_before = comp;
                proof {
                    assert(ch[p as int][j as int] == c);
                    assert(d[c as int] == deps@[c as int]@);
                }
                if !queued[c] && all_marked(&deps[c], &done) {
                    let ghost old_next = next@;
                    let ghost queued0 = queued@;
                    queued[c] = true;
                    next.push(c);
                    proof {
                        assert(c != p);
                        comp = comp.push(i as int);
                        assert(d[c as int].contains(p)) by {
                            assert(ch[p as int].contains(c));
                        }
                        assert forall|k: int| 0 <= k < d[c as int].len() implies done@[#[trigger] d[c as int][k] as int] by {
                            assert(deps@[c as int]@[k] == d[c as int][k]);
                        }
                        lemma_last_dep_here(flat, current@, old_next, d[c as int], i as int, done@, n as int);
                        assert(last_dep_at(current@, d[c as int], i as int));
                        assert forall|j2: int| 0 <= j2 < old_next.len() implies c != #[trigger] old_next[j2] by {
                            let big = flat + current@ + old_next;
                            assert(big[flat.len() + current.len() + j2] == old_next[j2]);
                        }
                        lemma_push_order(comp_before, old_next, c, i as int, kids@, j as int);
                        assert(comp_before.push(i as int) == comp && old_next.push(c) == next@);
                        assert forall|j2: int| 0 <= j2 < current.len() implies current@[j2] != c by {
                            assert((flat + current@ + old_next)[flat.len() + j2] == current@[j2]);
                        }
                        assert forall|l: int, j2: int| 0 <= l < glv.len() && 0 <= j2 < glv[l].len() implies glv[l][j2] != c by {
                            lemma_flatten_contains(glv, l, j2);
                            lemma_contains_concat(flat, current@ + old_next, c);
                            assert(flat + current@ + old_next =~= flat + (current@ + old_next));
                        }
                        lvl = lvl.update(c as int, big_l + 1);
                        assert(ch[p as int].contains(c));
                        assert(d[c as int].contains(p));
                        let kp = choose|k: int| 0 <= k < d[c as int].len() && d[c as int][k] == p;
                        assert(lvl[d[c as int][kp] as int] == lvl[c as int] - 1);
                        assert(!(flat + current@ + old_next).contains(c));
                        assert(flat + current@ + next@ =~= (flat + current@ + old_next).push(c));
                        assert forall|x: int| 0 <= x < n implies (#[trigger] queued@[x] <==> (flat + current@ + next@).contains(x as usize)) by {
                            let big = flat + current@ + next@;
                            let small = flat + current@ + old_next;
                            if x == c {
                                assert(big[big.len() - 1] == c);
                            } else {
                                if big.contains(x as usize) {
                                    let q = choose|q: int| 0 <= q < big.len() && big[q] == x as usize;
                                    assert(q < small.len());
                                    assert(small[q] == x as usize);
                                }
                                if small.contains(x as usize) {
                                    let q = choose|q: int| 0 <= q < small.len() && small[q] == x as usize;
                                    assert(big[q] == x as usize);
                                }
                            }
                        }
                        assert forall|x: int| 0 <= x < n && #[trigger] queued@[x] implies 0 <= lvl[x] <= big_l + 1
                            && (lvl[x] < big_l ==> glv[lvl[x]].contains(x as usize))
                            && (lvl[x] == big_l ==> current@.contains(x as usize))
                            && (lvl[x] == big_l + 1 ==> next@.contains(x as usize)) by {
                            if x == c {
                                assert(next@[next.len() - 1] == c);
                            } else if lvl[x] == big_l + 1 {
                                let q = choose|q: int| 0 <= q < old_next.len() && old_next[q] == x as usize;
                                assert(next@[q] == x as usize);
                            }
                        }
                        assert forall|x: int, k: int|
                            0 <= x < n && queued@[x] && 0 <= k < d[x].len() implies done@[#[trigger] d[x][k] as int] && lvl[d[x][k] as int] < lvl[x] by {
                            if x == c {
                                assert(done@[d[x][k] as int]);
                                assert(queued0[d[x][k] as int]);
                            } else if d[x][k] == c {
                                assert(queued0[x]);
                                assert(done@[c as int]);
                                assert(queued0[c as int]);
                            }
                        }
                    }
                }
                proof {
                    assert(next@ == next_before || next@ == next_before.push(c));
                    assert(next@ == next_before ==> comp == comp_before);
                    assert(next@ != next_before ==> comp == comp_before.push(i as int) && next@ == next_before.push(c));
                    lemma_prefix_step(comp_before, next_before, comp, next@, c, i as int, kids@, j as int);
                    let rest = kids@.subrange(j as int, kids.len() as int);
                    let rest2 = kids@.subrange(j + 1, kids.len() as int);
                    assert forall|x: int| 0 <= x < n && !queued@[x] implies (exists|k: int| 0 <= k < d[x].len() && !done@[#[trigger] d[x][k] as int])
                        || rest2.contains(x as usize) by {
                        if x != c && rest.contains(x as usize) {
                            let q = choose|q: int| 0 <= q < rest.len() && rest[q] == x as usize;
                            assert(q != 0);
                            assert(rest2[q - 1] == x as usize);
                        }
                    }
                }
                j += 1;
            }
            i += 1;
        }
        proof {
            assert forall|j: int| 0 <= j < next@.len() - 1 implies #[trigger] ordered_pair(current@, next@, d, j) by {
                assert(comp_order(comp, next@, j));
                assert(last_dep_at(current@, d[next@[j] as int], comp[j]));
                assert(last_dep_at(current@, d[next@[j + 1] as int], comp[j + 1]));
            }
            assert(current@.subrange(0, current.len() as int) =~= current@);
            lemma_flatten_push(glv, current@);
            assert(flatten_levels(glv.push(current@)) + next@ =~= flat + current@ + next@);
            lemma_distinct_bounded(flat + current@ + next@, n as nat);
            assert forall|x: int| 0 <= x < n implies (#[trigger] done@[x] <==> (flat + current@).contains(x as usize)) by {
                lemma_contains_concat(flat, current@, x as usize);
            }
        }
        let width = current.len();
        proof {
            let old_glv = glv;
            glv = glv.push(current@);
            assert forall|k: int| 0 <= k < glv.len() - 1 implies next_level_ordered(#[trigger] glv[k], glv[k + 1], d) by {
                if k < old_glv.len() - 1 {
                    assert(glv[k] == old_glv[k] && glv[k + 1] == old_glv[k + 1]);
                } else {
                    assert(glv[k] == old_glv.last() && glv[k + 1] == current@);
                }
            }
            if old_glv.len() > 0 {
                assert(glv[0] == old_glv[0]);
            }
        }
        levels.push(current);
        seen = seen + width;
        ready = next;
    }
    proof {
        assert(flatten_levels(glv) + ready@ =~= flatten_levels(glv));
        assert(levels@.map_values(|v: Vec<usize>| v@) =~= glv);
    }
    (levels, queued, Ghost(lvl))
}

/// The declaration index of the task named `name`.
pub open spec fn index_of(tasks: Seq<AstTask>, name: Seq<char>) -> int {
    choose|i: int| 0 <= i < tasks.len() && tasks[i].name@ == name
}

/// The task named `name`.
pub open spec fn task_named(tasks: Seq<AstTask>, name: Seq<char>) -> AstTask {
    tasks[index_of(tasks, name)]
}

/// Position `q` of `level` holds a dependency of `t`, and no later position does.
pub open spec fn last_dependency_at(level: Seq<Seq<char>>, t: AstTask, q: int) -> bool {
    &&& 0 <= q < level.len()
    &&& dep_names(t).contains(level[q])
    &&& forall|q2: int| q < q2 < level.len() ==> !dep_names(t).contains(#[trigger] level[q2])
}

/// Entries `j` and `j + 1` of the first level are in declaration order.
pub open spec fn first_level_order(tasks: Seq<AstTask>, level: Seq<Seq<char>>, j: int) -> bool {
    index_of(tasks, level[j]) < index_of(tasks, level[j + 1])
}

/// Entries `j` and `j + 1` of a level come in order of where their last
/// dependency stands in the level before, then in declaration order.
pub open spec fn sibling_order(tasks: Seq<AstTask>, prev: Seq<Seq<char>>, level: Seq<Seq<char>>, j: int) -> bool {
    exists|q1: int, q2: int|
        #[trigger] last_dependency_at(prev, task_named(tasks, level[j]), q1)
            && #[trigger] last_dependency_at(prev, task_named(tasks, level[j + 1]), q2)
            && (q1 < q2 || (q1 == q2 && index_of(tasks, level[j]) < index_of(tasks, level[j + 1])))
}

/// The order inside each level: the first in declaration order; each later
/// one by the position of each task's last dependency in the level before,
/// then by declaration order.
pub open spec fn ordered_levels(tasks: Seq<AstTask>, levels: Seq<Seq<Seq<char>>>) -> bool {
    &&& levels.len() > 0 ==> forall|j: int| 0 <= j < levels[0].len() - 1 ==> #[trigger] first_level_order(tasks, levels[0], j)
    &&& forall|k: int, j: int|
        0 <= k < levels.len() - 1 && 0 <= j < levels[k + 1].len() - 1 ==> #[trigger] sibling_order(tasks, levels[k], levels[k + 1], j)
}

/// What layering a plan yields: the first duplicate name, else the first
/// unknown dependency, else a cycle naming every task caught in it, else a
/// valid layering.
pub open spec fn layering_outcome(tasks: Seq<AstTask>, r: Result<Seq<Seq<Seq<char>>>, Seq<char>>) -> bool {
    &&& !names_unique(tasks) ==> (r is Err && exists|i: int| first_repeat(tasks, i) && r->Err_0 == duplicate_message(#[trigger] tasks[i].name@))
    &&& names_unique(tasks) && !deps_known(tasks) ==> (r is Err && exists|i: int, k: int| first_unknown(tasks, i, k)
        && r->Err_0 == unknown_message(tasks[i].name@, #[trigger] tasks[i].after@[k]@))
    &&& names_unique(tasks) && deps_known(tasks) && !acyclic(tasks) ==> r == Err::<Seq<Seq<Seq<char>>>, Seq<char>>(cycle_message(tasks))
    &&& names_unique(tasks) && deps_known(tasks) && acyclic(tasks) ==> (r is Ok && valid_layering(tasks, r->Ok_0)
        && ordered_levels(tasks, r->Ok_0))
}

pub open spec fn result_view(r: Result<Vec<Vec<String>>, String>) -> Result<Seq<Seq<Seq<char>>>, Seq<char>> {
    match r {
        Ok(v) => Ok(levels_view(v@)),
        Err(e) => Err(e@),
    }
}

pub open spec fn name_levels(tasks: Seq<AstTask>, glv: Seq<Seq<usize>>) -> Seq<Seq<Seq<char>>> {
    glv.map_values(|lv: Seq<usize>| lv.map_values(|x: usize| tasks[x as int].name@))
}

proof fn lemma_flatten_names(tasks: Seq<AstTask>, glv: Seq<Seq<usize>>)
    ensures
        flatten_levels(name_levels(tasks, glv)) == flatten_levels(glv).map_values(|x: usize| tasks[x as int].name@),
    decreases glv.len(),
{
    if glv.len() > 0 {
        lemma_flatten_names(tasks, glv.drop_last());
        assert(name_levels(tasks, glv).drop_last() =~= name_levels(tasks, glv.drop_last()));
        assert(flatten_levels(glv).map_values(|x: usize| tasks[x as int].name@) =~= flatten_levels(glv.drop_last()).map_values(
            |x: usize| tasks[x as int].name@) + glv.last().map_values(|x: usize| tasks[x as int].name@));
    } else {
        assert(flatten_levels(glv).map_values(|x: usize| tasks[x as int].name@) =~= Seq::<Seq<char>>::empty());
    }
}

proof fn lemma_distinct_covering(s: Seq<usize>, n: nat)
    requires
        n <= usize::MAX,
        s.no_duplicates(),
        forall|i: int| 0 <= i < s.len() ==> (#[trigger] s[i]) < n,
        forall|x: int| 0 <= x < n ==> #[trigger] s.contains(x as usize),
    ensures
        s.len() == n,
{
    let t = s.map_values(|x: usize| x as int);
    assert(t.no_duplicates()) by {
        assert forall|i: int, j: int| 0 <= i < t.len() && 0 <= j < t.len() && i != j implies t[i]
            != t[j] by {
            assert(s[i] != s[j]);
        }
    }
    t.unique_seq_to_set();
    assert(t.to_set() =~= vstd::set_lib::set_int_range(0, n as int)) by {
        assert forall|x: int| t.to_set().contains(x) implies vstd::set_lib::set_int_range(0, n as int).contains(x) by {
            let i = choose|i: int| 0 <= i < t.len() && t[i] == x;
            assert(s[i] < n);
        }
        assert forall|x: int| vstd::set_lib::set_int_range(0, n as int).contains(x) implies t.to_set().contains(x) by {
            assert(s.contains(x as usize));
            let i = choose|i: int| 0 <= i < s.len() && s[i] == x as usize;
            assert(t[i] == x);
        }
    }
    vstd::set_lib::lemma_int_range(0, n as int);
}

/// With unique names, a resolved dependency index is exactly a dependency.
proof fn lemma_depends_iff(tasks: Seq<AstTask>, d: Seq<Seq<usize>>, t: int, p: int)
    requires
        tasks.len() <= usize::MAX,
        names_unique(tasks),
        dep_index_ok(tasks, d),
        0 <= t < tasks.len(),
        0 <= p < tasks.len(),
    ensures
        depends_on(tasks, t, p) <==> d[t].contains(p as usize),
{
    if depends_on(tasks, t, p) {
        let k = choose|k: int| 0 <= k < tasks[t].after.len() && #[trigger] tasks[t].after@[k]@ == tasks[p].name@;
        assert(d[t][k] < tasks.len());
        assert(tasks[d[t][k] as int].name@ == tasks[t].after@[k]@);
        assert(d[t][k] == p as usize);
    }
    if d[t].contains(p as usize) {
        let k = choose|k: int| 0 <= k < d[t].len() && d[t][k] == p as usize;
        assert(tasks[t].after@[k]@ == tasks[p].name@);
    }
}

proof fn lemma_placed_settled(tasks: Seq<AstTask>, d: Seq<Seq<usize>>, queued: Seq<bool>, lvl: Seq<int>, t: int, k: nat)
    requires
        tasks.len() <= usize::MAX,
        names_unique(tasks),
        dep_index_ok(tasks, d),
        queued.len() == tasks.len(),
        lvl.len() == tasks.len(),
        0 <= t < tasks.len(),
        queued[t],
        lvl[t] <= k,
        forall|x: int, m: int|
            0 <= x < tasks.len() && queued[x] && 0 <= m < d[x].len() ==> queued[#[trigger] d[x][m] as int] && lvl[d[x][m] as int] < lvl[x],
        forall|x: int| 0 <= x < tasks.len() && queued[x] && lvl[x] == 0 ==> #[trigger] d[x].len() == 0,
        forall|x: int| 0 <= x < tasks.len() && #[trigger] queued[x] ==> lvl[x] >= 0,
    ensures
        settled_within(tasks, t, k),
    decreases k,
{
    if k == 0 {
        assert(d[t].len() == 0);
    } else {
        assert forall|p: int| 0 <= p < tasks.len() && #[trigger] depends_on(tasks, t, p) implies settled_within(tasks, p, (k - 1) as nat) by {
            lemma_depends_iff(tasks, d, t, p);
            let m = choose|m: int| 0 <= m < d[t].len() && d[t][m] == p as usize;
            assert(queued[d[t][m] as int]);
            lemma_placed_settled(tasks, d, queued, lvl, p, (k - 1) as nat);
        }
    }
}

proof fn lemma_unplaced_unsettled(tasks: Seq<AstTask>, d: Seq<Seq<usize>>, queued: Seq<bool>, t: int, k: nat)
    requires
        tasks.len() <= usize::MAX,
        names_unique(tasks),
        dep_index_ok(tasks, d),
        queued.len() == tasks.len(),
        0 <= t < tasks.len(),
        !queued[t],
        forall|x: int| 0 <= x < tasks.len() && !queued[x] ==> exists|m: int| 0 <= m < d[x].len() && !queued[#[trigger] d[x][m] as int],
    ensures
        !settled_within(tasks, t, k),
    decreases k,
{
    let m = choose|m: int| 0 <= m < d[t].len() && !queued[#[trigger] d[t][m] as int];
    let p = d[t][m] as int;
    assert(p < tasks.len());
    if k > 0 {
        lemma_depends_iff(tasks, d, t, p);
        lemma_unplaced_unsettled(tasks, d, queued, p, (k - 1) as nat);
    }
}

/// Level-stratified topological ordering of the plan's tasks (Kahn's
/// layering, siblings in declaration order).
pub fn build_dependency_levels(ast: &Ast) -> (r: Result<Vec<Vec<String>>, String>)
    ensures
        layering_outcome(ast.tasks@, result_view(r)),
{
    let tasks = &ast.tasks;
    let ghost ts = tasks@;
    let n = tasks.len();
    match find_repeat(tasks) {
        Some(i) => {
            let msg = concat_str(&concat_str("duplicate task name '", tasks[i].name.as_str()), "'");
            return Err(msg);
        },
        None => {},
    }
    let deps = match resolve_dependencies(tasks) {
        Ok(d) => d,
        Err((i, k)) => {
            let a = concat_str("task '", tasks[i].name.as_str());
            let b = concat_str(&a, "' depends on unknown task '");
            let c = concat_str(&b, tasks[i].after[k].as_str());
            let msg = concat_str(&c, "'");
            assert(msg@ == unknown_message(ts[i as int].name@, ts[i as int].after@[k as int]@));
            return Err(msg);
        },
    };
    let ghost d = deps@.map_values(|v: Vec<usize>| v@);
    proof {
        assert forall|c: int, k: int| 0 <= c < n && 0 <= k < deps@[c]@.len() implies (#[trigger] deps@[c]@[k]) < n by {
            assert(d[c] == deps@[c]@);
            assert(d[c][k] < n);
        }
    }
    let children = dependents(n, &deps);
    proof {
        let ch = children@.map_values(|v: Vec<usize>| v@);
        assert forall|c: int, k: int| 0 <= c < n && 0 <= k < d[c].len() implies (#[trigger] d[c][k]) < n by {}
        assert forall|p: int, j: int| 0 <= p < n && 0 <= j < ch[p].len() implies (#[trigger] ch[p][j]) < n by {
            assert(ch[p] == children@[p]@);
        }
        assert forall|p: int, c: int| 0 <= p < n && 0 <= c < n implies (#[trigger] ch[p].contains(c as usize) <==> d[c].contains(p as usize)) by {
            assert(ch[p] == children@[p]@);
            assert(d[c] == deps@[c]@);
        }
    }
    let (idx_levels, queued, Ghost(lvl)) = layer_indices(&deps, &children);
    let ghost glv = idx_levels@.map_values(|v: Vec<usize>| v@);
    proof {
        assert forall|t: int| 0 <= t < n && queued@[t] implies settled(ts, t) by {
            lemma_placed_settled(ts, d, queued@, lvl, t, lvl[t] as nat);
        }
        assert forall|t: int| 0 <= t < n && !queued@[t] implies !settled(ts, t) by {
            assert forall|k: nat| !settled_within(ts, t, k) by {
                lemma_unplaced_unsettled(ts, d, queued@, t, k);
            }
        }
    }
    // Tasks left unplaced, in declaration order.
    let mut unresolved: Vec<String> = Vec::new();
    let mut t: usize = 0;
    while t < n
        invariant
            n == tasks.len(),
            ts == tasks@,
            queued.len() == n,
            t <= n,
            forall|x: int| 0 <= x < n ==> (#[trigger] settled(ts, x) <==> queued@[x]),
            unresolved@.map_values(|s: String| s@) == unresolved_names(ts, t as int),
        decreases n - t,
    {
        if !queued[t] {
            let nm = tasks[t].name.clone();
            unresolved.push(nm);
            proof {
                assert(unresolved@.map_values(|s: String| s@) =~= unresolved_names(ts, t as int).push(ts[t as int].name@));
            }
        }
        t += 1;
    }
    if unresolved.len() > 0 {
        let list = join_strings(&unresolved, ", ");
        let msg = concat_str("cycle detected in plan: ", list.as_str());
        proof {
            assert(unresolved@.map_values(|s: String| s@).len() > 0);
            assert(!acyclic(ts)) by {
                lemma_unresolved_nonempty(ts, n as int);
            }
        }
        return Err(msg);
    }
    proof {
        assert(acyclic(ts)) by {
            assert forall|x: int| 0 <= x < n implies #[trigger] settled(ts, x) by {
                lemma_unresolved_member(ts, n as int, x);
            }
        }
    }
    // Names, level by level.
    let mut out: Vec<Vec<String>> = Vec::new();
    let mut l: usize = 0;
    while l < idx_levels.len()
        invariant
            n == tasks.len(),
            ts == tasks@,
            glv == idx_levels@.map_values(|v: Vec<usize>| v@),
            glv.len() == idx_levels.len(),
            l <= idx_levels.len(),
            forall|l2: int, j: int| 0 <= l2 < glv.len() && 0 <= j < glv[l2].len() ==> (#[trigger] glv[l2][j]) < n,
            out.len() == l,
            forall|l2: int| 0 <= l2 < l ==> (#[trigger] out@[l2])@.map_values(|s: String| s@) == glv[l2].map_values(|x: usize| ts[x as int].name@),
        decreases idx_levels.len() - l,
    {
        let row = &idx_levels[l];
        let mut names: Vec<String> = Vec::new();
        let mut j: usize = 0;
        while j < row.len()
            invariant
                n == tasks.len(),
                ts == tasks@,
                l < idx_levels.len(),
                glv.len() == idx_levels.len(),
                row@ == glv[l as int],
                forall|l2: int, j2: int| 0 <= l2 < glv.len() && 0 <= j2 < glv[l2].len() ==> (#[trigger] glv[l2][j2]) < n,
                j <= row.len(),
                names.len() == j,
                names@.map_values(|s: String| s@) == row@.subrange(0, j as int).map_values(|x: usize| ts[x as int].name@),
            decreases row.len() - j,
        {
            let x = row[j];
            assert(glv[l as int][j as int] == x);
            let nm = tasks[x].name.clone();
            let ghost names0 = names@;
            names.push(nm);
            proof {
                assert(nm@ == ts[x as int].name@);
                assert(row@.subrange(0, j + 1) =~= row@.subrange(0, j as int).push(x));
                assert(names@ =~= names0.push(nm));
                let lhs = names@.map_values(|s: String| s@);
                let rhs = row@.subrange(0, j + 1).map_values(|x: usize| ts[x as int].name@);
                assert forall|q: int| 0 <= q < j + 1 implies lhs[q] == rhs[q] by {
                    if q < j {
                        assert(names@[q] == names0[q]);
                        assert(names0.map_values(|s: String| s@)[q] == row@.subrange(0, j as int).map_values(|x: usize| ts[x as int].name@)[q]);
                    }
                }
                assert(names@.map_values(|s: String| s@) =~= row@.subrange(0, j + 1).map_values(|x: usize| ts[x as int].name@));
            }
            j += 1;
        }
        proof {
            assert(row@.subrange(0, row.len() as int) =~= row@);
        }
        out.push(names);
        l += 1;
    }
    proof {
        let nl = name_levels(ts, glv);
        assert(levels_view(out@) =~= nl) by {
            assert forall|l2: int| 0 <= l2 < nl.len() implies levels_view(out@)[l2] == nl[l2] by {
                assert(out@[l2]@.map_values(|s: String| s@) == glv[l2].map_values(|x: usize| ts[x as int].name@));
            }
        }
        assert forall|x: int| 0 <= x < n implies #[trigger] queued@[x] by {
            assert(settled(ts, x));
        }
        lemma_layering_valid(ts, d, glv, queued@, lvl);
        lemma_levels_ordered(ts, d, glv);
    }
    Ok(out)
}

proof fn lemma_unresolved_nonempty(tasks: Seq<AstTask>, i: int)
    requires
        0 <= i <= tasks.len(),
        unresolved_names(tasks, i).len() > 0,
    ensures
        exists|t: int| 0 <= t < i && !settled(tasks, t),
    decreases i,
{
    if i > 0 && settled(tasks, i - 1) {
        lemma_unresolved_nonempty(tasks, i - 1);
    }
}

proof fn lemma_unresolved_member(tasks: Seq<AstTask>, i: int, x: int)
    requires
        0 <= x < i <= tasks.len(),
        unresolved_names(tasks, i).len() == 0,
    ensures
        settled(tasks, x),
    decreases i,
{
    if !settled(tasks, i - 1) {
        assert(unresolved_names(tasks, i).len() > 0);
    } else if x < i - 1 {
        lemma_unresolved_member(tasks, i - 1, x);
    }
}

proof fn lemma_layering_valid(tasks: Seq<AstTask>, d: Seq<Seq<usize>>, glv: Seq<Seq<usize>>, queued: Seq<bool>, lvl: Seq<int>)
    requires
        tasks.len() <= usize::MAX,
        names_unique(tasks),
        dep_index_ok(tasks, d),
        queued.len() == tasks.len(),
        lvl.len() == tasks.len(),
        forall|t: int| 0 <= t < tasks.len() ==> #[trigger] queued[t],
        forall|l: int| 0 <= l < glv.len() ==> #[trigger] glv[l].len() > 0,
        flatten_levels(glv).no_duplicates(),
        forall|l: int, j: int| 0 <= l < glv.len() && 0 <= j < glv[l].len() ==> (#[trigger] glv[l][j]) < tasks.len()
            && lvl[glv[l][j] as int] == l,
        forall|t: int| 0 <= t < tasks.len() ==> (#[trigger] queued[t] <==> flatten_levels(glv).contains(t as usize)),
        forall|t: int| 0 <= t < tasks.len() && #[trigger] queued[t] ==> 0 <= lvl[t] < glv.len() && glv[lvl[t]].contains(t as usize),
        forall|t: int, k: int|
            0 <= t < tasks.len() && queued[t] && 0 <= k < d[t].len() ==> queued[#[trigger] d[t][k] as int] && lvl[d[t][k] as int] < lvl[t],
        forall|t: int| 0 <= t < tasks.len() && queued[t] && lvl[t] > 0 ==> exists|k: int| 0 <= k < d[t].len() && #[trigger] lvl[d[t][k] as int] == lvl[t] - 1,
    ensures
        valid_layering(tasks, name_levels(tasks, glv)),
{
    let n = tasks.len();
    let nl = name_levels(tasks, glv);
    let flat = flatten_levels(glv);
    lemma_flatten_names(tasks, glv);
    assert forall|q: int| 0 <= q < flat.len() implies (#[trigger] flat[q]) < n by {
        assert(flat.contains(flat[q]));
        lemma_flatten_member(glv, flat[q]);
        let (l0, j0) = choose|l0: int, j0: int| 0 <= l0 < glv.len() && 0 <= j0 < glv[l0].len() && glv[l0][j0] == flat[q];
        assert(glv[l0][j0] < n);
    }
    assert forall|x: int| 0 <= x < n implies #[trigger] flat.contains(x as usize) by {
        assert(queued[x]);
    }
    lemma_distinct_covering(flat, n);
    assert(flatten_levels(nl).len() == flat.len());
    assert(flatten_levels(nl).no_duplicates()) by {
        assert forall|a: int, b: int| 0 <= a < b < flatten_levels(nl).len() implies flatten_levels(nl)[a] != flatten_levels(nl)[b] by {
            assert(flat[a] != flat[b]);
            assert(flatten_levels(nl)[a] == tasks[flat[a] as int].name@);
            assert(flatten_levels(nl)[b] == tasks[flat[b] as int].name@);
        }
    }
    assert forall|i: int| 0 <= i < n implies flatten_levels(nl).contains(#[trigger] tasks[i].name@) by {
        assert(flat.contains(i as usize));
        let q = choose|q: int| 0 <= q < flat.len() && flat[q] == i as usize;
        assert(flatten_levels(nl)[q] == tasks[i].name@);
    }
    assert forall|l: int| 0 <= l < nl.len() implies #[trigger] nl[l].len() > 0 by {}
    assert forall|l: int, j: int| 0 <= l < nl.len() && 0 <= j < nl[l].len() implies is_task_name(tasks, #[trigger] nl[l][j]) by {
        assert(nl[l][j] == tasks[glv[l][j] as int].name@);
    }
    assert forall|l: int, j: int, i: int|
        0 <= l < nl.len() && 0 <= j < nl[l].len() && 0 <= i < n && #[trigger] nl[l][j] == #[trigger] tasks[i].name@ implies well_placed(tasks[i], nl, l) by {
        let t = glv[l][j] as int;
        assert(nl[l][j] == tasks[t].name@);
        assert(t == i);
        lemma_well_placed_one(tasks, d, glv, queued, lvl, l, j);
    }
}

proof fn lemma_well_placed_one(tasks: Seq<AstTask>, d: Seq<Seq<usize>>, glv: Seq<Seq<usize>>, queued: Seq<bool>, lvl: Seq<int>, l: int, j: int)
    requires
        tasks.len() <= usize::MAX,
        names_unique(tasks),
        dep_index_ok(tasks, d),
        queued.len() == tasks.len(),
        lvl.len() == tasks.len(),
        0 <= l < glv.len(),
        0 <= j < glv[l].len(),
        forall|t: int| 0 <= t < tasks.len() ==> #[trigger] queued[t],
        forall|l: int, j: int| 0 <= l < glv.len() && 0 <= j < glv[l].len() ==> (#[trigger] glv[l][j]) < tasks.len()
            && lvl[glv[l][j] as int] == l,
        forall|t: int| 0 <= t < tasks.len() && #[trigger] queued[t] ==> 0 <= lvl[t] < glv.len() && glv[lvl[t]].contains(t as usize),
        forall|t: int, k: int|
            0 <= t < tasks.len() && queued[t] && 0 <= k < d[t].len() ==> queued[#[trigger] d[t][k] as int] && lvl[d[t][k] as int] < lvl[t],
        forall|t: int| 0 <= t < tasks.len() && queued[t] && lvl[t] > 0 ==> exists|k: int| 0 <= k < d[t].len() && #[trigger] lvl[d[t][k] as int] == lvl[t] - 1,
    ensures
        well_placed(tasks[glv[l][j] as int], name_levels(tasks, glv), l),
{
    let nl = name_levels(tasks, glv);
    let t = glv[l][j] as int;
    assert(lvl[t] == l);
    assert forall|k: int| 0 <= k < tasks[t].after.len() implies placed_before(nl, l, #[trigger] tasks[t].after@[k]@) by {
        let p = d[t][k] as int;
        assert(queued[p] && lvl[p] < lvl[t]);
        let lp = lvl[p];
        assert(glv[lp].contains(p as usize));
        let jp = choose|jp: int| 0 <= jp < glv[lp].len() && glv[lp][jp] == p as usize;
        assert(nl[lp][jp] == tasks[p].name@);
        assert(nl[lp].contains(tasks[t].after@[k]@));
    }
    if l > 0 {
        assert(queued[t]);
        assert(lvl[t] > 0);
        let k = choose|k: int| 0 <= k < d[t].len() && #[trigger] lvl[d[t][k] as int] == lvl[t] - 1;
        let p = d[t][k] as int;
        let lm = l - 1;
        assert(lvl[p] == lm);
        assert(queued[p]);
        assert(glv[lm].contains(p as usize));
        let jp = choose|jp: int| 0 <= jp < glv[lm].len() && glv[lm][jp] == p as usize;
        assert(nl[lm][jp] == tasks[p].name@);
        assert(nl[lm].contains(tasks[t].after@[k]@));
    }
}

proof fn lemma_flatten_member<A>(levels: Seq<Seq<A>>, x: A)
    requires
        flatten_levels(levels).contains(x),
    ensures
        exists|l: int, j: int| 0 <= l < levels.len() && 0 <= j < levels[l].len() && levels[l][j] == x,
    decreases levels.len(),
{
    lemma_contains_concat(flatten_levels(levels.drop_last()), levels.last(), x);
    if flatten_levels(levels.drop_last()).contains(x) {
        lemma_flatten_member(levels.drop_last(), x);
        let (l, j) = choose|l: int, j: int| 0 <= l < levels.drop_last().len() && 0 <= j < levels.drop_last()[l].len() && levels.drop_last()[l][j] == x;
        assert(levels[l][j] == x);
    } else {
        let j = choose|j: int| 0 <= j < levels.last().len() && levels.last()[j] == x;
        assert(levels[levels.len() - 1][j] == x);
    }
}

/// Where level `l` starts in the flattened order.
pub open spec fn level_offset<A>(levels: Seq<Seq<A>>, l: int) -> int {
    flatten_levels(levels.subrange(0, l)).len() as int
}

proof fn lemma_flatten_len_mono<A>(levels: Seq<Seq<A>>, l1: int, l2: int)
    requires
        0 <= l1 <= l2 <= levels.len(),
    ensures
        level_offset(levels, l1) <= level_offset(levels, l2),
        l1 < l2 ==> level_offset(levels, l1) + levels[l1].len() <= level_offset(levels, l2),
    decreases l2 - l1,
{
    if l1 < l2 {
        lemma_flatten_len_mono(levels, l1, l2 - 1);
        assert(levels.subrange(0, l2).drop_last() =~= levels.subrange(0, l2 - 1));
        if l1 == l2 - 1 {
            assert(levels.subrange(0, l2).last() == levels[l1]);
        }
    }
}

proof fn lemma_flatten_index<A>(levels: Seq<Seq<A>>, l: int, j: int)
    requires
        0 <= l < levels.len(),
        0 <= j < levels[l].len(),
    ensures
        level_offset(levels, l) + j < flatten_levels(levels).len(),
        flatten_levels(levels)[level_offset(levels, l) + j] == levels[l][j],
    decreases levels.len(),
{
    let last = levels.len() - 1;
    assert(levels.subrange(0, levels.len() as int) =~= levels);
    if l == last {
        assert(levels.subrange(0, l) =~= levels.drop_last());
    } else {
        lemma_flatten_index(levels.drop_last(), l, j);
        assert(levels.drop_last().subrange(0, l) =~= levels.subrange(0, l));
        assert(levels.drop_last()[l] == levels[l]);
    }
}

proof fn lemma_flatten_locate<A>(levels: Seq<Seq<A>>, q: int)
    requires
        0 <= q < flatten_levels(levels).len(),
    ensures
        exists|l: int, j: int| 0 <= l < levels.len() && 0 <= j < levels[l].len() && q == level_offset(levels, l) + j
            && #[trigger] levels[l][j] == flatten_levels(levels)[q],
    decreases levels.len(),
{
    let init = levels.drop_last();
    let fl = flatten_levels(init);
    if q < fl.len() {
        lemma_flatten_locate(init, q);
        let (l, j) = choose|l: int, j: int| 0 <= l < init.len() && 0 <= j < init[l].len() && q == level_offset(init, l) + j
            && #[trigger] init[l][j] == flatten_levels(init)[q];
        assert(init.subrange(0, l) =~= levels.subrange(0, l));
        assert(levels[l] == init[l]);
        lemma_flatten_index(levels, l, j);
    } else {
        let l = levels.len() - 1;
        assert(levels.subrange(0, l) =~= init);
        assert(q == level_offset(levels, l) + (q - fl.len()));
        lemma_flatten_index(levels, l, q - fl.len());
    }
}

/// In the flattened order of a valid layering, every dependency of a task
/// comes before the task.
pub proof fn lemma_dependencies_come_first(tasks: Seq<AstTask>, levels: Seq<Seq<Seq<char>>>, i: int, k: int, q: int)
    requires
        valid_layering(tasks, levels),
        0 <= i < tasks.len(),
        0 <= k < tasks[i].after.len(),
        0 <= q < flatten_levels(levels).len(),
        flatten_levels(levels)[q] == tasks[i].name@,
    ensures
        exists|p: int| 0 <= p < q && flatten_levels(levels)[p] == tasks[i].after@[k]@,
{
    lemma_flatten_locate(levels, q);
    let (l, j) = choose|l: int, j: int| 0 <= l < levels.len() && 0 <= j < levels[l].len() && q == level_offset(levels, l) + j
        && #[trigger] levels[l][j] == flatten_levels(levels)[q];
    lemma_flatten_index(levels, l, j);
    assert(levels[l][j] == tasks[i].name@);
    assert(well_placed(tasks[i], levels, l));
    let d = tasks[i].after@[k]@;
    assert(placed_before(levels, l, d));
    let l2 = choose|l2: int| 0 <= l2 < l && #[trigger] levels[l2].contains(d);
    let j2 = choose|j2: int| 0 <= j2 < levels[l2].len() && levels[l2][j2] == d;
    lemma_flatten_index(levels, l2, j2);
    lemma_flatten_len_mono(levels, l2, l);
    assert(flatten_levels(levels)[level_offset(levels, l2) + j2] == d);
}

proof fn lemma_index_of_name(tasks: Seq<AstTask>, i: int)
    requires
        names_unique(tasks),
        0 <= i < tasks.len(),
    ensures
        index_of(tasks, tasks[i].name@) == i,
{
    let k = index_of(tasks, tasks[i].name@);
    assert(0 <= k < tasks.len() && tasks[k].name@ == tasks[i].name@);
}

proof fn lemma_last_dep_names(tasks: Seq<AstTask>, d: Seq<Seq<usize>>, level: Seq<usize>, c: int, q: int)
    requires
        tasks.len() <= usize::MAX,
        names_unique(tasks),
        dep_index_ok(tasks, d),
        0 <= c < tasks.len(),
        forall|m: int| 0 <= m < level.len() ==> (#[trigger] level[m]) < tasks.len(),
        last_dep_at(level, d[c], q),
    ensures
        last_dependency_at(level.map_values(|x: usize| tasks[x as int].name@), tasks[c], q),
{
    let nl = level.map_values(|x: usize| tasks[x as int].name@);
    let m = choose|m: int| 0 <= m < d[c].len() && d[c][m] == level[q];
    assert(dep_names(tasks[c])[m] == tasks[c].after@[m]@);
    assert(dep_names(tasks[c])[m] == nl[q]);
    assert forall|q2: int| q < q2 < nl.len() implies !dep_names(tasks[c]).contains(#[trigger] nl[q2]) by {
        if dep_names(tasks[c]).contains(nl[q2]) {
            let m2 = choose|m2: int| 0 <= m2 < dep_names(tasks[c]).len() && dep_names(tasks[c])[m2] == nl[q2];
            assert(tasks[d[c][m2] as int].name@ == tasks[c].after@[m2]@);
            assert(tasks[level[q2] as int].name@ == nl[q2]);
            assert(d[c][m2] == level[q2]);
            assert(d[c].contains(level[q2]));
        }
    }
}

proof fn lemma_levels_ordered(tasks: Seq<AstTask>, d: Seq<Seq<usize>>, glv: Seq<Seq<usize>>)
    requires
        tasks.len() <= usize::MAX,
        names_unique(tasks),
        dep_index_ok(tasks, d),
        forall|l: int, j: int| 0 <= l < glv.len() && 0 <= j < glv[l].len() ==> (#[trigger] glv[l][j]) < tasks.len(),
        glv.len() > 0 ==> increasing(glv[0]),
        forall|k: int| 0 <= k < glv.len() - 1 ==> next_level_ordered(#[trigger] glv[k], glv[k + 1], d),
    ensures
        ordered_levels(tasks, name_levels(tasks, glv)),
{
    let nl = name_levels(tasks, glv);
    if glv.len() > 0 {
        assert forall|j: int| 0 <= j < nl[0].len() - 1 implies #[trigger] first_level_order(tasks, nl[0], j) by {
            assert(step_up(glv[0], j));
            lemma_index_of_name(tasks, glv[0][j] as int);
            lemma_index_of_name(tasks, glv[0][j + 1] as int);
        }
    }
    assert forall|k: int, j: int| 0 <= k < nl.len() - 1 && 0 <= j < nl[k + 1].len() - 1 implies #[trigger] sibling_order(tasks, nl[k], nl[k + 1], j) by {
        assert(next_level_ordered(glv[k], glv[k + 1], d));
        assert(ordered_pair(glv[k], glv[k + 1], d, j));
        let (q1, q2) = choose|q1: int, q2: int|
            #[trigger] last_dep_at(glv[k], d[glv[k + 1][j] as int], q1) && #[trigger] last_dep_at(glv[k], d[glv[k + 1][j + 1] as int], q2)
                && (q1 < q2 || (q1 == q2 && glv[k + 1][j] < glv[k + 1][j + 1]));
        let c1 = glv[k + 1][j] as int;
        let c2 = glv[k + 1][j + 1] as int;
        assert forall|m: int| 0 <= m < glv[k].len() implies (#[trigger] glv[k][m]) < tasks.len() by {}
        lemma_last_dep_names(tasks, d, glv[k], c1, q1);
        lemma_last_dep_names(tasks, d, glv[k], c2, q2);
        lemma_index_of_name(tasks, c1);
        lemma_index_of_name(tasks, c2);
        assert(nl[k] == glv[k].map_values(|x: usize| tasks[x as int].name@));
        assert(nl[k + 1][j] == tasks[c1].name@);
        assert(nl[k + 1][j + 1] == tasks[c2].name@);
        assert(task_named(tasks, nl[k + 1][j]) == tasks[c1]);
        assert(task_named(tasks, nl[k + 1][j + 1]) == tasks[c2]);
    }
}

// ---------------------------------------------------------------------------
// A plan has one layering.

proof fn lemma_one_level_per_name(levels: Seq<Seq<Seq<char>>>, x: Seq<char>, l1: int, l2: int)
    requires
        flatten_levels(levels).no_duplicates(),
        0 <= l1 < levels.len(),
        0 <= l2 < levels.len(),
        levels[l1].contains(x),
        levels[l2].contains(x),
    ensures
        l1 == l2,
{
    let j1 = choose|j: int| 0 <= j < levels[l1].len() && levels[l1][j] == x;
    let j2 = choose|j: int| 0 <= j < levels[l2].len() && levels[l2][j] == x;
    lemma_flatten_index(levels, l1, j1);
    lemma_flatten_index(levels, l2, j2);
    if l1 < l2 {
        lemma_flatten_len_mono(levels, l1, l2);
    } else if l2 < l1 {
        lemma_flatten_len_mono(levels, l2, l1);
    }
}

/// The level holding `x`.
pub open spec fn level_of(levels: Seq<Seq<Seq<char>>>, x: Seq<char>) -> int {
    choose|l: int| 0 <= l < levels.len() && levels[l].contains(x)
}

proof fn lemma_level_of(levels: Seq<Seq<Seq<char>>>, x: Seq<char>, l: int)
    requires
        flatten_levels(levels).no_duplicates(),
        0 <= l < levels.len(),
        levels[l].contains(x),
    ensures
        level_of(levels, x) == l,
{
    let k = level_of(levels, x);
    lemma_one_level_per_name(levels, x, k, l);
}

proof fn lemma_name_placed(tasks: Seq<AstTask>, levels: Seq<Seq<Seq<char>>>, i: int)
    requires
        valid_layering(tasks, levels),
        0 <= i < tasks.len(),
    ensures
        0 <= level_of(levels, tasks[i].name@) < levels.len(),
        levels[level_of(levels, tasks[i].name@)].contains(tasks[i].name@),
        well_placed(tasks[i], levels, level_of(levels, tasks[i].name@)),
{
    let x = tasks[i].name@;
    assert(flatten_levels(levels).contains(x));
    lemma_flatten_member(levels, x);
    let (l, j) = choose|l: int, j: int| 0 <= l < levels.len() && 0 <= j < levels[l].len() && levels[l][j] == x;
    lemma_level_of(levels, x, l);
    assert(levels[l][j] == tasks[i].name@);
}

proof fn lemma_dep_level(tasks: Seq<AstTask>, levels: Seq<Seq<Seq<char>>>, i: int, k: int)
    requires
        valid_layering(tasks, levels),
        names_unique(tasks),
        0 <= i < tasks.len(),
        0 <= k < tasks[i].after.len(),
    ensures
        ({
            let dn = tasks[i].after@[k]@;
            let t = index_of(tasks, dn);
            &&& 0 <= t < tasks.len()
            &&& tasks[t].name@ == dn
            &&& level_of(levels, dn) < level_of(levels, tasks[i].name@)
        }),
{
    lemma_name_placed(tasks, levels, i);
    let l = level_of(levels, tasks[i].name@);
    let dn = tasks[i].after@[k]@;
    assert(placed_before(levels, l, dn));
    let l2 = choose|l2: int| 0 <= l2 < l && #[trigger] levels[l2].contains(dn);
    lemma_level_of(levels, dn, l2);
    let j2 = choose|j: int| 0 <= j < levels[l2].len() && levels[l2][j] == dn;
    assert(is_task_name(tasks, levels[l2][j2]));
}

proof fn lemma_same_level(tasks: Seq<AstTask>, a: Seq<Seq<Seq<char>>>, b: Seq<Seq<Seq<char>>>, m: nat, i: int)
    requires
        names_unique(tasks),
        valid_layering(tasks, a),
        valid_layering(tasks, b),
        0 <= i < tasks.len(),
        level_of(a, tasks[i].name@) <= m,
    ensures
        level_of(b, tasks[i].name@) == level_of(a, tasks[i].name@),
    decreases m,
{
    let x = tasks[i].name@;
    lemma_name_placed(tasks, a, i);
    lemma_name_placed(tasks, b, i);
    let la = level_of(a, x);
    let lb = level_of(b, x);
    if lb > 0 {
        let k = choose|k: int| 0 <= k < tasks[i].after.len() && b[lb - 1].contains(#[trigger] tasks[i].after@[k]@);
        let dn = tasks[i].after@[k]@;
        lemma_dep_level(tasks, a, i, k);
        lemma_level_of(b, dn, lb - 1);
        let t = index_of(tasks, dn);
        if m > 0 {
            lemma_same_level(tasks, a, b, (m - 1) as nat, t);
        }
        assert(lb - 1 < la);
    }
    if la > 0 {
        let k = choose|k: int| 0 <= k < tasks[i].after.len() && a[la - 1].contains(#[trigger] tasks[i].after@[k]@);
        let dn = tasks[i].after@[k]@;
        lemma_dep_level(tasks, b, i, k);
        lemma_dep_level(tasks, a, i, k);
        lemma_level_of(a, dn, la - 1);
        let t = index_of(tasks, dn);
        lemma_same_level(tasks, a, b, (m - 1) as nat, t);
        assert(la - 1 < lb);
    }
}

pub open spec fn lex_lt(a1: int, a2: int, b1: int, b2: int) -> bool {
    a1 < b1 || (a1 == b1 && a2 < b2)
}

pub open spec fn lex_step(s: Seq<Seq<char>>, f: spec_fn(Seq<char>) -> int, g: spec_fn(Seq<char>) -> int, j: int) -> bool {
    lex_lt(f(s[j]), g(s[j]), f(s[j + 1]), g(s[j + 1]))
}

pub open spec fn lex_sorted(s: Seq<Seq<char>>, f: spec_fn(Seq<char>) -> int, g: spec_fn(Seq<char>) -> int) -> bool {
    forall|j: int| 0 <= j < s.len() - 1 ==> #[trigger] lex_step(s, f, g, j)
}

proof fn lemma_lex_sorted_global(s: Seq<Seq<char>>, f: spec_fn(Seq<char>) -> int, g: spec_fn(Seq<char>) -> int, i: int, j: int)
    requires
        lex_sorted(s, f, g),
        0 <= i < j < s.len(),
    ensures
        lex_lt(f(s[i]), g(s[i]), f(s[j]), g(s[j])),
    decreases j - i,
{
    assert(lex_step(s, f, g, j - 1));
    if i < j - 1 {
        lemma_lex_sorted_global(s, f, g, i, j - 1);
    }
}

proof fn lemma_lex_sorted_unique(s: Seq<Seq<char>>, t: Seq<Seq<char>>, f: spec_fn(Seq<char>) -> int, g: spec_fn(Seq<char>) -> int)
    requires
        s.no_duplicates(),
        t.no_duplicates(),
        lex_sorted(s, f, g),
        lex_sorted(t, f, g),
        forall|y: Seq<char>| s.contains(y) <==> t.contains(y),
    ensures
        s == t,
    decreases s.len(),
{
    if s.len() == 0 {
        if t.len() > 0 {
            assert(t.contains(t[0]));
        }
        assert(s =~= t);
    } else {
        assert(s.contains(s[0]));
        assert(t.len() > 0);
        assert(t.contains(t[0]));
        if s[0] != t[0] {
            let i = choose|i: int| 0 <= i < s.len() && s[i] == t[0];
            let j = choose|j: int| 0 <= j < t.len() && t[j] == s[0];
            lemma_lex_sorted_global(s, f, g, 0, i);
            lemma_lex_sorted_global(t, f, g, 0, j);
        }
        let s1 = s.drop_first();
        let t1 = t.drop_first();
        assert forall|y: Seq<char>| s1.contains(y) <==> t1.contains(y) by {
            if s1.contains(y) {
                let i = choose|i: int| 0 <= i < s1.len() && s1[i] == y;
                assert(s[i + 1] == y);
                assert(t.contains(y));
                let j = choose|j: int| 0 <= j < t.len() && t[j] == y;
                if j == 0 {
                    assert(s[0] == s[i + 1]);
                }
                assert(t1[j - 1] == y);
            }
            if t1.contains(y) {
                let j = choose|j: int| 0 <= j < t1.len() && t1[j] == y;
                assert(t[j + 1] == y);
                assert(s.contains(y));
                let i = choose|i: int| 0 <= i < s.len() && s[i] == y;
                if i == 0 {
                    assert(t[0] == t[j + 1]);
                }
                assert(s1[i - 1] == y);
            }
        }
        assert forall|j: int| 0 <= j < s1.len() - 1 implies #[trigger] lex_step(s1, f, g, j) by {
            assert(lex_step(s, f, g, j + 1));
        }
        assert forall|j: int| 0 <= j < t1.len() - 1 implies #[trigger] lex_step(t1, f, g, j) by {
            assert(lex_step(t, f, g, j + 1));
        }
        lemma_lex_sorted_unique(s1, t1, f, g);
        assert(s =~= seq![s[0]] + s1);
        assert(t =~= seq![t[0]] + t1);
    }
}

proof fn lemma_level_no_dup(levels: Seq<Seq<Seq<char>>>, l: int)
    requires
        flatten_levels(levels).no_duplicates(),
        0 <= l < levels.len(),
    ensures
        levels[l].no_duplicates(),
{
    assert forall|j1: int, j2: int| 0 <= j1 < levels[l].len() && 0 <= j2 < levels[l].len() && j1 != j2 implies levels[l][j1] != levels[l][j2] by {
        lemma_flatten_index(levels, l, j1);
        lemma_flatten_index(levels, l, j2);
    }
}

proof fn lemma_last_dependency_unique(level: Seq<Seq<char>>, t: AstTask, q1: int, q2: int)
    requires
        last_dependency_at(level, t, q1),
        last_dependency_at(level, t, q2),
    ensures
        q1 == q2,
{
    if q1 < q2 {
        assert(!dep_names(t).contains(level[q2]));
    } else if q2 < q1 {
        assert(!dep_names(t).contains(level[q1]));
    }
}

/// Where a task's last dependency stands in a level.
pub open spec fn last_dependency_pos(level: Seq<Seq<char>>, t: AstTask) -> int {
    choose|q: int| last_dependency_at(level, t, q)
}

proof fn lemma_level_sorted(tasks: Seq<AstTask>, levels: Seq<Seq<Seq<char>>>, k: int)
    requires
        ordered_levels(tasks, levels),
        0 <= k < levels.len(),
    ensures
        k == 0 ==> lex_sorted(levels[0], |x: Seq<char>| 0int, |x: Seq<char>| index_of(tasks, x)),
        k > 0 ==> lex_sorted(levels[k], |x: Seq<char>| last_dependency_pos(levels[k - 1], task_named(tasks, x)),
            |x: Seq<char>| index_of(tasks, x)),
{
    if k == 0 {
        let f = |x: Seq<char>| 0int;
        let g = |x: Seq<char>| index_of(tasks, x);
        assert forall|j: int| 0 <= j < levels[0].len() - 1 implies #[trigger] lex_step(levels[0], f, g, j) by {
            assert(first_level_order(tasks, levels[0], j));
        }
    } else {
        let prev = levels[k - 1];
        let f = |x: Seq<char>| last_dependency_pos(prev, task_named(tasks, x));
        let g = |x: Seq<char>| index_of(tasks, x);
        assert forall|j: int| 0 <= j < levels[k].len() - 1 implies #[trigger] lex_step(levels[k], f, g, j) by {
            let kk = k - 1;
            assert(sibling_order(tasks, levels[kk], levels[kk + 1], j));
            let (q1, q2) = choose|q1: int, q2: int|
                #[trigger] last_dependency_at(prev, task_named(tasks, levels[k][j]), q1)
                    && #[trigger] last_dependency_at(prev, task_named(tasks, levels[k][j + 1]), q2)
                    && (q1 < q2 || (q1 == q2 && index_of(tasks, levels[k][j]) < index_of(tasks, levels[k][j + 1])));
            lemma_last_dependency_unique(prev, task_named(tasks, levels[k][j]), q1, f(levels[k][j]));
            lemma_last_dependency_unique(prev, task_named(tasks, levels[k][j + 1]), q2, f(levels[k][j + 1]));
        }
    }
}

proof fn lemma_same_members(tasks: Seq<AstTask>, a: Seq<Seq<Seq<char>>>, b: Seq<Seq<Seq<char>>>, k: int, y: Seq<char>)
    requires
        names_unique(tasks),
        valid_layering(tasks, a),
        valid_layering(tasks, b),
        0 <= k < a.len(),
        0 <= k < b.len(),
        a[k].contains(y),
    ensures
        b[k].contains(y),
{
    let j = choose|j: int| 0 <= j < a[k].len() && a[k][j] == y;
    assert(is_task_name(tasks, a[k][j]));
    let i = choose|i: int| 0 <= i < tasks.len() && tasks[i].name@ == y;
    lemma_level_of(a, y, k);
    lemma_same_level(tasks, a, b, k as nat, i);
    lemma_name_placed(tasks, b, i);
}

proof fn lemma_levels_equal(tasks: Seq<AstTask>, a: Seq<Seq<Seq<char>>>, b: Seq<Seq<Seq<char>>>, k: int)
    requires
        names_unique(tasks),
        valid_layering(tasks, a),
        ordered_levels(tasks, a),
        valid_layering(tasks, b),
        ordered_levels(tasks, b),
        a.len() == b.len(),
        0 <= k < a.len(),
    ensures
        a[k] == b[k],
    decreases k,
{
    if k > 0 {
        lemma_levels_equal(tasks, a, b, k - 1);
    }
    lemma_level_sorted(tasks, a, k);
    lemma_level_sorted(tasks, b, k);
    lemma_level_no_dup(a, k);
    lemma_level_no_dup(b, k);
    assert forall|y: Seq<char>| a[k].contains(y) <==> b[k].contains(y) by {
        if a[k].contains(y) {
            lemma_same_members(tasks, a, b, k, y);
        }
        if b[k].contains(y) {
            lemma_same_members(tasks, b, a, k, y);
        }
    }
    let g = |x: Seq<char>| index_of(tasks, x);
    if k == 0 {
        lemma_lex_sorted_unique(a[0], b[0], |x: Seq<char>| 0int, g);
    } else {
        let f = |x: Seq<char>| last_dependency_pos(a[k - 1], task_named(tasks, x));
        assert(a[k - 1] == b[k - 1]);
        lemma_lex_sorted_unique(a[k], b[k], f, g);
    }
}

proof fn lemma_level_count(tasks: Seq<AstTask>, a: Seq<Seq<Seq<char>>>, b: Seq<Seq<Seq<char>>>)
    requires
        names_unique(tasks),
        valid_layering(tasks, a),
        valid_layering(tasks, b),
    ensures
        a.len() <= b.len(),
{
    if a.len() > 0 {
        let l = a.len() - 1;
        assert(a[l].len() > 0);
        let y = a[l][0];
        assert(is_task_name(tasks, a[l][0]));
        let i = choose|i: int| 0 <= i < tasks.len() && tasks[i].name@ == y;
        assert(a[l].contains(y));
        lemma_level_of(a, y, l);
        lemma_same_level(tasks, a, b, l as nat, i);
        lemma_name_placed(tasks, b, i);
    }
}

/// A plan has one layering: two valid, ordered layerings of the same tasks
/// are the same. The levels and `task_order` are therefore fixed by the plan
/// alone, so every run uses one order and the skeleton shows that order.
pub proof fn lemma_layering_is_unique(tasks: Seq<AstTask>, a: Seq<Seq<Seq<char>>>, b: Seq<Seq<Seq<char>>>)
    requires
        names_unique(tasks),
        valid_layering(tasks, a),
        ordered_levels(tasks, a),
        valid_layering(tasks, b),
        ordered_levels(tasks, b),
    ensures
        a == b,
        flatten_levels(a) == flatten_levels(b),
{
    lemma_level_count(tasks, a, b);
    lemma_level_count(tasks, b, a);
    assert forall|k: int| 0 <= k < a.len() implies a[k] == b[k] by {
        lemma_levels_equal(tasks, a, b, k);
    }
    assert(a =~= b);
}

} // verus!
