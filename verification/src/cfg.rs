//! Configuration of the simple valuer: groups of tests, their feedback and
//! their dependencies, with validation of the dependency graph.
use vstd::prelude::*;

verus! {

/// How much a contestant learns about a group.
#[derive(Debug, Clone, Copy, PartialEq, Eq, Structural)]
pub enum FeedbackKind {
    /// no feedback provided
    Hidden,
    /// Only summary is provided
    Brief,
    /// Full feedback is provided
    Full,
}

/// Reference to a group, by name or by zero-based position.
#[derive(Debug, Clone)]
pub enum GroupRef {
    ByName(String),
    ById(u32),
}

/// Default of [`Group::run_to_first_failure`].
pub fn default_run_to_first_failure() -> (r: bool)
    ensures
        r,
{
    true
}

/// One group (subtask) of the valuer config.
#[derive(Debug, Clone)]
pub struct Group {
    /// Group name.
    /// It is user to refer from other groups.
    pub name: String,
    /// Determines what information will be provided to contestant
    pub feedback: FeedbackKind,
    /// Tag to find tests in this group. If none, same as `name`
    pub tests_tag: Option<String>,
    /// Stop running group if some test failed
    pub run_to_first_failure: bool,
    /// Group score
    pub score: u32,
    /// Required groups
    pub deps: Vec<GroupRef>,
}

/// The tag that selects the tests of a group.
pub open spec fn spec_tests_tag(g: Group) -> Seq<char> {
    match g.tests_tag {
        Some(t) => t@,
        None => g.name@,
    }
}

impl Group {
    /// Tag to find tests in this group: `tests_tag` if set, else `name`.
    pub fn tests_tag(&self) -> (r: &str)
        ensures
            r@ == spec_tests_tag(*self),
            self.tests_tag matches Some(t) ==> r@ == t@,
            self.tests_tag is None ==> r@ == self.name@,
    {
        match &self.tests_tag {
            Some(t) => t.as_str(),
            None => self.name.as_str(),
        }
    }
}

/// SValuer config
#[derive(Debug, Clone)]
pub struct Config {
    pub groups: Vec<Group>,
}

/// Error reported for a dependency that names no group.
pub const MSG_INVALID_GROUP_REF: &'static str = "GroupRef refers to nonexistent group";

/// Error reported for cyclic dependencies.
pub const MSG_CIRCULAR_REF: &'static str = "group dependencies have cycle";

/// Index of the first group named `name`, if any.
pub open spec fn first_with_name(groups: Seq<Group>, name: Seq<char>) -> Option<int>
    decreases groups.len(),
{
    if groups.len() == 0 {
        None
    } else {
        match first_with_name(groups.drop_last(), name) {
            Some(i) => Some(i),
            None => if groups.last().name@ == name {
                Some(groups.len() - 1)
            } else {
                None
            },
        }
    }
}

/// The group a reference resolves to.
pub open spec fn spec_get_group(groups: Seq<Group>, dep: GroupRef) -> Option<int> {
    match dep {
        GroupRef::ById(id) => if (id as int) < groups.len() {
            Some(id as int)
        } else {
            None
        },
        GroupRef::ByName(name) => first_with_name(groups, name@),
    }
}

/// Indices of the groups that `deps` resolve to, in order, skipping invalid ones.
pub open spec fn resolved_deps(groups: Seq<Group>, deps: Seq<GroupRef>) -> Seq<usize>
    decreases deps.len(),
{
    if deps.len() == 0 {
        Seq::empty()
    } else {
        let r = resolved_deps(groups, deps.drop_last());
        match spec_get_group(groups, deps.last()) {
            Some(j) => r.push(j as usize),
            None => r,
        }
    }
}

/// Number of references in `deps` that resolve to no group.
pub open spec fn invalid_count(groups: Seq<Group>, deps: Seq<GroupRef>) -> nat
    decreases deps.len(),
{
    if deps.len() == 0 {
        0
    } else {
        invalid_count(groups, deps.drop_last()) + match spec_get_group(
            groups,
            deps.last(),
        ) {
            Some(_) => 0nat,
            None => 1nat,
        }
    }
}

/// Number of invalid references in the first `n` groups.
pub open spec fn total_invalid(groups: Seq<Group>, n: int) -> nat
    decreases n,
{
    if n <= 0 {
        0
    } else {
        total_invalid(groups, n - 1) + invalid_count(groups, groups[n - 1].deps@)
    }
}

/// Dependency graph: the successors of group `i` are the groups it requires.
pub open spec fn dep_graph(groups: Seq<Group>) -> Seq<Seq<usize>> {
    Seq::new(groups.len(), |i: int| resolved_deps(groups, groups[i].deps@))
}

/// `p` is a walk along edges of `g`.
pub open spec fn is_path(g: Seq<Seq<usize>>, p: Seq<usize>) -> bool {
    &&& p.len() >= 1
    &&& forall|k: int| 0 <= k < p.len() ==> (#[trigger] p[k] as int) < g.len()
    &&& forall|k: int|
        0 <= k < p.len() - 1 ==> #[trigger] g[p[k] as int].contains(p[k + 1])
}

/// Some walk from `root` visits a vertex twice, i.e. a cycle is reachable from `root`.
pub open spec fn has_reachable_cycle(g: Seq<Seq<usize>>, root: usize) -> bool {
    exists|p: Seq<usize>, i: int, j: int|
        #![trigger is_path(g, p), p[i], p[j]]
        is_path(g, p) && p[0] == root && 0 <= i < j < p.len() && p[i] == p[j]
}

/// Whether `validate` reports a cycle.
pub open spec fn config_has_cycle(groups: Seq<Group>) -> bool {
    groups.len() > 0 && has_reachable_cycle(dep_graph(groups), 0)
}

// ---------------------------------------------------------------------------
// Depth-first search over the dependency graph, with colors
// 0 = not visited, 1 = on the current search path, 2 = finished.

spec fn graph_wf(g: Seq<Seq<usize>>) -> bool {
    forall|u: int, k: int|
        0 <= u < g.len() && 0 <= k < g[u].len() ==> (#[trigger] g[u][k] as int) < g.len()
}

spec fn colors_ok(used: Seq<u8>) -> bool {
    forall|k: int| 0 <= k < used.len() ==> #[trigger] used[k] <= 2
}

spec fn all_black(used: Seq<u8>, p: Seq<usize>) -> bool {
    forall|k: int|
        0 <= k < p.len() ==> (#[trigger] p[k] as int) < used.len() && used[p[k] as int] == 2
}

/// Finished vertices only lead to finished vertices.
spec fn black_closed(g: Seq<Seq<usize>>, used: Seq<u8>) -> bool {
    forall|u: int, k: int|
        0 <= u < g.len() && used[u] == 2 && 0 <= k < g[u].len() ==> used[#[trigger] g[u][k] as int]
            == 2
}

/// Walks through finished vertices never repeat a vertex.
spec fn black_acyclic(g: Seq<Seq<usize>>, used: Seq<u8>) -> bool {
    forall|p: Seq<usize>, i: int, j: int|
        #![trigger is_path(g, p), p[i], p[j]]
        is_path(g, p) && all_black(used, p) && 0 <= i < j < p.len() ==> p[i] != p[j]
}

/// The vertices on the search path are exactly `stack`, a walk from `root`
/// whose last vertex leads to `v`.
spec fn stack_ok(g: Seq<Seq<usize>>, used: Seq<u8>, stack: Seq<usize>, root: usize, v: usize) -> bool {
    &&& stack.len() == 0 ==> v == root
    &&& stack.len() > 0 ==> {
        &&& stack[0] == root
        &&& is_path(g, stack)
        &&& g[stack.last() as int].contains(v)
    }
    &&& forall|u: int| 0 <= u < used.len() ==> (used[u] == 1 <==> stack.contains(u as usize))
}

spec fn count_white(s: Seq<u8>) -> nat
    decreases s.len(),
{
    if s.len() == 0 {
        0
    } else {
        count_white(s.drop_last()) + if s.last() == 0 {
            1nat
        } else {
            0nat
        }
    }
}

proof fn lemma_count_white_update(s: Seq<u8>, i: int, x: u8)
    requires
        0 <= i < s.len(),
        x != 0,
    ensures
        count_white(s.update(i, x)) == count_white(s) - (if s[i] == 0 {
            1int
        } else {
            0int
        }),
    decreases s.len(),
{
    let t = s.update(i, x);
    if i == s.len() - 1 {
        assert(t.drop_last() =~= s.drop_last());
    } else {
        assert(t.drop_last() =~= s.drop_last().update(i, x));
        lemma_count_white_update(s.drop_last(), i, x);
    }
}

proof fn lemma_count_white_mono(a: Seq<u8>, b: Seq<u8>)
    requires
        a.len() == b.len(),
        forall|k: int| 0 <= k < a.len() && a[k] != 0 ==> b[k] != 0,
    ensures
        count_white(b) <= count_white(a),
    decreases a.len(),
{
    if a.len() > 0 {
        lemma_count_white_mono(a.drop_last(), b.drop_last());
    }
}

/// On a walk starting in a finished vertex, every vertex is finished.
proof fn lemma_closed_path_black(g: Seq<Seq<usize>>, used: Seq<u8>, p: Seq<usize>)
    requires
        used.len() == g.len(),
        is_path(g, p),
        used[p[0] as int] == 2,
        black_closed(g, used),
    ensures
        all_black(used, p),
    decreases p.len(),
{
    if p.len() > 1 {
        let q = p.drop_last();
        assert(is_path(g, q)) by {
            assert forall|k: int| 0 <= k < q.len() - 1 implies #[trigger] g[q[k] as int].contains(
                q[k + 1],
            ) by {
                assert(g[p[k] as int].contains(p[k + 1]));
            }
        }
        lemma_closed_path_black(g, used, q);
        let m = p.len() - 2;
        let u = p[m];
        assert(g[p[m] as int].contains(p[m + 1]));
        let kk = choose|kk: int| 0 <= kk < g[u as int].len() && g[u as int][kk] == p[m + 1];
        assert(q[m] == u);
        assert(used[q[m] as int] == 2);
        assert(used[g[u as int][kk] as int] == 2);
        assert forall|k: int| 0 <= k < p.len() implies (#[trigger] p[k] as int) < used.len() && used[p[k] as int] == 2 by {
            if k < p.len() - 1 {
                assert(q[k] == p[k]);
            }
        }
    }
}

/// Finishing a vertex whose successors are all finished keeps the finished
/// vertices closed and acyclic.
proof fn lemma_finish_vertex(g: Seq<Seq<usize>>, used: Seq<u8>, v: usize)
    requires
        graph_wf(g),
        used.len() == g.len(),
        (v as int) < g.len(),
        used[v as int] == 1,
        black_closed(g, used),
        black_acyclic(g, used),
        forall|k: int| 0 <= k < g[v as int].len() ==> used[#[trigger] g[v as int][k] as int] == 2,
    ensures
        black_closed(g, used.update(v as int, 2)),
        black_acyclic(g, used.update(v as int, 2)),
{
    let nu = used.update(v as int, 2);
    assert forall|u: int, k: int|
        0 <= u < g.len() && nu[u] == 2 && 0 <= k < g[u].len() implies nu[#[trigger] g[u][k] as int]
        == 2 by {
        if u == v as int {
            assert(used[g[u][k] as int] == 2);
        } else {
            assert(used[u] == 2);
            assert(used[g[u][k] as int] == 2);
        }
    }
    assert forall|p: Seq<usize>, i: int, j: int|
        #![trigger is_path(g, p), p[i], p[j]]
        is_path(g, p) && all_black(nu, p) && 0 <= i < j < p.len() implies p[i] != p[j] by {
        if p.contains(v) {
            let k0 = choose|k0: int| 0 <= k0 < p.len() && p[k0] == v;
            // the first occurrence of v
            let k = first_index_of(p, v, k0);
            if k > 0 {
                let j1 = k - 1;
                let u = p[j1];
                assert(u != v);
                assert(nu[p[j1] as int] == 2);
                assert(used[u as int] == 2);
                assert(g[p[j1] as int].contains(p[j1 + 1]));
                let kk = choose|kk: int| 0 <= kk < g[u as int].len() && g[u as int][kk] == p[k];
                assert(used[g[u as int][kk] as int] == 2);
                assert(false);
            }
            assert(p[0] == v);
            if p.len() > 1 {
                let q = p.subrange(1, p.len() as int);
                assert(is_path(g, q)) by {
                    assert forall|t: int| 0 <= t < q.len() implies (#[trigger] q[t] as int)
                        < g.len() by {
                        assert(q[t] == p[t + 1]);
                    }
                    assert forall|t: int| 0 <= t < q.len() - 1 implies #[trigger] g[q[t] as int].contains(
                        q[t + 1],
                    ) by {
                        let s1 = t + 1;
                        assert(q[t] == p[s1]);
                        assert(q[t + 1] == p[s1 + 1]);
                        assert(g[p[s1] as int].contains(p[s1 + 1]));
                    }
                }
                let z = 0int;
                assert(g[p[z] as int].contains(p[z + 1]));
                let kk = choose|kk: int| 0 <= kk < g[v as int].len() && g[v as int][kk] == p[1];
                assert(used[g[v as int][kk] as int] == 2);
                assert(used[q[0] as int] == 2);
                lemma_closed_path_black(g, used, q);
                if i == 0 {
                    assert(q[j - 1] == p[j]);
                    assert(used[q[j - 1] as int] == 2);
                } else {
                    assert(q[i - 1] == p[i] && q[j - 1] == p[j]);
                    assert(is_path(g, q) && all_black(used, q));
                    assert(q[i - 1] != q[j - 1]);
                }
            }
        } else {
            assert forall|t: int| 0 <= t < p.len() implies (#[trigger] p[t] as int) < used.len() && used[p[t] as int] == 2 by {
                assert(nu[p[t] as int] == 2);
                assert(p[t] != v);
            }
            assert(all_black(used, p));
        }
    }
}

proof fn lemma_gray_keeps_black(used0: Seq<u8>, v: int, p: Seq<usize>)
    requires
        0 <= v < used0.len(),
        all_black(used0.update(v, 1), p),
    ensures
        all_black(used0, p),
{
    let u1 = used0.update(v, 1);
    assert forall|k: int| 0 <= k < p.len() implies (#[trigger] p[k] as int) < used0.len() && used0[p[k] as int] == 2 by {
        assert(u1[p[k] as int] == 2);
        if p[k] as int == v {
            assert(u1[v] == 1);
        } else {
            assert(u1[p[k] as int] == used0[p[k] as int]);
        }
    }
}

/// The first position of `x` in `p`, given some position `k` of it.
proof fn first_index_of(p: Seq<usize>, x: usize, k: int) -> (r: int)
    requires
        0 <= k < p.len(),
        p[k] == x,
    ensures
        0 <= r <= k,
        p[r] == x,
        forall|t: int| 0 <= t < r ==> p[t] != x,
    decreases k,
{
    if exists|t: int| 0 <= t < k && p[t] == x {
        let t = choose|t: int| 0 <= t < k && p[t] == x;
        first_index_of(p, x, t)
    } else {
        k
    }
}

fn dfs(
    graph: &Vec<Vec<usize>>,
    used: &mut Vec<u8>,
    has_cycle: &mut bool,
    v: usize,
    Ghost(stack): Ghost<Seq<usize>>,
    Ghost(root): Ghost<usize>,
    Ghost(measure): Ghost<int>,
)
    requires
        measure == 2 * count_white(old(used)@) + (if old(used)@[v as int] == 0 {
            0int
        } else {
            1int
        }),
        graph_wf(graph@.map_values(|e: Vec<usize>| e@)),
        old(used)@.len() == graph@.len(),
        (v as int) < graph@.len(),
        colors_ok(old(used)@),
        old(used)@[v as int] != 1,
        stack_ok(graph@.map_values(|e: Vec<usize>| e@), old(used)@, stack, root, v),
        !*old(has_cycle) ==> black_closed(graph@.map_values(|e: Vec<usize>| e@), old(used)@)
            && black_acyclic(graph@.map_values(|e: Vec<usize>| e@), old(used)@),
        *old(has_cycle) ==> has_reachable_cycle(graph@.map_values(|e: Vec<usize>| e@), root),
    ensures
        final(used)@.len() == old(used)@.len(),
        colors_ok(final(used)@),
        final(used)@[v as int] == 2,
        forall|k: int|
            0 <= k < old(used)@.len() && k != v ==> final(used)@[k] == old(used)@[k] || (
            old(used)@[k] == 0 && final(used)@[k] == 2),
        *old(has_cycle) ==> *final(has_cycle),
        *final(has_cycle) ==> has_reachable_cycle(graph@.map_values(|e: Vec<usize>| e@), root),
        !*final(has_cycle) ==> black_closed(graph@.map_values(|e: Vec<usize>| e@), final(used)@)
            && black_acyclic(graph@.map_values(|e: Vec<usize>| e@), final(used)@),
    decreases measure,
{
    let ghost g = graph@.map_values(|e: Vec<usize>| e@);
    let ghost used0 = used@;
    let ghost hc0 = *has_cycle;
    let _len = used.len();
    proof {
        lemma_count_white_update(used@, v as int, 1);
    }
    used.set(v, 1);
    proof {
        assert(used@ == used0.update(v as int, 1));
    }
    let ghost st2 = stack.push(v);
    proof {
        assert(g[v as int] == graph@[v as int]@);
        assert(st2[0] == root);
        assert(is_path(g, st2)) by {
            assert forall|k: int| 0 <= k < st2.len() implies (#[trigger] st2[k] as int) < g.len() by {
                if k < stack.len() {
                    assert(st2[k] == stack[k]);
                }
            }
            assert forall|k: int| 0 <= k < st2.len() - 1 implies #[trigger] g[st2[k] as int].contains(
                st2[k + 1],
            ) by {
                assert(st2[k] == stack[k]);
                if k < stack.len() - 1 {
                    assert(g[stack[k] as int].contains(stack[k + 1]));
                }
            }
        }
        assert forall|u: int| 0 <= u < used@.len() implies (used@[u] == 1 <==> st2.contains(
            u as usize,
        )) by {
            if u == v as int {
                assert(st2[stack.len() as int] == v);
            } else {
                if stack.contains(u as usize) {
                    let t = choose|t: int| 0 <= t < stack.len() && stack[t] == u as usize;
                    assert(st2[t] == u as usize);
                }
                if st2.contains(u as usize) {
                    let t = choose|t: int| 0 <= t < st2.len() && st2[t] == u as usize;
                    assert(st2[stack.len() as int] == v);
                    assert(t < stack.len());
                    assert(stack[t] == u as usize);
                }
            }
        }
        if !hc0 && used0[v as int] == 0 {
            // v was not finished, so finished vertices are unchanged
            assert forall|p: Seq<usize>| all_black(used@, p) implies all_black(used0, p) by {
                lemma_gray_keeps_black(used0, v as int, p);
            }
            assert forall|u: int, k: int|
                0 <= u < g.len() && used@[u] == 2 && 0 <= k < g[u].len() implies used@[
                #[trigger] g[u][k] as int] == 2 by {
                assert(used0[u] == 2);
                assert(used0[g[u][k] as int] == 2);
            }
        }
    }
    let n_adj = graph[v].len();
    let mut idx: usize = 0;
    while idx < n_adj
        invariant
            g == graph@.map_values(|e: Vec<usize>| e@),
            graph_wf(g),
            (v as int) < graph@.len(),
            n_adj == g[v as int].len(),
            0 <= idx <= n_adj,
            used@.len() == used0.len(),
            used0.len() == graph@.len(),
            colors_ok(used@),
            used@[v as int] == 1,
            st2 == stack.push(v),
            st2[0] == root,
            is_path(g, st2),
            forall|u: int| 0 <= u < used@.len() ==> (used@[u] == 1 <==> st2.contains(u as usize)),
            forall|k: int|
                0 <= k < used0.len() && k != v ==> used@[k] == used0[k] || (used0[k] == 0
                    && used@[k] == 2),
            count_white(used@) + (if used0[v as int] == 0 {
                1int
            } else {
                0int
            }) <= count_white(used0),
            hc0 ==> *has_cycle,
            *has_cycle ==> has_reachable_cycle(g, root),
            !hc0 ==> black_closed(g, used0) && black_acyclic(g, used0),
            used0[v as int] == 0 || used0[v as int] == 2,
            measure == 2 * count_white(used0) + (if used0[v as int] == 0 {
                0int
            } else {
                1int
            }),
            !*has_cycle && used0[v as int] == 0 ==> black_closed(g, used@) && black_acyclic(g, used@),
            !*has_cycle && used0[v as int] == 0 ==> forall|t: int|
                0 <= t < idx ==> used@[#[trigger] g[v as int][t] as int] == 2,
            !*has_cycle && used0[v as int] == 2 ==> used@ == used0.update(v as int, 1),
        decreases n_adj - idx,
    {
        let w = graph[v][idx];
        proof {
            assert(g[v as int][idx as int] == w);
        }
        if used[w] == 0 {
            let ghost before = used@;
            let ghost hc_before = *has_cycle;
            proof {
                assert(g[st2.last() as int].contains(w));
                assert(stack_ok(g, used@, st2, root, w));
                if !*has_cycle && used0[v as int] == 2 {
                    assert(used0[g[v as int][idx as int] as int] == 2);
                    assert(false);
                }
                assert(count_white(used@) < count_white(used0) || (count_white(used@) == count_white(used0) && used0[v as int] == 2));
            }
            let ghost m1 = 2 * count_white(used@) as int;
            dfs(
                graph,
                used,
                has_cycle,
                w,
                Ghost(st2),
                Ghost(root),
                Ghost(m1),
            );
            proof {
                lemma_count_white_mono(before, used@);
                assert forall|u: int| 0 <= u < used@.len() implies (used@[u] == 1 <==> st2.contains(
                    u as usize,
                )) by {
                    if u != w as int {
                        assert(used@[u] == before[u] || (before[u] == 0 && used@[u] == 2));
                    }
                }
                if !*has_cycle {
                    assert(!hc_before);
                    assert(used0[v as int] == 0);
                    assert forall|t: int| 0 <= t < idx + 1 implies used@[#[trigger] g[v as int][t] as int]
                        == 2 by {
                        if t < idx {
                            let x = g[v as int][t];
                            assert(before[x as int] == 2);
                            if x != w {
                                assert(used@[x as int] == before[x as int] || (before[x as int] == 0 && used@[x as int] == 2));
                            }
                        } else {
                            assert(g[v as int][t] == w);
                        }
                    }
                }
            }
        } else if used[w] == 1 {
            *has_cycle = true;
            proof {
                assert(st2.contains(w));
                let k = choose|k: int| 0 <= k < st2.len() && st2[k] == w;
                let p = st2.push(w);
                assert(is_path(g, p)) by {
                    assert forall|t: int| 0 <= t < p.len() implies (#[trigger] p[t] as int) < g.len() by {
                        if t < st2.len() {
                            assert(p[t] == st2[t]);
                        }
                    }
                    assert forall|t: int| 0 <= t < p.len() - 1 implies #[trigger] g[p[t] as int].contains(
                        p[t + 1],
                    ) by {
                        assert(p[t] == st2[t]);
                        if t < st2.len() - 1 {
                            assert(p[t + 1] == st2[t + 1]);
                            assert(g[st2[t] as int].contains(st2[t + 1]));
                        } else {
                            assert(st2[t] == v);
                            assert(g[v as int][idx as int] == w);
                        }
                    }
                }
                assert(p[k] == p[st2.len() as int]);
                assert(p[0] == root);
            }
        } else {
            proof {
                if !*has_cycle && used0[v as int] == 0 {
                    assert(used@[w as int] == 2);
                    assert forall|t: int| 0 <= t < idx + 1 implies used@[#[trigger] g[v as int][t] as int]
                        == 2 by {
                        if t == idx {
                            assert(g[v as int][t] == w);
                        }
                    }
                }
            }
        }
        idx = idx + 1;
    }
    proof {
        if !*has_cycle && used0[v as int] == 0 {
            lemma_finish_vertex(g, used@, v);
        }
    }
    used.set(v, 2);
    proof {
        if !*has_cycle && used0[v as int] == 2 {
            assert(used@ =~= used0);
        }
    }
}

impl Config {
    /// Resolves a group reference to the index of the group.
    pub fn get_group(&self, dep: &GroupRef) -> (r: Option<usize>)
        ensures
            match spec_get_group(self.groups@, *dep) {
                Some(i) => r == Some(i as usize),
                None => r is None,
            },
    {
        match dep {
            GroupRef::ById(id) => {
                if (*id as usize) < self.groups.len() {
                    Some(*id as usize)
                } else {
                    None
                }
            },
            GroupRef::ByName(name) => self.find_by_name(name),
        }
    }

    /// Index of the first group named `name`.
    fn find_by_name(&self, name: &String) -> (r: Option<usize>)
        ensures
            match first_with_name(self.groups@, name@) {
                Some(i) => r == Some(i as usize),
                None => r is None,
            },
    {
        let mut i: usize = 0;
        let n = self.groups.len();
        while i < n
            invariant
                n == self.groups@.len(),
                0 <= i <= n,
                first_with_name(self.groups@.take(i as int), name@) is None,
            decreases n - i,
        {
            proof {
                assert(self.groups@.take(i + 1).drop_last() =~= self.groups@.take(i as int));
            }
            if self.groups[i].name == *name {
                proof {
                    lemma_first_with_name_prefix(self.groups@, name@, i as int);
                }
                return Some(i);
            }
            i = i + 1;
        }
        proof {
            assert(self.groups@.take(n as int) =~= self.groups@);
        }
        None
    }

    /// Checks the dependencies of the groups. Appends one
    /// [`MSG_INVALID_GROUP_REF`] for each reference to a nonexistent group, in
    /// order, then [`MSG_CIRCULAR_REF`] if a cycle of dependencies is
    /// reachable from the first group.
    pub fn validate(&self, error_sink: &mut Vec<String>)
        ensures
            final(error_sink)@.len() == old(error_sink)@.len() + total_invalid(
                self.groups@,
                self.groups@.len() as int,
            ) + (if config_has_cycle(self.groups@) {
                1int
            } else {
                0int
            }),
            forall|k: int| 0 <= k < old(error_sink)@.len() ==> final(error_sink)@[k] == old(error_sink)@[k],
            forall|k: int|
                old(error_sink)@.len() <= k < old(error_sink)@.len() + total_invalid(
                    self.groups@,
                    self.groups@.len() as int,
                ) ==> final(error_sink)@[k]@ == MSG_INVALID_GROUP_REF@,
            config_has_cycle(self.groups@) ==> final(error_sink)@.last()@ == MSG_CIRCULAR_REF@,
    {
        let ghost groups = self.groups@;
        let ghost sink0 = error_sink@;
        let n = self.groups.len();
        let mut group_dep_graph: Vec<Vec<usize>> = Vec::new();
        let mut i: usize = 0;
        while i < n
            invariant
                n == groups.len(),
                groups == self.groups@,
                0 <= i <= n,
                group_dep_graph@.len() == i,
                forall|t: int| 0 <= t < i ==> #[trigger] group_dep_graph@[t]@ == resolved_deps(groups, groups[t].deps@),
                error_sink@.len() == sink0.len() + total_invalid(groups, i as int),
                forall|k: int| 0 <= k < sink0.len() ==> error_sink@[k] == sink0[k],
                forall|k: int|
                    sink0.len() <= k < error_sink@.len() ==> error_sink@[k]@ == MSG_INVALID_GROUP_REF@,
            decreases n - i,
        {
            let g = &self.groups[i];
            let ghost deps = g.deps@;
            let mut row: Vec<usize> = Vec::new();
            let m = g.deps.len();
            let mut k: usize = 0;
            while k < m
                invariant
                    n == groups.len(),
                    groups == self.groups@,
                    0 <= i < n,
                    *g == groups[i as int],
                    deps == groups[i as int].deps@,
                    m == deps.len(),
                    0 <= k <= m,
                    row@ == resolved_deps(groups, deps.take(k as int)),
                    error_sink@.len() == sink0.len() + total_invalid(groups, i as int) + invalid_count(
                        groups,
                        deps.take(k as int),
                    ),
                    forall|t: int| 0 <= t < sink0.len() ==> error_sink@[t] == sink0[t],
                    forall|t: int|
                        sink0.len() <= t < error_sink@.len() ==> error_sink@[t]@
                            == MSG_INVALID_GROUP_REF@,
                decreases m - k,
            {
                proof {
                    assert(deps.take(k + 1).drop_last() =~= deps.take(k as int));
                    assert(deps.take(k + 1).last() == deps[k as int]);
                }
                match self.get_group(&g.deps[k]) {
                    Some(j) => {
                        row.push(j);
                    },
                    None => {
                        error_sink.push(MSG_INVALID_GROUP_REF.to_owned());
                    },
                }
                k = k + 1;
            }
            proof {
                assert(deps.take(m as int) =~= deps);
            }
            group_dep_graph.push(row);
            i = i + 1;
        }
        let ghost g = group_dep_graph@.map_values(|e: Vec<usize>| e@);
        proof {
            assert(g =~= dep_graph(groups));
            lemma_dep_graph_wf(groups);
        }
        let mut has_cycle = false;
        let mut used: Vec<u8> = vec![0; n];
        let mut i: usize = 0;
        while i < n
            invariant
                n == groups.len(),
                groups == self.groups@,
                g == group_dep_graph@.map_values(|e: Vec<usize>| e@),
                g == dep_graph(groups),
                graph_wf(g),
                g.len() == n,
                0 <= i <= n,
                used@.len() == n,
                colors_ok(used@),
                i == 0 ==> forall|k: int| 0 <= k < n ==> used@[k] == 0,
                i == 0 ==> !has_cycle,
                i > 0 ==> used@[0] == 2,
                forall|u: int| 0 <= u < n ==> used@[u] != 1,
                !has_cycle ==> black_closed(g, used@) && black_acyclic(g, used@),
                has_cycle ==> has_reachable_cycle(g, 0),
                i > 0 ==> (has_cycle <==> has_reachable_cycle(g, 0)),
            decreases n - i,
        {
            if used[i] == 0 {
                proof {
                    assert(stack_ok(g, used@, Seq::empty(), 0, 0));
                    if i == 0 {
                        assert forall|p: Seq<usize>, a: int, b: int|
                            #![trigger is_path(g, p), p[a], p[b]]
                            is_path(g, p) && all_black(used@, p) && 0 <= a < b < p.len() implies p[a]
                            != p[b] by {
                            assert(used@[p[0] as int] == 2);
                        }
                    }
                }
                let ghost m0 = 2 * count_white(used@) as int + (if used@[0] == 0 {
                    0int
                } else {
                    1int
                });
                dfs(
                    &group_dep_graph,
                    &mut used,
                    &mut has_cycle,
                    0,
                    Ghost(Seq::empty()),
                    Ghost(0),
                    Ghost(m0),
                );
                proof {
                    if !has_cycle {
                        lemma_no_cycle(g, used@);
                    }
                }
            }
            i = i + 1;
        }
        if has_cycle {
            error_sink.push(MSG_CIRCULAR_REF.to_owned());
        }
    }
}

/// With the root finished, finished vertices closed and acyclic, no cycle is reachable.
proof fn lemma_no_cycle(g: Seq<Seq<usize>>, used: Seq<u8>)
    requires
        g.len() > 0,
        used.len() == g.len(),
        used[0] == 2,
        black_closed(g, used),
        black_acyclic(g, used),
    ensures
        !has_reachable_cycle(g, 0),
{
    if has_reachable_cycle(g, 0) {
        let (p, i, j) = choose|p: Seq<usize>, i: int, j: int|
            #![trigger is_path(g, p), p[i], p[j]]
            is_path(g, p) && p[0] == 0 && 0 <= i < j < p.len() && p[i] == p[j];
        lemma_closed_path_black(g, used, p);
        assert(p[i] != p[j]);
    }
}

proof fn lemma_resolved_in_range(groups: Seq<Group>, deps: Seq<GroupRef>)
    ensures
        forall|k: int|
            0 <= k < resolved_deps(groups, deps).len() ==> (#[trigger] resolved_deps(groups, deps)[k]
                as int) < groups.len(),
    decreases deps.len(),
{
    if deps.len() > 0 {
        let prev = resolved_deps(groups, deps.drop_last());
        lemma_resolved_in_range(groups, deps.drop_last());
        match deps.last() {
            GroupRef::ByName(nm) => {
                lemma_first_with_name_range(groups, nm@);
            },
            GroupRef::ById(_) => {},
        }
        let r = resolved_deps(groups, deps);
        assert forall|k: int| 0 <= k < r.len() implies (#[trigger] r[k] as int) < groups.len() by {
            if k < prev.len() {
                assert(r[k] == prev[k]);
            }
        }
    }
}

/// A resolved reference names an existing group.
pub proof fn lemma_get_group_range(groups: Seq<Group>, dep: GroupRef)
    ensures
        match spec_get_group(groups, dep) {
            Some(i) => 0 <= i < groups.len(),
            None => true,
        },
{
    match dep {
        GroupRef::ByName(nm) => {
            lemma_first_with_name_range(groups, nm@);
        },
        GroupRef::ById(_) => {},
    }
}

proof fn lemma_first_with_name_range(groups: Seq<Group>, name: Seq<char>)
    ensures
        match first_with_name(groups, name) {
            Some(i) => 0 <= i < groups.len() && groups[i].name@ == name,
            None => true,
        },
    decreases groups.len(),
{
    if groups.len() > 0 {
        lemma_first_with_name_range(groups.drop_last(), name);
    }
}

proof fn lemma_first_with_name_prefix(groups: Seq<Group>, name: Seq<char>, i: int)
    requires
        0 <= i < groups.len(),
        first_with_name(groups.take(i), name) is None,
        groups[i].name@ == name,
    ensures
        first_with_name(groups, name) == Some(i),
    decreases groups.len(),
{
    if i == groups.len() - 1 {
        assert(groups.drop_last() =~= groups.take(i));
    } else {
        assert(groups.drop_last().take(i) =~= groups.take(i));
        lemma_first_with_name_prefix(groups.drop_last(), name, i);
    }
}

proof fn lemma_dep_graph_wf(groups: Seq<Group>)
    ensures
        graph_wf(dep_graph(groups)),
{
    assert forall|u: int, k: int|
        0 <= u < dep_graph(groups).len() && 0 <= k < dep_graph(groups)[u].len() implies (
        #[trigger] dep_graph(groups)[u][k] as int) < dep_graph(groups).len() by {
        lemma_resolved_in_range(groups, groups[u].deps@);
    }
}

} // verus!
