//! Ordered sets of test ids, and of test results keyed by test id, kept as
//! vectors sorted by id: the order in which such sets are walked.
use vstd::prelude::*;
use crate::pom::TestId;
use crate::valuer_proto::Status;

verus! {

/// Test ids strictly increase along `s` (so none repeats).
pub open spec fn ids_sorted(s: Seq<TestId>) -> bool {
    forall|i: int, j: int| 0 <= i < j < s.len() ==> (#[trigger] s[i]).value() < (#[trigger] s[j]).value()
}

/// The test ids of a sequence of results.
pub open spec fn keys(s: Seq<(TestId, Status)>) -> Seq<TestId> {
    s.map_values(|e: (TestId, Status)| e.0)
}

/// Number of leading ids of `s` below `v`: where `v` belongs in sorted `s`.
pub open spec fn lower_bound(s: Seq<TestId>, v: u32) -> int
    decreases s.len(),
{
    if s.len() == 0 {
        0
    } else if s.last().value() < v {
        s.len() as int
    } else {
        lower_bound(s.drop_last(), v)
    }
}

/// Ids in sorted `s` below `v` come before `lower_bound`, the others after.
pub proof fn lemma_lower_bound(s: Seq<TestId>, v: u32)
    requires
        ids_sorted(s),
    ensures
        0 <= lower_bound(s, v) <= s.len(),
        forall|k: int| 0 <= k < lower_bound(s, v) ==> (#[trigger] s[k]).value() < v,
        forall|k: int| lower_bound(s, v) <= k < s.len() ==> (#[trigger] s[k]).value() >= v,
    decreases s.len(),
{
    if s.len() > 0 {
        if s.last().value() < v {
            assert forall|k: int| 0 <= k < s.len() implies (#[trigger] s[k]).value() < v by {
                if k < s.len() - 1 {
                    assert(s[k].value() < s[s.len() - 1].value());
                }
            }
        } else {
            let t = s.drop_last();
            assert(ids_sorted(t)) by {
                assert forall|i: int, j: int| 0 <= i < j < t.len() implies (#[trigger] t[i]).value() < (
                #[trigger] t[j]).value() by {
                    assert(t[i] == s[i] && t[j] == s[j]);
                }
            }
            lemma_lower_bound(t, v);
            assert forall|k: int| 0 <= k < lower_bound(s, v) implies (#[trigger] s[k]).value() < v by {
                assert(s[k] == t[k]);
            }
            assert forall|k: int| lower_bound(s, v) <= k < s.len() implies (#[trigger] s[k]).value()
                >= v by {
                if k < s.len() - 1 {
                    assert(s[k] == t[k]);
                }
            }
        }
    }
}

/// A split point of sorted `s` around `v` is `lower_bound(s, v)`.
pub proof fn lemma_lower_bound_unique(s: Seq<TestId>, v: u32, i: int)
    requires
        ids_sorted(s),
        0 <= i <= s.len(),
        forall|k: int| 0 <= k < i ==> (#[trigger] s[k]).value() < v,
        i < s.len() ==> s[i].value() >= v,
    ensures
        lower_bound(s, v) == i,
{
    lemma_lower_bound(s, v);
    let lb = lower_bound(s, v);
    if lb < i {
        assert(s[lb].value() < v);
    } else if lb > i {
        assert(s[i].value() < v);
    }
}

/// Inserting an absent id at its place keeps the sequence sorted.
pub proof fn lemma_insert_sorted(s: Seq<TestId>, t: TestId)
    requires
        ids_sorted(s),
        !s.contains(t),
    ensures
        0 <= lower_bound(s, t.value()) <= s.len(),
        ids_sorted(s.insert(lower_bound(s, t.value()), t)),
        s.insert(lower_bound(s, t.value()), t).to_set() == s.to_set().insert(t),
{
    lemma_lower_bound(s, t.value());
    let p = lower_bound(s, t.value());
    let r = s.insert(p, t);
    assert forall|k: int| p <= k < s.len() implies (#[trigger] s[k]).value() > t.value() by {
        if s[k].value() == t.value() {
            crate::pom::lemma_test_id_eq(s[k], t);
            assert(s.contains(t));
        }
    }
    assert forall|i: int, j: int| 0 <= i < j < r.len() implies (#[trigger] r[i]).value() < (
    #[trigger] r[j]).value() by {
        if j < p {
            assert(r[i] == s[i] && r[j] == s[j]);
        } else if j == p {
            assert(r[i] == s[i]);
        } else if i < p {
            assert(r[i] == s[i] && r[j] == s[j - 1]);
        } else if i == p {
            assert(r[j] == s[j - 1]);
        } else {
            assert(r[i] == s[i - 1] && r[j] == s[j - 1]);
        }
    }
    assert forall|x: TestId| r.to_set().contains(x) <==> s.to_set().insert(t).contains(x) by {
        if r.contains(x) {
            let k = choose|k: int| 0 <= k < r.len() && r[k] == x;
            if k < p {
                assert(s[k] == x);
            } else if k > p {
                assert(s[k - 1] == x);
            }
        }
        if s.contains(x) {
            let k = choose|k: int| 0 <= k < s.len() && s[k] == x;
            if k < p {
                assert(r[k] == x);
            } else {
                assert(r[k + 1] == x);
            }
        }
        if x == t {
            assert(r[p] == t);
        }
    }
    assert(r.to_set() =~= s.to_set().insert(t));
}

/// Removing the id at its place keeps the sequence sorted.
pub proof fn lemma_remove_sorted(s: Seq<TestId>, t: TestId)
    requires
        ids_sorted(s),
        s.contains(t),
    ensures
        0 <= lower_bound(s, t.value()) < s.len(),
        s[lower_bound(s, t.value())] == t,
        ids_sorted(s.remove(lower_bound(s, t.value()))),
        s.remove(lower_bound(s, t.value())).to_set() == s.to_set().remove(t),
{
    lemma_lower_bound(s, t.value());
    let p = lower_bound(s, t.value());
    let k0 = choose|k: int| 0 <= k < s.len() && s[k] == t;
    assert(k0 >= p);
    if k0 > p {
        assert(s[p].value() < s[k0].value());
    }
    let r = s.remove(p);
    assert forall|i: int, j: int| 0 <= i < j < r.len() implies (#[trigger] r[i]).value() < (
    #[trigger] r[j]).value() by {
        if j < p {
            assert(r[i] == s[i] && r[j] == s[j]);
        } else if i < p {
            assert(r[i] == s[i] && r[j] == s[j + 1]);
        } else {
            assert(r[i] == s[i + 1] && r[j] == s[j + 1]);
        }
    }
    assert forall|x: TestId| r.to_set().contains(x) <==> s.to_set().remove(t).contains(x) by {
        if r.contains(x) {
            let k = choose|k: int| 0 <= k < r.len() && r[k] == x;
            if k < p {
                assert(s[k] == x);
                assert(s[k].value() < s[p].value());
            } else {
                assert(s[k + 1] == x);
                assert(s[p].value() < s[k + 1].value());
            }
        }
        if s.contains(x) && x != t {
            let k = choose|k: int| 0 <= k < s.len() && s[k] == x;
            if k < p {
                assert(r[k] == x);
            } else {
                assert(k != p);
                assert(r[k - 1] == x);
            }
        }
    }
    assert(r.to_set() =~= s.to_set().remove(t));
}

/// Position at which `v` belongs in sorted `s`.
pub fn find_pos(s: &Vec<TestId>, v: u32) -> (r: usize)
    requires
        ids_sorted(s@),
    ensures
        r == lower_bound(s@, v),
{
    let n = s.len();
    let mut i: usize = 0;
    while i < n && s[i].get() < v
        invariant
            n == s@.len(),
            0 <= i <= n,
            forall|k: int| 0 <= k < i ==> (#[trigger] s@[k]).value() < v,
        decreases n - i,
    {
        i = i + 1;
    }
    proof {
        lemma_lower_bound_unique(s@, v, i as int);
    }
    i
}

/// Position at which a result for test `v` belongs in `s`, sorted by test id.
pub fn find_result_pos(s: &Vec<(TestId, Status)>, v: u32) -> (r: usize)
    requires
        ids_sorted(keys(s@)),
    ensures
        r == lower_bound(keys(s@), v),
{
    let n = s.len();
    let mut i: usize = 0;
    while i < n && s[i].0.get() < v
        invariant
            n == s@.len(),
            0 <= i <= n,
            forall|k: int| 0 <= k < i ==> (#[trigger] keys(s@)[k]).value() < v,
        decreases n - i,
    {
        proof {
            assert(keys(s@)[i as int] == s@[i as int].0);
        }
        i = i + 1;
    }
    proof {
        if i < n {
            assert(keys(s@)[i as int] == s@[i as int].0);
        }
        lemma_lower_bound_unique(keys(s@), v, i as int);
    }
    i
}

/// Whether sorted `s` holds `t`.
pub fn contains_id(s: &Vec<TestId>, t: TestId) -> (r: bool)
    requires
        ids_sorted(s@),
    ensures
        r == s@.contains(t),
{
    let p = find_pos(s, t.get());
    proof {
        lemma_lower_bound(s@, t.value());
    }
    if p < s.len() && s[p].get() == t.get() {
        proof {
            crate::pom::lemma_test_id_eq(s@[p as int], t);
        }
        true
    } else {
        proof {
            if s@.contains(t) {
                let k = choose|k: int| 0 <= k < s@.len() && s@[k] == t;
                if k > p {
                    assert(s@[p as int].value() < s@[k].value());
                }
            }
        }
        false
    }
}

/// Inserts absent `t` into sorted `s`, keeping it sorted.
pub fn insert_id(s: &mut Vec<TestId>, t: TestId)
    requires
        ids_sorted(old(s)@),
        !old(s)@.contains(t),
    ensures
        final(s)@ == old(s)@.insert(lower_bound(old(s)@, t.value()), t),
        ids_sorted(final(s)@),
        final(s)@.to_set() == old(s)@.to_set().insert(t),
{
    let p = find_pos(s, t.get());
    proof {
        lemma_insert_sorted(s@, t);
    }
    s.insert(p, t);
}

/// Removes `t` from sorted `s` if present; returns whether it was.
pub fn remove_id(s: &mut Vec<TestId>, t: TestId) -> (r: bool)
    requires
        ids_sorted(old(s)@),
    ensures
        r == old(s)@.contains(t),
        r ==> final(s)@ == old(s)@.remove(lower_bound(old(s)@, t.value())),
        r ==> final(s)@.len() == old(s)@.len() - 1,
        !r ==> final(s)@ == old(s)@,
        ids_sorted(final(s)@),
        final(s)@.to_set() == old(s)@.to_set().remove(t),
{
    if contains_id(s, t) {
        let p = find_pos(s, t.get());
        proof {
            lemma_remove_sorted(s@, t);
        }
        s.remove(p);
        true
    } else {
        proof {
            assert(s@.to_set() =~= s@.to_set().remove(t));
        }
        false
    }
}

/// Inserts a result for a test with no result yet into `s`, sorted by test id.
pub fn insert_result(s: &mut Vec<(TestId, Status)>, e: (TestId, Status))
    requires
        ids_sorted(keys(old(s)@)),
        !keys(old(s)@).contains(e.0),
    ensures
        final(s)@ == old(s)@.insert(lower_bound(keys(old(s)@), e.0.value()), e),
        ids_sorted(keys(final(s)@)),
        keys(final(s)@).to_set() == keys(old(s)@).to_set().insert(e.0),
{
    let p = find_result_pos(s, e.0.get());
    proof {
        lemma_insert_sorted(keys(s@), e.0);
        assert(keys(s@).len() == s@.len());
        let a = keys(s@.insert(p as int, e));
        let b = keys(s@).insert(p as int, e.0);
        assert forall|k: int| 0 <= k < a.len() implies a[k] == b[k] by {
            if k < p {
                assert(a[k] == s@[k].0);
            } else if k > p {
                assert(a[k] == s@[k - 1].0);
            }
        }
        assert(a =~= b);
    }
    s.insert(p, e);
}

/// The distinct ids of `tests`, sorted.
pub fn sorted_set_of(tests: &Vec<TestId>) -> (r: Vec<TestId>)
    ensures
        ids_sorted(r@),
        r@.to_set() == tests@.to_set(),
{
    let mut r: Vec<TestId> = Vec::new();
    let n = tests.len();
    let mut i: usize = 0;
    while i < n
        invariant
            n == tests@.len(),
            0 <= i <= n,
            ids_sorted(r@),
            forall|x: TestId| r@.contains(x) <==> tests@.take(i as int).contains(x),
        decreases n - i,
    {
        let t = tests[i];
        proof {
            assert(tests@.take(i + 1) =~= tests@.take(i as int).push(t));
        }
        let ghost r0 = r@;
        if !contains_id(&r, t) {
            insert_id(&mut r, t);
        }
        proof {
            let q = tests@.take(i as int);
            assert forall|x: TestId| r@.contains(x) <==> q.push(t).contains(x) by {
                if q.push(t).contains(x) {
                    let k = choose|k: int| 0 <= k < q.push(t).len() && q.push(t)[k] == x;
                    if k < q.len() {
                        assert(q[k] == x);
                        assert(r0.contains(x));
                        assert(r@.to_set().contains(x));
                    } else {
                        assert(x == t);
                        assert(r@.to_set().contains(x));
                    }
                }
                if r@.contains(x) {
                    assert(r@.to_set().contains(x));
                    if x != t {
                        assert(r0.to_set().contains(x));
                        let k = choose|k: int| 0 <= k < q.len() && q[k] == x;
                        assert(q.push(t)[k] == x);
                    } else {
                        assert(q.push(t)[q.len() as int] == x);
                    }
                }
            }
        }
        i = i + 1;
    }
    proof {
        assert(tests@.take(n as int) =~= tests@);
        assert(r@.to_set() =~= tests@.to_set());
    }
    r
}

} // verus!
