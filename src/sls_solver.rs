//! One local-search attempt: an assignment together with a cache of clause
//! values, the count of holding clauses, and the cost of flipping each
//! variable, all kept coherent under single-variable flips.
use vstd::prelude::*;

use crate::cnf::{
    abs, cache_coherent, calculate_variable_cost, clause_holds, clause_value, clauses_wf,
    count_true, evaluate_clause_with_flipped, flip, formula_wf, has_literal,
    lemma_count_true_all, lemma_count_true_bound, lemma_count_true_update, lemma_num_literals_padded, lit_holds, lit_var,
    ref_delta, refers, satisfies, signed_ref, var_cost,
};
use crate::index::occurrence_index;
use crate::random::{random_bool, random_index};

verus! {

/// The state of one search attempt over a padded clause list.
pub struct Solver {
    /// One more than the number of variables: the length of every
    /// per-variable table, whose entry 0 is unused.
    pub num_vars: usize,
    /// The clauses, with the empty padding clause at index 0.
    pub clauses: Vec<Vec<i32>>,
    /// For each variable, the signed references to the clauses that hold it:
    /// `i` where it occurs positively in clause `i`, `-i` where negatively.
    pub clauses_containing_variable: Vec<Vec<i32>>,
    /// The value of each variable.
    pub assignment: Vec<bool>,
    /// What each clause evaluates to under the current assignment.
    pub current_clause_assignment: Vec<bool>,
    /// How many clauses hold, the padding clause included.
    pub num_fulfilled_clauses: usize,
    /// For each variable, the cost of flipping it now.
    pub cost: Vec<i32>,
}

/// A clause that holds a variable with both polarities holds under every
/// assignment.
proof fn lemma_both_polarities(cs: Seq<Vec<i32>>, i: int, v: int, a: Seq<bool>)
    requires
        1 <= v < a.len(),
        has_literal(cs, i, v, true),
        has_literal(cs, i, v, false),
    ensures
        clause_holds(cs[i]@, a),
{
    let jp = choose|j: int| 0 <= j < cs[i]@.len() && #[trigger] cs[i]@[j] as int == v;
    let jn = choose|j: int| 0 <= j < cs[i]@.len() && #[trigger] cs[i]@[j] as int == -v;
    if a[v] {
        assert(lit_holds(cs[i]@[jp], a));
    } else {
        assert(lit_holds(cs[i]@[jn], a));
    }
}

/// A clause that holds `v` holds before or after `v` is flipped.
proof fn lemma_holds_before_or_after(cs: Seq<Vec<i32>>, r: i32, v: int, a: Seq<bool>)
    requires
        1 <= v < a.len(),
        refers(cs, r, v),
    ensures
        clause_value(cs, a, lit_var(r)) || clause_value(cs, flip(a, v), lit_var(r)),
{
    let i = lit_var(r);
    let j = choose|j: int|
        0 <= j < cs[i]@.len() && #[trigger] cs[i]@[j] as int == (if r > 0 {
            v
        } else {
            -v
        });
    assert(lit_holds(cs[i]@[j], a) || lit_holds(cs[i]@[j], flip(a, v)));
}

/// A clause that does not mention `v` keeps its value when `v` changes.
proof fn lemma_clause_frame(cs: Seq<Vec<i32>>, a: Seq<bool>, i: int, v: int, x: bool)
    requires
        clauses_wf(cs, a.len() as int),
        0 <= i < cs.len(),
        0 <= v < a.len(),
        forall|j: int| 0 <= j < cs[i]@.len() ==> lit_var(#[trigger] cs[i]@[j]) != v,
    ensures
        clause_value(cs, a, i) == clause_value(cs, a.update(v, x), i),
{
    let b = a.update(v, x);
    assert forall|j: int| 0 <= j < cs[i]@.len() implies lit_holds(#[trigger] cs[i]@[j], a)
        == lit_holds(cs[i]@[j], b) by {
        assert(1 <= lit_var(cs[i]@[j]) < a.len());
    }
    if clause_holds(cs[i]@, a) {
        let j = choose|j: int| 0 <= j < cs[i]@.len() && lit_holds(#[trigger] cs[i]@[j], a);
        assert(lit_holds(cs[i]@[j], b));
    }
    if clause_holds(cs[i]@, b) {
        let j = choose|j: int| 0 <= j < cs[i]@.len() && lit_holds(#[trigger] cs[i]@[j], b);
        assert(lit_holds(cs[i]@[j], a));
    }
}

/// The cost of `w` over clauses that do not mention `v` is the same before
/// and after `v` is flipped.
proof fn lemma_cost_frame(cs: Seq<Vec<i32>>, a: Seq<bool>, refs: Seq<i32>, w: int, v: int)
    requires
        clauses_wf(cs, a.len() as int),
        1 <= w < a.len(),
        1 <= v < a.len(),
        w != v,
        forall|k: int| 0 <= k < refs.len() ==> 0 <= lit_var(#[trigger] refs[k]) < cs.len(),
        forall|k: int, j: int|
            0 <= k < refs.len() && 0 <= j < cs[lit_var(refs[k])]@.len() ==> lit_var(
                #[trigger] cs[lit_var(#[trigger] refs[k])]@[j],
            ) != v,
    ensures
        var_cost(cs, a, refs, w) == var_cost(cs, flip(a, v), refs, w),
    decreases refs.len(),
{
    if refs.len() > 0 {
        let rest = refs.drop_last();
        assert forall|k: int, j: int|
            0 <= k < rest.len() && 0 <= j < cs[lit_var(rest[k])]@.len() implies lit_var(
            #[trigger] cs[lit_var(#[trigger] rest[k])]@[j],
        ) != v by {
            assert(rest[k] == refs[k]);
        }
        lemma_cost_frame(cs, a, rest, w, v);
        let i = lit_var(refs.last());
        assert(refs.last() == refs[refs.len() - 1]);
        assert forall|j: int| 0 <= j < cs[i]@.len() implies lit_var(#[trigger] cs[i]@[j]) != v by {
            assert(lit_var(cs[lit_var(refs[refs.len() - 1])]@[j]) != v);
        }
        let fa = flip(a, v);
        lemma_clause_frame(cs, a, i, v, !a[v]);
        lemma_clause_frame(cs, flip(a, w), i, v, !a[v]);
        assert(flip(fa, w) =~= flip(a, w).update(v, !a[v]));
    }
}


/// Clause `i` is named by one of the first `k` references.
pub open spec fn touched(refs: Seq<i32>, k: int, i: int) -> bool {
    exists|k2: int| 0 <= k2 < k && lit_var(#[trigger] refs[k2]) == i
}

/// The clause cache while a flip of `v` is under way: the clauses named by
/// the first `k` references hold their value after the flip, the others
/// their value before it.
pub open spec fn cache_in_flip(
    cs: Seq<Vec<i32>>,
    a: Seq<bool>,
    v: int,
    refs: Seq<i32>,
    k: int,
    old_cache: Seq<bool>,
    cache: Seq<bool>,
) -> bool {
    &&& cache.len() == cs.len()
    &&& forall|i: int|
        0 <= i < cs.len() ==> #[trigger] cache[i] == if touched(refs, k, i) {
            clause_value(cs, flip(a, v), i)
        } else {
            old_cache[i]
        }
}

/// One step of the clause update of a flip: setting the clause named by
/// reference `k` changes the holding count by minus that reference's share
/// of the cost, and extends the updated part of the cache by one reference.
proof fn lemma_flip_step(
    cs: Seq<Vec<i32>>,
    a: Seq<bool>,
    v: int,
    refs: Seq<i32>,
    k: int,
    old_cache: Seq<bool>,
    cache: Seq<bool>,
)
    requires
        clauses_wf(cs, a.len() as int),
        1 <= v < a.len(),
        0 <= k < refs.len(),
        refs.no_duplicates(),
        forall|k2: int| 0 <= k2 < refs.len() ==> refers(cs, #[trigger] refs[k2], v),
        cache_coherent(cs, a, old_cache),
        cache_in_flip(cs, a, v, refs, k, old_cache, cache),
    ensures
        ({
            let i = lit_var(refs[k]);
            let e = clause_value(cs, flip(a, v), i);
            &&& count_true(cache.update(i, e)) == count_true(cache) - ref_delta(cs, a, refs[k], v)
            &&& count_true(cache.update(i, e)) <= cache.len()
            &&& var_cost(cs, a, refs.take(k + 1), v) == var_cost(cs, a, refs.take(k), v)
                + ref_delta(cs, a, refs[k], v)
            &&& cache_in_flip(cs, a, v, refs, k + 1, old_cache, cache.update(i, e))
        }),
{
    let r = refs[k];
    let i = lit_var(r);
    let fa = flip(a, v);
    let e = clause_value(cs, fa, i);
    assert(refers(cs, r, v));
    lemma_holds_before_or_after(cs, r, v, a);
    if touched(refs, k, i) {
        let k2 = choose|k2: int| 0 <= k2 < k && lit_var(#[trigger] refs[k2]) == i;
        assert(refs[k2] != r);
        assert(refers(cs, refs[k2], v));
        lemma_both_polarities(cs, i, v, a);
        lemma_both_polarities(cs, i, v, fa);
    }
    assert(refs.take(k + 1).drop_last() =~= refs.take(k));
    assert(refs.take(k + 1).last() == refs[k]);
    lemma_count_true_update(cache, i, e);
    lemma_count_true_bound(cache.update(i, e));
    let c2 = cache.update(i, e);
    assert forall|i2: int| 0 <= i2 < cs.len() implies #[trigger] c2[i2] == if touched(
        refs,
        k + 1,
        i2,
    ) {
        clause_value(cs, fa, i2)
    } else {
        old_cache[i2]
    } by {
        if i2 == i {
            assert(lit_var(refs[k]) == i2);
        } else if touched(refs, k + 1, i2) {
            let k2 = choose|k2: int| 0 <= k2 < k + 1 && lit_var(#[trigger] refs[k2]) == i2;
            assert(k2 < k);
        } else {
            assert(!touched(refs, k, i2));
        }
    }
}

/// A clause that holds `v` is named by one of `v`'s references, and so is
/// touched once all of them are processed.
proof fn lemma_mentions_touched(s: &Solver, v: int, i: int, j: int)
    requires
        s.index_wf(),
        1 <= v < s.num_vars,
        0 <= i < s.clauses@.len(),
        0 <= j < s.clauses@[i]@.len(),
        lit_var(s.clauses@[i]@[j]) == v,
    ensures
        touched(
            s.clauses_containing_variable@[v]@,
            s.clauses_containing_variable@[v]@.len() as int,
            i,
        ),
{
    let refs = s.clauses_containing_variable@[v]@;
    let l = s.clauses@[i]@[j];
    assert(refs.contains(signed_ref(i, l)));
    let k2 = choose|k2: int| 0 <= k2 < refs.len() && refs[k2] == signed_ref(i, l);
    assert(lit_var(refs[k2]) == i);
}

/// Appends to `neighbours` the variable of every literal of `clause` that
/// `seen`, the set of its entries, does not hold yet.
fn push_clause_vars(
    clause: &Vec<i32>,
    neighbours: &mut Vec<usize>,
    seen: &mut std::collections::HashSet<usize>,
    Ghost(n): Ghost<int>,
)
    requires
        n <= i32::MAX,
        forall|j: int| 0 <= j < clause@.len() ==> 1 <= lit_var(#[trigger] clause@[j]) < n,
        forall|x: usize| old(seen)@.contains(x) <==> old(neighbours)@.contains(x),
    ensures
        final(neighbours)@.len() >= old(neighbours)@.len(),
        final(neighbours)@.subrange(0, old(neighbours)@.len() as int) == old(neighbours)@,
        forall|x: int|
            old(neighbours)@.len() <= x < final(neighbours)@.len()
                ==> 1 <= #[trigger] final(neighbours)@[x] < n,
        forall|j: int|
            0 <= j < clause@.len() ==> final(neighbours)@.contains(
                lit_var(#[trigger] clause@[j]) as usize,
            ),
        forall|x: usize| final(seen)@.contains(x) <==> final(neighbours)@.contains(x),
{
    let ghost start = neighbours@;
    let mut j: usize = 0;
    while j < clause.len()
        invariant
            n <= i32::MAX,
            forall|j2: int| 0 <= j2 < clause@.len() ==> 1 <= lit_var(#[trigger] clause@[j2]) < n,
            0 <= j <= clause@.len(),
            neighbours@.len() >= start.len(),
            neighbours@.subrange(0, start.len() as int) == start,
            forall|x: int|
                start.len() <= x < neighbours@.len() ==> 1 <= #[trigger] neighbours@[x] < n,
            forall|j2: int|
                0 <= j2 < j ==> neighbours@.contains(lit_var(#[trigger] clause@[j2]) as usize),
            forall|x: usize| seen@.contains(x) <==> neighbours@.contains(x),
        decreases clause@.len() - j,
    {
        let w = abs(clause[j]);
        let ghost before = neighbours@;
        if seen.insert(w) {
            neighbours.push(w);
            assert(neighbours@[before.len() as int] == w);
            assert(neighbours@.subrange(0, start.len() as int) =~= before.subrange(
                0,
                start.len() as int,
            ));
            assert forall|x: usize| seen@.contains(x) <==> neighbours@.contains(x) by {
                if before.contains(x) {
                    let y = choose|y: int| 0 <= y < before.len() && before[y] == x;
                    assert(neighbours@[y] == x);
                }
                if neighbours@.contains(x) && x != w {
                    let y = choose|y: int| 0 <= y < neighbours@.len() && neighbours@[y] == x;
                    assert(before[y] == x);
                }
            }
            assert forall|j2: int| 0 <= j2 < j implies neighbours@.contains(
                lit_var(#[trigger] clause@[j2]) as usize,
            ) by {
                let v = lit_var(clause@[j2]) as usize;
                let y = choose|y: int| 0 <= y < before.len() && before[y] == v;
                assert(neighbours@[y] == v);
            }
        }
        assert(neighbours@.contains(lit_var(clause@[j as int]) as usize));
        j += 1;
    }
}

/// Every variable of the clauses named by the first `k` references is in
/// `nb`.
#[verifier::opaque]
pub open spec fn covers(cs: Seq<Vec<i32>>, refs: Seq<i32>, k: int, nb: Seq<usize>) -> bool {
    forall|k2: int, j: int|
        0 <= k2 < k && 0 <= j < cs[lit_var(refs[k2])]@.len() ==> nb.contains(
            lit_var(#[trigger] cs[lit_var(#[trigger] refs[k2])]@[j]) as usize,
        )
}

/// Extending `nb` by the variables of the clause named by reference `k`
/// extends the coverage by that reference.
proof fn lemma_covers_step(
    cs: Seq<Vec<i32>>,
    refs: Seq<i32>,
    k: int,
    before: Seq<usize>,
    after: Seq<usize>,
)
    requires
        0 <= k < refs.len(),
        covers(cs, refs, k, before),
        after.len() >= before.len(),
        after.subrange(0, before.len() as int) == before,
        forall|j: int|
            0 <= j < cs[lit_var(refs[k])]@.len() ==> after.contains(
                lit_var(#[trigger] cs[lit_var(refs[k])]@[j]) as usize,
            ),
    ensures
        covers(cs, refs, k + 1, after),
{
    reveal(covers);
    assert forall|k2: int, j: int|
        0 <= k2 < k + 1 && 0 <= j < cs[lit_var(refs[k2])]@.len() implies after.contains(
        lit_var(#[trigger] cs[lit_var(#[trigger] refs[k2])]@[j]) as usize,
    ) by {
        let val = lit_var(cs[lit_var(refs[k2])]@[j]) as usize;
        if k2 < k {
            assert(before.contains(val));
            let x = choose|x: int| 0 <= x < before.len() && before[x] == val;
            assert(after.subrange(0, before.len() as int)[x] == after[x]);
        }
    }
}

/// Pushing onto `nb` keeps everything it held.
proof fn lemma_push_keeps(nb: Seq<usize>, w: usize, val: usize)
    requires
        nb.contains(val),
    ensures
        nb.push(w).contains(val),
{
    let x = choose|x: int| 0 <= x < nb.len() && nb[x] == val;
    assert(nb.push(w)[x] == val);
}

/// `b` is the lowest-indexed variable of most negative cost, and that cost
/// is negative (entry 0 is not a variable).
pub open spec fn is_best(costs: Seq<i32>, b: int) -> bool {
    &&& 1 <= b < costs.len()
    &&& costs[b] < 0
    &&& forall|i: int| 1 <= i < costs.len() ==> costs[b] <= #[trigger] costs[i]
    &&& forall|i: int| 1 <= i < b ==> costs[b] < #[trigger] costs[i]
}

/// Returns the lowest index from 1 on whose entry is the most negative one,
/// or 0 when no entry from index 1 on is negative.
pub fn get_first_negative(vector: &Vec<i32>) -> (r: usize)
    ensures
        r == 0 <==> forall|i: int| 1 <= i < vector@.len() ==> #[trigger] vector@[i] >= 0,
        r != 0 ==> is_best(vector@, r as int),
{
    let mut mindex: usize = 0;
    let mut min: i32 = 0;
    let mut i: usize = 1;
    while i < vector.len()
        invariant
            1 <= i <= vector@.len() || (i == 1 && vector@.len() == 0),
            min <= 0,
            mindex == 0 ==> min == 0,
            mindex != 0 ==> 1 <= mindex < i && min == vector@[mindex as int] && min < 0,
            forall|i2: int| 1 <= i2 < i && i2 < vector@.len() ==> min <= #[trigger] vector@[i2],
            forall|i2: int| 1 <= i2 < mindex ==> min < #[trigger] vector@[i2],
            mindex == 0 ==> forall|i2: int| 1 <= i2 < i && i2 < vector@.len() ==> #[trigger] vector@[i2] >= 0,
        decreases vector@.len() - i,
    {
        if vector[i] < min {
            mindex = i;
            min = vector[i];
        }
        i += 1;
    }
    if mindex != 0 {
        assert(vector@[mindex as int] < 0);
    }
    mindex
}

/// Every clause holds under `a`.
pub open spec fn all_hold(cs: Seq<Vec<i32>>, a: Seq<bool>) -> bool {
    forall|i: int| 0 <= i < cs.len() ==> #[trigger] clause_value(cs, a, i)
}

/// The cost of flipping `v`, from its entry in the occurrence index.
pub open spec fn var_cost_at(cs: Seq<Vec<i32>>, occ: Seq<Vec<i32>>, a: Seq<bool>, v: int) -> int {
    var_cost(cs, a, occ[v]@, v)
}

/// `b` is the lowest variable of most negative cost, and that cost is
/// negative.
pub open spec fn best_var(cs: Seq<Vec<i32>>, occ: Seq<Vec<i32>>, a: Seq<bool>, b: int) -> bool {
    &&& 1 <= b < occ.len()
    &&& var_cost_at(cs, occ, a, b) < 0
    &&& forall|i: int|
        1 <= i < occ.len() ==> var_cost_at(cs, occ, a, b) <= #[trigger] var_cost_at(cs, occ, a, i)
    &&& forall|i: int|
        1 <= i < b ==> var_cost_at(cs, occ, a, b) < #[trigger] var_cost_at(cs, occ, a, i)
}

/// From `a`, at most `k` flips of the best variable reach an assignment
/// under which every clause holds.
pub open spec fn greedy_solves(cs: Seq<Vec<i32>>, occ: Seq<Vec<i32>>, a: Seq<bool>, k: nat) -> bool
    decreases k,
{
    all_hold(cs, a) || (k > 0 && exists|b: int|
        best_var(cs, occ, a, b) && greedy_solves(cs, occ, flip(a, b), (k - 1) as nat))
}

/// The assignment after flipping the variables `picks` in turn.
pub open spec fn apply_flips(a: Seq<bool>, picks: Seq<usize>) -> Seq<bool>
    decreases picks.len(),
{
    if picks.len() == 0 {
        a
    } else {
        flip(apply_flips(a, picks.drop_last()), picks.last() as int)
    }
}

/// At most one variable is the best.
proof fn lemma_best_unique(cs: Seq<Vec<i32>>, occ: Seq<Vec<i32>>, a: Seq<bool>, b1: int, b2: int)
    requires
        best_var(cs, occ, a, b1),
        best_var(cs, occ, a, b2),
    ensures
        b1 == b2,
{
    if b1 < b2 {
        assert(var_cost_at(cs, occ, a, b2) < var_cost_at(cs, occ, a, b1));
    } else if b2 < b1 {
        assert(var_cost_at(cs, occ, a, b1) < var_cost_at(cs, occ, a, b2));
    }
}

/// In a well-formed solver the best entry of the cost table is the best
/// variable.
proof fn lemma_best_is_best(s: Solver, b: int)
    requires
        s.wf(),
    ensures
        is_best(s.cost@, b) <==> best_var(
            s.clauses@,
            s.clauses_containing_variable@,
            s.assignment@,
            b,
        ),
{
    let cs = s.clauses@;
    let occ = s.clauses_containing_variable@;
    let a = s.assignment@;
    assert forall|i: int|
        #![trigger s.cost@[i]]
        #![trigger var_cost_at(cs, occ, a, i)]
        1 <= i < occ.len() implies s.cost@[i] as int == var_cost_at(cs, occ, a, i) by {
        assert(s.cost@[i] == var_cost(cs, a, occ[i]@, i));
    }
}

/// Where every entry is `true`, every entry counts.
proof fn lemma_count_true_full(c: Seq<bool>)
    requires
        forall|i: int| 0 <= i < c.len() ==> #[trigger] c[i],
    ensures
        count_true(c) == c.len(),
    decreases c.len(),
{
    if c.len() > 0 {
        assert forall|i: int| 0 <= i < c.drop_last().len() implies #[trigger] c.drop_last()[i] by {
            assert(c[i]);
        }
        lemma_count_true_full(c.drop_last());
    }
}

/// A well-formed solver is solved exactly when every clause holds.
proof fn lemma_solved_iff(s: Solver)
    requires
        s.wf(),
    ensures
        s.solved() <==> all_hold(s.clauses@, s.assignment@),
{
    let c = s.current_clause_assignment@;
    if s.solved() {
        lemma_count_true_all(c);
        assert forall|i: int| 0 <= i < s.clauses@.len() implies #[trigger] clause_value(
            s.clauses@,
            s.assignment@,
            i,
        ) by {
            assert(c[i]);
        }
    }
    if all_hold(s.clauses@, s.assignment@) {
        assert forall|i: int| 0 <= i < c.len() implies #[trigger] c[i] by {
            assert(clause_value(s.clauses@, s.assignment@, i));
        }
        lemma_count_true_full(c);
    }
}

impl Solver {
    /// The clause list and the occurrence index are well formed: every
    /// reference in the index names a clause that holds the variable with
    /// the reference's polarity, every literal is recorded, and no
    /// reference is recorded twice.
    pub open spec fn index_wf(&self) -> bool {
        let n = self.num_vars as int;
        let cs = self.clauses@;
        let occ = self.clauses_containing_variable@;
        &&& 1 <= n
        &&& clauses_wf(cs, n)
        &&& occ.len() == n
        &&& self.assignment@.len() == n
        &&& self.cost@.len() == n
        &&& forall|v: int, k: int|
            0 <= v < n && 0 <= k < occ[v]@.len() ==> refers(cs, #[trigger] occ[v]@[k], v)
        &&& forall|i: int, j: int|
            0 <= i < cs.len() && 0 <= j < cs[i]@.len() ==> occ[lit_var(
                #[trigger] cs[i]@[j],
            )]@.contains(signed_ref(i, cs[i]@[j]))
        &&& forall|v: int|
            0 <= v < n ==> (#[trigger] occ[v])@.len() <= i32::MAX && occ[v]@.no_duplicates()
    }

    /// The cached values agree with a direct evaluation: the clause cache
    /// with each clause's value, the fulfilled count with the number of
    /// holding clauses, and each variable's cost with its cost recomputed
    /// from the assignment.
    pub open spec fn cache_wf(&self) -> bool {
        let n = self.num_vars as int;
        let cs = self.clauses@;
        let a = self.assignment@;
        &&& cache_coherent(cs, a, self.current_clause_assignment@)
        &&& self.num_fulfilled_clauses == count_true(self.current_clause_assignment@)
        &&& self.cost@[0] == 0
        &&& forall|v: int|
            1 <= v < n ==> #[trigger] self.cost@[v] == var_cost(
                cs,
                a,
                self.clauses_containing_variable@[v]@,
                v,
            )
    }

    pub open spec fn wf(&self) -> bool {
        self.index_wf() && self.cache_wf()
    }

    /// The formula and its index are those of `other`.
    pub open spec fn same_formula(&self, other: &Solver) -> bool {
        &&& self.num_vars == other.num_vars
        &&& self.clauses == other.clauses
        &&& self.clauses_containing_variable == other.clauses_containing_variable
    }

    /// The solver works on `clauses` over `num_vars` variables: its clause
    /// list is theirs with the padding clause in front.
    pub open spec fn over(&self, num_vars: int, clauses: Seq<Vec<i32>>) -> bool {
        &&& self.num_vars == num_vars + 1
        &&& self.clauses@.len() == clauses.len() + 1
        &&& forall|i: int| 0 <= i < clauses.len() ==> (#[trigger] clauses[i])@ == self.clauses@[i + 1]@
    }

    /// Draws a random value for every variable and builds the solver from
    /// that assignment.
    pub fn new(num_vars: usize, clauses: Vec<Vec<i32>>) -> (r: Solver)
        requires
            formula_wf(num_vars as int, clauses@),
        ensures
            r.wf(),
            r.over(num_vars as int, clauses@),
    {
        let mut assignment: Vec<bool> = Vec::new();
        let mut v: usize = 0;
        while v <= num_vars
            invariant
                num_vars < i32::MAX,
                0 <= v <= num_vars + 1,
                assignment@.len() == v,
            decreases num_vars + 1 - v,
        {
            assignment.push(random_bool());
            v += 1;
        }
        Solver::from_assignment(num_vars, clauses, assignment)
    }

    /// Builds the occurrence index and evaluates every clause and every cost
    /// from scratch under `assignment` (entry 0 unused).
    pub fn from_assignment(num_vars: usize, clauses: Vec<Vec<i32>>, assignment: Vec<bool>) -> (r: Solver)
        requires
            formula_wf(num_vars as int, clauses@),
            assignment@.len() == num_vars + 1,
        ensures
            r.wf(),
            r.over(num_vars as int, clauses@),
            r.assignment@ == assignment@,
    {
        let mut clauses = clauses;
        let ghost input = clauses@;
        let num_vars = num_vars + 1;
        let mut new_clauses: Vec<Vec<i32>> = Vec::new();
        new_clauses.push(Vec::new());
        new_clauses.append(&mut clauses);
        let ghost cs = new_clauses@;
        proof {
            lemma_num_literals_padded(cs[0], input);
            assert(cs =~= seq![cs[0]] + input);
            assert forall|i: int| 1 <= i < cs.len() implies (#[trigger] cs[i])@.len() > 0 by {
                assert(cs[i] == input[i - 1]);
            }
            assert forall|i: int, j: int|
                0 <= i < cs.len() && 0 <= j < cs[i]@.len() implies 1 <= lit_var(
                #[trigger] cs[i]@[j],
            ) < num_vars by {
                assert(cs[i] == input[i - 1]);
            }
        }
        let variable_in_clauses = occurrence_index(&new_clauses, num_vars);
        let ghost a = assignment@;
        let mut clause_assignment: Vec<bool> = Vec::new();
        let mut num_fulfilled_clauses: usize = 0;
        let mut i: usize = 0;
        while i < new_clauses.len()
            invariant
                cs == new_clauses@,
                a == assignment@,
                clauses_wf(cs, num_vars as int),
                a.len() == num_vars,
                num_vars >= 1,
                0 <= i <= cs.len(),
                clause_assignment@.len() == i,
                forall|i2: int| 0 <= i2 < i ==> #[trigger] clause_assignment@[i2] == clause_value(cs, a, i2),
                num_fulfilled_clauses == count_true(clause_assignment@),
                num_fulfilled_clauses <= i,
            decreases cs.len() - i,
        {
            let eval = evaluate_clause_with_flipped(&new_clauses, &assignment, i as i32, 0);
            proof {
                assert(clause_assignment@.push(eval).drop_last() =~= clause_assignment@);
            }
            if eval {
                num_fulfilled_clauses += 1;
            }
            clause_assignment.push(eval);
            i += 1;
        }
        let mut cost: Vec<i32> = Vec::new();
        cost.push(0);
        let mut v: usize = 1;
        while v < num_vars
            invariant
                cs == new_clauses@,
                a == assignment@,
                clauses_wf(cs, num_vars as int),
                a.len() == num_vars,
                cache_coherent(cs, a, clause_assignment@),
                variable_in_clauses@.len() == num_vars,
                forall|v2: int, k: int|
                    0 <= v2 < num_vars && 0 <= k < variable_in_clauses@[v2]@.len() ==> refers(
                        cs,
                        #[trigger] variable_in_clauses@[v2]@[k],
                        v2,
                    ),
                forall|v2: int|
                    0 <= v2 < num_vars ==> (#[trigger] variable_in_clauses@[v2])@.len() <= i32::MAX,
                1 <= v <= num_vars,
                cost@.len() == v,
                cost@[0] == 0,
                forall|v2: int| 1 <= v2 < v ==> #[trigger] cost@[v2] == var_cost(
                    cs,
                    a,
                    variable_in_clauses@[v2]@,
                    v2,
                ),
            decreases num_vars - v,
        {
            let c = calculate_variable_cost(
                &new_clauses,
                &assignment,
                &clause_assignment,
                &variable_in_clauses[v],
                v,
            );
            cost.push(c);
            v += 1;
        }
        Solver {
            num_vars,
            clauses: new_clauses,
            clauses_containing_variable: variable_in_clauses,
            assignment,
            current_clause_assignment: clause_assignment,
            num_fulfilled_clauses,
            cost,
        }
    }

    /// Whether every clause holds.
    pub fn is_solved(&self) -> (r: bool)
        ensures
            r == self.solved(),
    {
        self.num_fulfilled_clauses == self.clauses.len()
    }

    /// Flips the lowest-indexed variable of most negative cost, if some cost
    /// is negative; this raises the number of holding clauses. Returns
    /// whether a variable was flipped.
    pub fn flip_a_good_var(&mut self) -> (r: bool)
        requires
            old(self).wf(),
        ensures
            final(self).wf(),
            final(self).same_formula(old(self)),
            r == exists|v: int| 1 <= v < old(self).num_vars && #[trigger] old(self).cost@[v] < 0,
            r ==> exists|b: int|
                is_best(old(self).cost@, b) && final(self).assignment@ == flip(
                    old(self).assignment@,
                    b,
                ),
            r ==> final(self).num_fulfilled_clauses > old(self).num_fulfilled_clauses,
            !r ==> *final(self) == *old(self),
    {
        let min = get_first_negative(&self.cost);
        if min == 0 {
            return false;
        }
        self.flip_var(min);
        true
    }

    /// Flips a variable drawn at random, whatever its cost.
    pub fn flip_random(&mut self)
        requires
            old(self).wf(),
            old(self).num_vars >= 2,
        ensures
            final(self).wf(),
            final(self).same_formula(old(self)),
            exists|v: int|
                1 <= v < old(self).num_vars && final(self).assignment@ == flip(
                    old(self).assignment@,
                    v,
                ),
    {
        let random_index = random_index(1, self.num_vars);
        self.flip_var(random_index);
    }

    /// The stall rule's bound: the number of variables times the number of
    /// clauses, the padding clause included.
    pub open spec fn stall_bound(&self) -> int {
        (self.num_vars - 1) * self.clauses@.len()
    }

    /// Handles the `num_retries`-th stall: flips the variables `picks` in
    /// turn, as many as the count modulo ten, and says whether the attempt
    /// gives up, which it does once the count exceeds the stall bound.
    pub fn stall_round(&mut self, num_retries: u64, picks: &Vec<usize>) -> (give_up: bool)
        requires
            old(self).wf(),
            picks@.len() == num_retries % 10,
            forall|k: int| 0 <= k < picks@.len() ==> 1 <= #[trigger] picks@[k] < old(self).num_vars,
        ensures
            final(self).wf(),
            final(self).same_formula(old(self)),
            final(self).assignment@ == apply_flips(old(self).assignment@, picks@),
            give_up == (num_retries as int > old(self).stall_bound()),
    {
        let mut t: usize = 0;
        while t < picks.len()
            invariant
                self.wf(),
                self.same_formula(old(self)),
                0 <= t <= picks@.len(),
                forall|k: int| 0 <= k < picks@.len() ==> 1 <= #[trigger] picks@[k] < old(self).num_vars,
                self.assignment@ == apply_flips(old(self).assignment@, picks@.take(t as int)),
            decreases picks@.len() - t,
        {
            self.flip_var(picks[t]);
            proof {
                assert(picks@.take(t + 1).drop_last() =~= picks@.take(t as int));
                assert(picks@.take(t + 1).last() == picks@[t as int]);
            }
            t += 1;
        }
        assert(picks@.take(picks@.len() as int) =~= picks@);
        let nv = (self.num_vars - 1) as u64;
        let nc = self.clauses.len() as u64;
        assert(nv * nc <= 0x4000_0000_0000_0000u64) by (nonlinear_arith)
            requires
                nv <= 0x8000_0000u64,
                nc <= 0x8000_0000u64,
        ;
        num_retries > nv * nc
    }

    /// Runs one attempt: flips improving variables while one exists; on a
    /// stall counts it, makes as many random flips as the count modulo ten,
    /// and gives up once the count exceeds the stall bound. Returns whether
    /// all clauses hold; it does wherever improving flips alone reach a
    /// model.
    pub fn solve(&mut self) -> (r: bool)
        requires
            old(self).wf(),
        ensures
            final(self).wf(),
            final(self).same_formula(old(self)),
            r == final(self).solved(),
            old(self).solved() ==> *final(self) == *old(self),
            greedy_solves(
                old(self).clauses@,
                old(self).clauses_containing_variable@,
                old(self).assignment@,
                old(self).clauses@.len() as nat,
            ) ==> r,
    {
        let ghost cs = self.clauses@;
        let ghost occ = self.clauses_containing_variable@;
        let ghost g0 = greedy_solves(cs, occ, self.assignment@, cs.len() as nat);
        let ghost mut steps: int = 0;
        let nv = (self.num_vars - 1) as u64;
        let nc = self.clauses.len() as u64;
        assert(nv * nc <= 0x4000_0000_0000_0000u64) by (nonlinear_arith)
            requires
                nv <= 0x8000_0000u64,
                nc <= 0x8000_0000u64,
        ;
        let bound: u64 = nv * nc;
        let mut num_retries: u64 = 0;
        proof {
            lemma_count_true_bound(self.current_clause_assignment@);
        }
        while !self.is_solved()
            invariant
                self.wf(),
                self.same_formula(old(self)),
                old(self).solved() ==> *self == *old(self),
                cs == self.clauses@,
                occ == self.clauses_containing_variable@,
                occ == old(self).clauses_containing_variable@,
                g0 == greedy_solves(cs, occ, old(self).assignment@, cs.len() as nat),
                num_retries <= bound,
                bound == self.stall_bound(),
                bound <= 0x4000_0000_0000_0000u64,
                self.num_fulfilled_clauses <= cs.len(),
                g0 ==> 0 <= steps <= cs.len() && greedy_solves(
                    cs,
                    occ,
                    self.assignment@,
                    (cs.len() - steps) as nat,
                ),
            decreases bound - num_retries, cs.len() - self.num_fulfilled_clauses,
        {
            let ghost before = *self;
            let flipped_a_good_var = self.flip_a_good_var();
            proof {
                if g0 {
                    let k = (cs.len() - steps) as nat;
                    lemma_solved_iff(before);
                    let b = choose|b: int|
                        best_var(cs, occ, before.assignment@, b) && greedy_solves(
                            cs,
                            occ,
                            flip(before.assignment@, b),
                            (k - 1) as nat,
                        );
                    lemma_best_is_best(before, b);
                    assert(before.cost@[b] < 0);
                    assert(flipped_a_good_var);
                    let b2 = choose|b2: int|
                        is_best(before.cost@, b2) && self.assignment@ == flip(
                            before.assignment@,
                            b2,
                        );
                    lemma_best_is_best(before, b2);
                    lemma_best_unique(cs, occ, before.assignment@, b, b2);
                    steps = steps + 1;
                }
            }
            if !flipped_a_good_var {
                proof {
                    if self.num_vars < 2 {
                        if cs.len() >= 2 {
                            assert(cs[1]@.len() > 0);
                            assert(1 <= lit_var(cs[1]@[0]) < self.num_vars);
                        }
                        let c = self.current_clause_assignment@;
                        assert(c.drop_last() =~= Seq::<bool>::empty());
                        assert(c[0]);
                    }
                }
                num_retries += 1;
                let num_random = num_retries % 10;
                let mut picks: Vec<usize> = Vec::new();
                let mut t: u64 = 0;
                while t < num_random
                    invariant
                        self.num_vars >= 2,
                        t <= num_random,
                        picks@.len() == t,
                        forall|k: int| 0 <= k < picks@.len() ==> 1 <= #[trigger] picks@[k] < self.num_vars,
                    decreases num_random - t,
                {
                    picks.push(random_index(1, self.num_vars));
                    t += 1;
                }
                let give_up = self.stall_round(num_retries, &picks);
                if give_up {
                    return self.is_solved();
                }
            }
            proof {
                lemma_count_true_bound(self.current_clause_assignment@);
                if g0 {
                    lemma_solved_iff(*self);
                }
            }
        }
        true
    }

    /// All clauses hold.
    pub open spec fn solved(&self) -> bool {
        self.num_fulfilled_clauses == self.clauses@.len()
    }

    /// Flips variable `var_num`, updating the clause cache, the fulfilled
    /// count and the costs of every variable that shares a clause with it.
    /// The fulfilled count changes by exactly minus the variable's old cost.
    #[verifier::rlimit(100)]
    #[verifier::spinoff_prover]
    pub fn flip_var(&mut self, var_num: usize)
        requires
            old(self).wf(),
            1 <= var_num < old(self).num_vars,
        ensures
            final(self).wf(),
            final(self).same_formula(old(self)),
            final(self).assignment@ == flip(old(self).assignment@, var_num as int),
            final(self).num_fulfilled_clauses == old(self).num_fulfilled_clauses - old(
                self,
            ).cost@[var_num as int],
    {
        let ghost cs = self.clauses@;
        let ghost n = self.num_vars as int;
        let ghost a = self.assignment@;
        let ghost fa = flip(a, var_num as int);
        let ghost v = var_num as int;
        let ghost refs = self.clauses_containing_variable@[v]@;
        let ghost old_cache = self.current_clause_assignment@;
        let ghost old_num = self.num_fulfilled_clauses as int;
        proof {
            assert(refs.take(0) =~= Seq::<i32>::empty());
            assert(cache_in_flip(cs, a, v, refs, 0, old_cache, old_cache));
            reveal(covers);
        }
        let mut neighbours: Vec<usize> = Vec::new();
        let mut seen: std::collections::HashSet<usize> = std::collections::HashSet::new();
        let num_refs = self.clauses_containing_variable[var_num].len();
        let mut k: usize = 0;
        // update the value of every clause that holds the variable
        while k < num_refs
            invariant
                old(self).wf(),
                old_num == old(self).num_fulfilled_clauses,
                self.index_wf(),
                self.same_formula(old(self)),
                self.assignment@ == a,
                self.cost@ == old(self).cost@,
                cs == self.clauses@,
                n == self.num_vars,
                1 <= v < n,
                v == var_num,
                fa == flip(a, v),
                refs == self.clauses_containing_variable@[v]@,
                num_refs == refs.len(),
                0 <= k <= num_refs,
                cache_coherent(cs, a, old_cache),
                cache_in_flip(cs, a, v, refs, k as int, old_cache, self.current_clause_assignment@),
                self.num_fulfilled_clauses == count_true(self.current_clause_assignment@),
                self.num_fulfilled_clauses == old_num - var_cost(cs, a, refs.take(k as int), v),
                forall|x: int| 0 <= x < neighbours@.len() ==> 1 <= #[trigger] neighbours@[x] < n,
                covers(cs, refs, k as int, neighbours@),
                forall|x: usize| seen@.contains(x) <==> neighbours@.contains(x),
            decreases num_refs - k,
        {
            let r = self.clauses_containing_variable[var_num][k];
            assert(refers(cs, refs[k as int], v));
            let evaluates_to = evaluate_clause_with_flipped(
                &self.clauses,
                &self.assignment,
                r,
                var_num,
            );
            let i = abs(r);
            proof {
                lemma_flip_step(cs, a, v, refs, k as int, old_cache, self.current_clause_assignment@);
            }
            if evaluates_to && !self.current_clause_assignment[i] {
                self.num_fulfilled_clauses += 1;
            } else if !evaluates_to && self.current_clause_assignment[i] {
                self.num_fulfilled_clauses -= 1;
            }
            self.current_clause_assignment.set(i, evaluates_to);
            let ghost before = neighbours@;
            push_clause_vars(&self.clauses[i], &mut neighbours, &mut seen, Ghost(n));
            proof {
                assert forall|x: int| 0 <= x < neighbours@.len() implies 1 <= #[trigger] neighbours@[x] < n by {
                    if x < before.len() {
                        assert(neighbours@[x] == before[x]);
                    }
                }
                lemma_covers_step(cs, refs, k as int, before, neighbours@);
            }
            k += 1;
        }
        proof {
            assert(refs.take(num_refs as int) =~= refs);
            assert forall|i: int| 0 <= i < cs.len() implies #[trigger] self.current_clause_assignment@[i]
                == clause_value(cs, fa, i) by {
                if !touched(refs, num_refs as int, i) {
                    assert forall|j: int| 0 <= j < cs[i]@.len() implies lit_var(#[trigger] cs[i]@[j]) != v by {
                        if lit_var(cs[i]@[j]) == v {
                            lemma_mentions_touched(self, v, i, j);
                        }
                    }
                    lemma_clause_frame(cs, a, i, v, !a[v]);
                }
            }
        }
        // flip the variable
        let value = self.assignment[var_num];
        self.assignment.set(var_num, !value);
        assert(self.assignment@ == fa);
        let ghost nb1 = neighbours@;
        if seen.insert(var_num) {
            neighbours.push(var_num);
            assert(neighbours@[nb1.len() as int] == var_num);
            assert forall|x: usize| nb1.contains(x) implies neighbours@.contains(x) by {
                lemma_push_keeps(nb1, var_num, x);
            }
        }
        assert(neighbours@.contains(var_num));
        assert(forall|x: usize| nb1.contains(x) ==> neighbours@.contains(x));
        // recompute the cost of every variable that shares a clause with it
        let num_neighbours = neighbours.len();
        let mut m: usize = 0;
        while m < num_neighbours
            invariant
                old(self).wf(),
                v == var_num,
                refs == old(self).clauses_containing_variable@[v]@,
                self.num_fulfilled_clauses == count_true(self.current_clause_assignment@),
                self.num_fulfilled_clauses == old(self).num_fulfilled_clauses - var_cost(
                    cs,
                    a,
                    refs,
                    v,
                ),
                self.index_wf(),
                self.same_formula(old(self)),
                cs == self.clauses@,
                a == old(self).assignment@,
                n == self.num_vars,
                self.assignment@ == fa,
                cache_coherent(cs, fa, self.current_clause_assignment@),
                num_neighbours == neighbours@.len(),
                forall|x: int| 0 <= x < neighbours@.len() ==> 1 <= #[trigger] neighbours@[x] < n,
                0 <= m <= num_neighbours,
                self.cost@[0] == 0,
                forall|w: int|
                    1 <= w < n ==> #[trigger] self.cost@[w] == if (exists|x: int|
                        0 <= x < m && neighbours@[x] == w) {
                        var_cost(cs, fa, self.clauses_containing_variable@[w]@, w)
                    } else {
                        old(self).cost@[w] as int
                    },
            decreases num_neighbours - m,
        {
            let w = neighbours[m];
            let c = calculate_variable_cost(
                &self.clauses,
                &self.assignment,
                &self.current_clause_assignment,
                &self.clauses_containing_variable[w],
                w,
            );
            self.cost.set(w, c);
            proof {
                assert forall|w2: int| 1 <= w2 < n implies #[trigger] self.cost@[w2] == if (exists|x: int|
                    0 <= x < m + 1 && neighbours@[x] == w2) {
                    var_cost(cs, fa, self.clauses_containing_variable@[w2]@, w2)
                } else {
                    old(self).cost@[w2] as int
                } by {
                    if w2 == w {
                        assert(neighbours@[m as int] == w2);
                    } else if exists|x: int| 0 <= x < m + 1 && neighbours@[x] == w2 {
                        let x = choose|x: int| 0 <= x < m + 1 && neighbours@[x] == w2;
                        assert(x < m);
                    }
                }
            }
            m += 1;
        }
        proof {
            assert(old(self).cost@[v] == var_cost(cs, a, refs, v));
            let occ = self.clauses_containing_variable@;
            assert forall|w: int| 1 <= w < n implies #[trigger] self.cost@[w] == var_cost(
                cs,
                fa,
                occ[w]@,
                w,
            ) by {
                if !(exists|x: int| 0 <= x < num_neighbours && neighbours@[x] == w) {
                    assert(neighbours@.contains(var_num));
                    let wr = occ[w]@;
                    assert forall|k: int, j: int|
                        0 <= k < wr.len() && 0 <= j < cs[lit_var(wr[k])]@.len() implies lit_var(
                        #[trigger] cs[lit_var(#[trigger] wr[k])]@[j],
                    ) != v by {
                        let i = lit_var(wr[k]);
                        if lit_var(cs[i]@[j]) == v {
                            lemma_mentions_touched(self, v, i, j);
                            let k2 = choose|k2: int| 0 <= k2 < num_refs && lit_var(#[trigger] refs[k2]) == i;
                            assert(refers(cs, wr[k], w));
                            let j2 = choose|j2: int|
                                0 <= j2 < cs[i]@.len() && #[trigger] cs[i]@[j2] as int == (if wr[k] > 0 {
                                    w
                                } else {
                                    -w
                                });
                            reveal(covers);
                            assert(nb1.contains(lit_var(cs[lit_var(refs[k2])]@[j2]) as usize));
                            assert(neighbours@.contains(w as usize));
                        }
                    }
                    assert forall|k: int| 0 <= k < wr.len() implies 0 <= lit_var(#[trigger] wr[k]) < cs.len() by {
                        assert(refers(cs, wr[k], w));
                    }
                    lemma_cost_frame(cs, a, wr, w, v);
                }
            }
        }
    }
}

/// Flipping the same variable twice in a row restores the assignment and
/// every cached value: the clause cache, the fulfilled count and the costs.
pub proof fn lemma_flip_twice_restores(s0: Solver, s1: Solver, s2: Solver, v: int)
    requires
        s0.wf(),
        s1.wf(),
        s2.wf(),
        s1.same_formula(&s0),
        s2.same_formula(&s1),
        1 <= v < s0.num_vars,
        s1.assignment@ == flip(s0.assignment@, v),
        s2.assignment@ == flip(s1.assignment@, v),
    ensures
        s2.assignment@ == s0.assignment@,
        s2.current_clause_assignment@ == s0.current_clause_assignment@,
        s2.num_fulfilled_clauses == s0.num_fulfilled_clauses,
        s2.cost@ == s0.cost@,
{
    assert(s2.assignment@ =~= s0.assignment@);
    assert(s2.current_clause_assignment@ =~= s0.current_clause_assignment@);
    assert(s2.cost@ =~= s0.cost@);
}

/// Once all clauses hold, the assignment satisfies every clause of the
/// formula the solver works on.
pub proof fn lemma_solved_satisfies(s: Solver, num_vars: int, clauses: Seq<Vec<i32>>)
    requires
        s.wf(),
        s.over(num_vars, clauses),
        s.solved(),
    ensures
        satisfies(clauses, s.assignment@),
{
    lemma_count_true_all(s.current_clause_assignment@);
    assert forall|i: int| 0 <= i < clauses.len() implies clause_holds(
        #[trigger] clauses[i]@,
        s.assignment@,
    ) by {
        assert(s.current_clause_assignment@[i + 1]);
    }
}

} // verus!
