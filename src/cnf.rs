//! The meaning of literals and clauses, and the two evaluations that the
//! search builds on: a clause under a (hypothetically flipped) assignment, and
//! the cost of flipping a variable.
use vstd::prelude::*;

verus! {

/// The variable that a literal (or a signed clause reference) names.
pub open spec fn lit_var(l: i32) -> int {
    if l < 0 {
        -(l as int)
    } else {
        l as int
    }
}

/// A literal holds under an assignment indexed by variable when the
/// variable's value matches the literal's polarity.
pub open spec fn lit_holds(l: i32, a: Seq<bool>) -> bool {
    if l > 0 {
        a[l as int]
    } else {
        !a[-(l as int)]
    }
}

/// A clause holds when at least one of its literals holds.
pub open spec fn clause_holds(c: Seq<i32>, a: Seq<bool>) -> bool {
    exists|j: int| 0 <= j < c.len() && lit_holds(#[trigger] c[j], a)
}

/// The truth value of clause `i` of a padded clause list: the padding clause
/// at index 0 always holds.
pub open spec fn clause_value(cs: Seq<Vec<i32>>, a: Seq<bool>, i: int) -> bool {
    i == 0 || clause_holds(cs[i]@, a)
}

/// The assignment with variable `v` inverted.
pub open spec fn flip(a: Seq<bool>, v: int) -> Seq<bool> {
    a.update(v, !a[v])
}

/// The assignment with variable `v` inverted, where `v == 0` inverts nothing.
pub open spec fn with_flipped(a: Seq<bool>, v: int) -> Seq<bool> {
    if v == 0 {
        a
    } else {
        flip(a, v)
    }
}

/// The signed reference to clause `i` that records literal `l`: `i` where
/// `l` is positive, `-i` where it is negative.
pub open spec fn signed_ref(i: int, l: i32) -> i32 {
    (if l > 0 {
        i
    } else {
        -i
    }) as i32
}

/// Clause `i` holds the literal of variable `v` with polarity `positive`.
pub open spec fn has_literal(cs: Seq<Vec<i32>>, i: int, v: int, positive: bool) -> bool {
    exists|j: int|
        0 <= j < cs[i]@.len() && #[trigger] cs[i]@[j] as int == (if positive {
            v
        } else {
            -v
        })
}

/// The signed reference `r` names a real clause that holds variable `v` with
/// the polarity given by the sign of `r`.
pub open spec fn refers(cs: Seq<Vec<i32>>, r: i32, v: int) -> bool {
    1 <= lit_var(r) < cs.len() && has_literal(cs, lit_var(r), v, r > 0)
}

/// A padded clause list over variables `1..n`: clause 0 is the empty padding
/// clause, every other clause is nonempty, and every literal names a variable
/// in range.
pub open spec fn clauses_wf(cs: Seq<Vec<i32>>, n: int) -> bool {
    &&& 1 <= cs.len() <= i32::MAX
    &&& n <= i32::MAX
    &&& cs[0]@.len() == 0
    &&& forall|i: int| 1 <= i < cs.len() ==> (#[trigger] cs[i])@.len() > 0
    &&& forall|i: int, j: int|
        0 <= i < cs.len() && 0 <= j < cs[i]@.len() ==> 1 <= lit_var(#[trigger] cs[i]@[j]) < n
}

/// What flipping `v` contributes through the reference `r`: `1` where the
/// clause would stop holding, `-1` where it would start holding.
pub open spec fn ref_delta(cs: Seq<Vec<i32>>, a: Seq<bool>, r: i32, v: int) -> int {
    if !clause_value(cs, with_flipped(a, v), lit_var(r)) {
        1
    } else if !clause_value(cs, a, lit_var(r)) {
        -1
    } else {
        0
    }
}

/// The cost of flipping `v`, summed over the clause references `refs`.
pub open spec fn var_cost(cs: Seq<Vec<i32>>, a: Seq<bool>, refs: Seq<i32>, v: int) -> int
    decreases refs.len(),
{
    if refs.len() == 0 {
        0
    } else {
        var_cost(cs, a, refs.drop_last(), v) + ref_delta(cs, a, refs.last(), v)
    }
}

/// The variable that a literal names, as an index.
pub fn abs(number: i32) -> (r: usize)
    requires
        number != i32::MIN,
    ensures
        r == lit_var(number),
{
    if number < 0 {
        (-number) as usize
    } else {
        number as usize
    }
}

/// Evaluates clause `|clause_num|` with the value of `flipped_var` inverted
/// (`0` inverts nothing). A nonzero `clause_num` given with a nonzero
/// `flipped_var` must be one of that variable's signed references.
pub fn evaluate_clause_with_flipped(
    clauses: &Vec<Vec<i32>>,
    assignment: &Vec<bool>,
    clause_num: i32,
    flipped_var: usize,
) -> (r: bool)
    requires
        clauses_wf(clauses@, assignment@.len() as int),
        clause_num != i32::MIN,
        lit_var(clause_num) < clauses@.len(),
        flipped_var < assignment@.len(),
        flipped_var != 0 && clause_num != 0 ==> refers(clauses@, clause_num, flipped_var as int),
    ensures
        r == clause_value(
            clauses@,
            with_flipped(assignment@, flipped_var as int),
            lit_var(clause_num),
        ),
        clause_num == 0 ==> r,
{
    let ghost fa = with_flipped(assignment@, flipped_var as int);
    let idx = abs(clause_num);
    if clause_num < 0 && flipped_var != 0 && assignment[flipped_var] {
        proof {
            let j = choose|j: int|
                0 <= j < clauses@[idx as int]@.len() && #[trigger] clauses@[idx as int]@[j] as int
                    == -flipped_var;
            assert(lit_holds(clauses@[idx as int]@[j], fa));
        }
        return true;
    } else if clause_num > 0 && flipped_var != 0 && !assignment[flipped_var] {
        proof {
            let j = choose|j: int|
                0 <= j < clauses@[idx as int]@.len() && #[trigger] clauses@[idx as int]@[j] as int
                    == flipped_var;
            assert(lit_holds(clauses@[idx as int]@[j], fa));
        }
        return true;
    }
    let clause = &clauses[idx];
    let mut j: usize = 0;
    while j < clause.len()
        invariant
            clause@ == clauses@[idx as int]@,
            clauses_wf(clauses@, assignment@.len() as int),
            idx < clauses@.len(),
            idx == lit_var(clause_num),
            flipped_var < assignment@.len(),
            fa == with_flipped(assignment@, flipped_var as int),
            0 <= j <= clause@.len(),
            forall|k: int| 0 <= k < j ==> !lit_holds(#[trigger] clause@[k], fa),
        decreases clause@.len() - j,
    {
        let lit = clause[j];
        assert(clauses@[idx as int]@[j as int] == lit);
        let var_name = abs(lit);
        assert(1 <= var_name < assignment@.len());
        assert(fa[var_name as int] == if var_name == flipped_var {
            !assignment@[var_name as int]
        } else {
            assignment@[var_name as int]
        });
        let value = if var_name == flipped_var {
            !assignment[var_name]
        } else {
            assignment[var_name]
        };
        let holds = if lit > 0 {
            value
        } else {
            !value
        };
        if holds {
            assert(lit_holds(clauses@[idx as int]@[j as int], fa));
            return true;
        }
        j += 1;
    }
    // only the padding clause is empty, and it holds
    clause.len() == 0
}

/// Every clause value cached in `sat` is the clause's value under `a`.
pub open spec fn cache_coherent(cs: Seq<Vec<i32>>, a: Seq<bool>, sat: Seq<bool>) -> bool {
    &&& sat.len() == cs.len()
    &&& forall|i: int| 0 <= i < cs.len() ==> #[trigger] sat[i] == clause_value(cs, a, i)
}

/// Cost of flipping `variable_num`, summed over the clause references
/// `clauses_to_consider`: each clause that would stop holding counts `1`, each
/// clause that fails now and would start holding counts `-1`.
pub fn calculate_variable_cost(
    clauses: &Vec<Vec<i32>>,
    assignment: &Vec<bool>,
    clause_assignment: &Vec<bool>,
    clauses_to_consider: &Vec<i32>,
    variable_num: usize,
) -> (r: i32)
    requires
        clauses_wf(clauses@, assignment@.len() as int),
        cache_coherent(clauses@, assignment@, clause_assignment@),
        1 <= variable_num < assignment@.len(),
        clauses_to_consider@.len() <= i32::MAX,
        forall|k: int|
            0 <= k < clauses_to_consider@.len() ==> refers(
                clauses@,
                #[trigger] clauses_to_consider@[k],
                variable_num as int,
            ),
    ensures
        r == var_cost(clauses@, assignment@, clauses_to_consider@, variable_num as int),
{
    let ghost refs = clauses_to_consider@;
    let ghost v = variable_num as int;
    let mut cost: i32 = 0;
    let mut k: usize = 0;
    while k < clauses_to_consider.len()
        invariant
            clauses_wf(clauses@, assignment@.len() as int),
            cache_coherent(clauses@, assignment@, clause_assignment@),
            1 <= variable_num < assignment@.len(),
            refs == clauses_to_consider@,
            v == variable_num,
            refs.len() <= i32::MAX,
            forall|k: int| 0 <= k < refs.len() ==> refers(clauses@, #[trigger] refs[k], v),
            0 <= k <= refs.len(),
            cost == var_cost(clauses@, assignment@, refs.take(k as int), v),
            -(k as int) <= cost <= k,
        decreases refs.len() - k,
    {
        let clause = clauses_to_consider[k];
        assert(refers(clauses@, refs[k as int], v));
        let clause_evaluates_to = evaluate_clause_with_flipped(
            clauses,
            assignment,
            clause,
            variable_num,
        );
        let idx = abs(clause);
        if !clause_evaluates_to {
            cost += 1;
        } else if !clause_assignment[idx] {
            cost -= 1;
        }
        proof {
            assert(refs.take(k + 1).drop_last() =~= refs.take(k as int));
            assert(refs.take(k + 1).last() == refs[k as int]);
        }
        k += 1;
    }
    assert(refs.take(refs.len() as int) =~= refs);
    cost
}

/// The number of `true` entries.
pub open spec fn count_true(s: Seq<bool>) -> nat
    decreases s.len(),
{
    if s.len() == 0 {
        0
    } else {
        count_true(s.drop_last()) + if s.last() {
            1nat
        } else {
            0nat
        }
    }
}

/// At most every entry is `true`.
pub proof fn lemma_count_true_bound(s: Seq<bool>)
    ensures
        count_true(s) <= s.len(),
    decreases s.len(),
{
    if s.len() > 0 {
        lemma_count_true_bound(s.drop_last());
    }
}

/// Changing one entry changes the count by that entry alone.
pub proof fn lemma_count_true_update(s: Seq<bool>, i: int, b: bool)
    requires
        0 <= i < s.len(),
    ensures
        count_true(s.update(i, b)) + (if s[i] {
            1int
        } else {
            0int
        }) == count_true(s) + (if b {
            1int
        } else {
            0int
        }),
    decreases s.len(),
{
    let t = s.update(i, b);
    if i == s.len() - 1 {
        assert(t.drop_last() =~= s.drop_last());
    } else {
        assert(t.drop_last() =~= s.drop_last().update(i, b));
        lemma_count_true_update(s.drop_last(), i, b);
    }
}

/// The total number of literals over all clauses.
pub open spec fn num_literals(cs: Seq<Vec<i32>>) -> nat
    decreases cs.len(),
{
    if cs.len() == 0 {
        0
    } else {
        num_literals(cs.drop_last()) + cs.last()@.len()
    }
}

/// A prefix holds no more literals than the whole list.
pub proof fn lemma_num_literals_prefix(cs: Seq<Vec<i32>>, i: int)
    requires
        0 <= i <= cs.len(),
    ensures
        num_literals(cs.take(i)) <= num_literals(cs),
    decreases cs.len() - i,
{
    if i < cs.len() {
        assert(cs.take(i + 1).drop_last() =~= cs.take(i));
        lemma_num_literals_prefix(cs, i + 1);
    } else {
        assert(cs.take(i) =~= cs);
    }
}

/// Putting an empty clause in front adds no literal.
pub proof fn lemma_num_literals_padded(pad: Vec<i32>, cs: Seq<Vec<i32>>)
    requires
        pad@.len() == 0,
    ensures
        num_literals(seq![pad] + cs) == num_literals(cs),
    decreases cs.len(),
{
    if cs.len() == 0 {
        assert((seq![pad] + cs).drop_last() =~= Seq::<Vec<i32>>::empty());
        assert((seq![pad] + cs).last() == pad);
        assert(num_literals(Seq::<Vec<i32>>::empty()) == 0);
        assert(num_literals(seq![pad] + cs) == num_literals((seq![pad] + cs).drop_last()) + pad@.len());
    } else {
        assert((seq![pad] + cs).drop_last() =~= seq![pad] + cs.drop_last());
        assert((seq![pad] + cs).last() == cs.last());
        lemma_num_literals_padded(pad, cs.drop_last());
        assert(num_literals(seq![pad] + cs) == num_literals(seq![pad] + cs.drop_last())
            + cs.last()@.len());
    }
}

/// A formula as the search takes it: `num_vars` variables, nonempty clauses
/// whose literals name variables in `1..=num_vars`, and counts that fit the
/// signed references and costs.
pub open spec fn formula_wf(num_vars: int, clauses: Seq<Vec<i32>>) -> bool {
    &&& num_vars < i32::MAX
    &&& clauses.len() < i32::MAX
    &&& num_literals(clauses) <= i32::MAX
    &&& forall|i: int| 0 <= i < clauses.len() ==> (#[trigger] clauses[i])@.len() > 0
    &&& forall|i: int, j: int|
        0 <= i < clauses.len() && 0 <= j < clauses[i]@.len() ==> 1 <= lit_var(
            #[trigger] clauses[i]@[j],
        ) <= num_vars
}

/// Where every entry counts, every entry is `true`.
pub proof fn lemma_count_true_all(s: Seq<bool>)
    requires
        count_true(s) == s.len(),
    ensures
        forall|i: int| 0 <= i < s.len() ==> #[trigger] s[i],
    decreases s.len(),
{
    if s.len() > 0 {
        lemma_count_true_bound(s.drop_last());
        lemma_count_true_all(s.drop_last());
        assert forall|i: int| 0 <= i < s.len() implies #[trigger] s[i] by {
            if i < s.len() - 1 {
                assert(s.drop_last()[i] == s[i]);
            }
        }
    }
}

/// Lists whose clauses are equal as literal sequences hold as many literals.
pub proof fn lemma_num_literals_views(x: Seq<Vec<i32>>, y: Seq<Vec<i32>>)
    requires
        x.len() == y.len(),
        forall|i: int| 0 <= i < x.len() ==> (#[trigger] x[i])@ == y[i]@,
    ensures
        num_literals(x) == num_literals(y),
    decreases x.len(),
{
    if x.len() > 0 {
        lemma_num_literals_views(x.drop_last(), y.drop_last());
        assert(x.last()@ == y.last()@);
    }
}

/// Every clause of `clauses` holds under the assignment `a`.
pub open spec fn satisfies(clauses: Seq<Vec<i32>>, a: Seq<bool>) -> bool {
    forall|i: int| 0 <= i < clauses.len() ==> clause_holds(#[trigger] clauses[i]@, a)
}

/// Whether the search can take the formula: `num_vars` variables, nonempty
/// clauses whose literals name variables in `1..=num_vars`, and counts that
/// fit the signed references and costs.
pub fn is_valid_formula(num_vars: usize, clauses: &Vec<Vec<i32>>) -> (r: bool)
    ensures
        r == formula_wf(num_vars as int, clauses@),
{
    if num_vars >= 0x7fff_ffff || clauses.len() >= 0x7fff_ffff {
        return false;
    }
    let ghost cs = clauses@;
    let mut total: usize = 0;
    let mut i: usize = 0;
    while i < clauses.len()
        invariant
            cs == clauses@,
            num_vars < i32::MAX,
            0 <= i <= cs.len(),
            total == num_literals(cs.take(i as int)),
            total <= i32::MAX,
            forall|i2: int| 0 <= i2 < i ==> (#[trigger] cs[i2])@.len() > 0,
            forall|i2: int, j: int|
                0 <= i2 < i && 0 <= j < cs[i2]@.len() ==> 1 <= lit_var(#[trigger] cs[i2]@[j])
                    <= num_vars,
        decreases cs.len() - i,
    {
        let clause = &clauses[i];
        if clause.len() == 0 {
            return false;
        }
        if clause.len() > 0x7fff_ffff - total {
            proof {
                assert(cs.take(i + 1).drop_last() =~= cs.take(i as int));
                assert(cs.take(i + 1).last() == cs[i as int]);
                lemma_num_literals_prefix(cs, i + 1);
            }
            return false;
        }
        let mut j: usize = 0;
        while j < clause.len()
            invariant
                0 <= i < cs.len(),
                cs == clauses@,
                clause@ == cs[i as int]@,
                num_vars < i32::MAX,
                0 <= j <= clause@.len(),
                forall|j2: int| 0 <= j2 < j ==> 1 <= lit_var(#[trigger] clause@[j2]) <= num_vars,
            decreases clause@.len() - j,
        {
            let lit = clause[j];
            if lit == i32::MIN || abs(lit) == 0 || abs(lit) > num_vars {
                assert(cs[i as int]@[j as int] == lit);
                assert(!(1 <= lit_var(cs[i as int]@[j as int]) <= num_vars));
                return false;
            }
            j += 1;
        }
        proof {
            assert(cs.take(i + 1).drop_last() =~= cs.take(i as int));
            assert(cs.take(i + 1).last() == cs[i as int]);
            assert forall|i2: int, j2: int|
                0 <= i2 < i + 1 && 0 <= j2 < cs[i2]@.len() implies 1 <= lit_var(
                #[trigger] cs[i2]@[j2],
            ) <= num_vars by {
                if i2 == i {
                    assert(clause@[j2] == cs[i2]@[j2]);
                }
            }
        }
        total += clause.len();
        i += 1;
    }
    assert(cs.take(cs.len() as int) =~= cs);
    true
}

} // verus!
