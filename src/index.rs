//! The occurrence index: for each variable, the set of signed references to
//! the clauses that hold it.
use vstd::prelude::*;

use crate::cnf::{abs, clauses_wf, lit_var, num_literals, refers, signed_ref};

verus! {

/// The references are ordered by the clause they name.
pub open spec fn ordered_by_clause(s: Seq<i32>) -> bool {
    forall|x: int, y: int| 0 <= x < y < s.len() ==> lit_var(#[trigger] s[x]) <= lit_var(#[trigger] s[y])
}

/// Adds the reference `r` unless it is there already. References are added
/// clause by clause, so a copy of `r` can only be among the last two.
fn add_ref(list: &mut Vec<i32>, r: i32)
    requires
        r != 0,
        r != i32::MIN,
        old(list)@.no_duplicates(),
        ordered_by_clause(old(list)@),
        forall|x: int| 0 <= x < old(list)@.len() ==> lit_var(#[trigger] old(list)@[x]) <= lit_var(r),
    ensures
        final(list)@ == old(list)@ || final(list)@ == old(list)@.push(r),
        final(list)@.contains(r),
        final(list)@.no_duplicates(),
        ordered_by_clause(final(list)@),
{
    let len = list.len();
    if len >= 1 && list[len - 1] == r {
        assert(list@[len - 1] == r);
        return;
    }
    if len >= 2 && list[len - 2] == r {
        assert(list@[len - 2] == r);
        return;
    }
    proof {
        let s = list@;
        if s.contains(r) {
            let p = choose|p: int| 0 <= p < s.len() && s[p] == r;
            assert(p < len - 2);
            assert(lit_var(s[p]) <= lit_var(s[len - 2]));
            assert(lit_var(s[len - 2]) <= lit_var(s[len - 1]));
            assert(s[len - 2] == -r);
            assert(s[len - 1] == -r);
        }
    }
    list.push(r);
    assert(list@[len as int] == r);
}

/// Builds the occurrence index of a padded clause list over the variables
/// `1..n`: entry `v` holds, once each and in clause order, the signed
/// reference of every literal of `v`.
pub fn occurrence_index(clauses: &Vec<Vec<i32>>, n: usize) -> (occ: Vec<Vec<i32>>)
    requires
        clauses_wf(clauses@, n as int),
        num_literals(clauses@) <= i32::MAX,
    ensures
        occ@.len() == n,
        forall|v: int, k: int|
            0 <= v < n && 0 <= k < occ@[v]@.len() ==> refers(clauses@, #[trigger] occ@[v]@[k], v),
        forall|i: int, j: int|
            0 <= i < clauses@.len() && 0 <= j < clauses@[i]@.len() ==> occ@[lit_var(
                #[trigger] clauses@[i]@[j],
            )]@.contains(signed_ref(i, clauses@[i]@[j])),
        forall|v: int|
            0 <= v < n ==> (#[trigger] occ@[v])@.len() <= i32::MAX && occ@[v]@.no_duplicates(),
{
    let ghost cs = clauses@;
    let mut occ: Vec<Vec<i32>> = Vec::new();
    let mut v: usize = 0;
    while v < n
        invariant
            0 <= v <= n,
            occ@.len() == v,
            forall|v2: int| 0 <= v2 < v ==> (#[trigger] occ@[v2])@.len() == 0,
        decreases n - v,
    {
        occ.push(Vec::new());
        v += 1;
    }
    let mut i: usize = 0;
    while i < clauses.len()
        invariant
            cs == clauses@,
            clauses_wf(cs, n as int),
            num_literals(cs) <= i32::MAX,
            0 <= i <= cs.len(),
            occ@.len() == n,
            forall|v2: int, k: int|
                0 <= v2 < n && 0 <= k < occ@[v2]@.len() ==> refers(cs, #[trigger] occ@[v2]@[k], v2)
                    && lit_var(occ@[v2]@[k]) < i,
            forall|v2: int|
                0 <= v2 < n ==> (#[trigger] occ@[v2])@.len() <= num_literals(cs.take(i as int))
                    && occ@[v2]@.no_duplicates() && ordered_by_clause(occ@[v2]@),
            forall|i2: int, j: int|
                0 <= i2 < i && 0 <= j < cs[i2]@.len() ==> occ@[lit_var(
                    #[trigger] cs[i2]@[j],
                )]@.contains(signed_ref(i2, cs[i2]@[j])),
        decreases cs.len() - i,
    {
        let clause = &clauses[i];
        let ghost base = num_literals(cs.take(i as int));
        let mut j: usize = 0;
        while j < clause.len()
            invariant
                cs == clauses@,
                clauses_wf(cs, n as int),
                0 <= i < cs.len(),
                clause@ == cs[i as int]@,
                0 <= j <= clause@.len(),
                occ@.len() == n,
                base == num_literals(cs.take(i as int)),
                forall|v2: int, k: int|
                    0 <= v2 < n && 0 <= k < occ@[v2]@.len() ==> refers(
                        cs,
                        #[trigger] occ@[v2]@[k],
                        v2,
                    ) && lit_var(occ@[v2]@[k]) <= i,
                forall|v2: int|
                    0 <= v2 < n ==> (#[trigger] occ@[v2])@.len() <= base + j
                        && occ@[v2]@.no_duplicates() && ordered_by_clause(occ@[v2]@),
                forall|i2: int, j2: int|
                    0 <= i2 < i && 0 <= j2 < cs[i2]@.len() ==> occ@[lit_var(
                        #[trigger] cs[i2]@[j2],
                    )]@.contains(signed_ref(i2, cs[i2]@[j2])),
                forall|j2: int|
                    0 <= j2 < j ==> occ@[lit_var(#[trigger] cs[i as int]@[j2])]@.contains(
                        signed_ref(i as int, cs[i as int]@[j2]),
                    ),
            decreases clause@.len() - j,
        {
            let lit = clause[j];
            assert(cs[i as int]@[j as int] == lit);
            assert(i != 0);
            let w = abs(lit);
            let r: i32 = if lit > 0 {
                i as i32
            } else {
                -(i as i32)
            };
            let ghost before = occ@;
            add_ref(&mut occ[w], r);
            proof {
                assert(refers(cs, r, w as int));
                assert forall|v2: int, k: int|
                    0 <= v2 < n && 0 <= k < occ@[v2]@.len() implies refers(
                    cs,
                    #[trigger] occ@[v2]@[k],
                    v2,
                ) && lit_var(occ@[v2]@[k]) <= i by {
                    if v2 == w && k == before[v2]@.len() {
                        assert(occ@[v2]@[k] == r);
                    } else {
                        assert(occ@[v2]@[k] == before[v2]@[k]);
                    }
                }
                assert forall|i2: int, j2: int|
                    0 <= i2 < i && 0 <= j2 < cs[i2]@.len() implies occ@[lit_var(
                    #[trigger] cs[i2]@[j2],
                )]@.contains(signed_ref(i2, cs[i2]@[j2])) by {
                    let v2 = lit_var(cs[i2]@[j2]);
                    let rr = signed_ref(i2, cs[i2]@[j2]);
                    assert(before[v2]@.contains(rr));
                    let x = choose|x: int| 0 <= x < before[v2]@.len() && before[v2]@[x] == rr;
                    assert(occ@[v2]@[x] == rr);
                }
                assert forall|j2: int|
                    0 <= j2 < j + 1 implies occ@[lit_var(#[trigger] cs[i as int]@[j2])]@.contains(
                    signed_ref(i as int, cs[i as int]@[j2]),
                ) by {
                    if j2 < j {
                        let v2 = lit_var(cs[i as int]@[j2]);
                        let rr = signed_ref(i as int, cs[i as int]@[j2]);
                        assert(before[v2]@.contains(rr));
                        let x = choose|x: int| 0 <= x < before[v2]@.len() && before[v2]@[x] == rr;
                        assert(occ@[v2]@[x] == rr);
                    }
                }
            }
            j += 1;
        }
        proof {
            assert(cs.take(i + 1).drop_last() =~= cs.take(i as int));
            assert(cs.take(i + 1).last() == cs[i as int]);
        }
        i += 1;
    }
    proof {
        assert(cs.take(cs.len() as int) =~= cs);
    }
    occ
}

} // verus!
