//! The solution text: `s SATISFIABLE`, then a `v` line with one signed
//! literal per variable, ended by `0`.
use vstd::prelude::*;

verus! {

/// The decimal digits of `n`.
pub open spec fn decimal(n: nat) -> Seq<u8>
    decreases n,
{
    if n < 10 {
        seq![(48 + n) as u8]
    } else {
        decimal(n / 10) + seq![(48 + n % 10) as u8]
    }
}

/// Variable `i` as a literal followed by a space: `i` where it is true,
/// `-i` where it is false.
pub open spec fn literal_text(a: Seq<bool>, i: int) -> Seq<u8> {
    (if a[i] {
        Seq::<u8>::empty()
    } else {
        seq![45u8]
    }) + decimal(i as nat) + seq![32u8]
}

/// The literals of variables `1..k`.
pub open spec fn literals_text(a: Seq<bool>, k: int) -> Seq<u8>
    decreases k,
{
    if k <= 1 {
        Seq::empty()
    } else {
        literals_text(a, k - 1) + literal_text(a, k - 1)
    }
}

/// The whole solution text for an assignment whose entry 0 is unused.
pub open spec fn solution_text(a: Seq<bool>) -> Seq<u8> {
    seq![115u8, 32, 83, 65, 84, 73, 83, 70, 73, 65, 66, 76, 69, 10, 118, 32] + literals_text(
        a,
        a.len() as int,
    ) + seq![48u8]
}

/// Appends the decimal digits of `n`.
fn push_decimal(out: &mut Vec<u8>, n: usize)
    ensures
        final(out)@ == old(out)@ + decimal(n as nat),
    decreases n,
{
    if n >= 10 {
        push_decimal(out, n / 10);
    }
    out.push((48 + n % 10) as u8);
    proof {
        if n < 10 {
            assert(decimal(n as nat) == seq![(48 + n) as u8]);
        }
    }
}

/// Renders the solution text of `assignment` (entry 0 unused).
pub fn render_solution(assignment: &Vec<bool>) -> (r: Vec<u8>)
    ensures
        r@ == solution_text(assignment@),
{
    let mut out: Vec<u8> = Vec::new();
    out.push(115);
    out.push(32);
    out.push(83);
    out.push(65);
    out.push(84);
    out.push(73);
    out.push(83);
    out.push(70);
    out.push(73);
    out.push(65);
    out.push(66);
    out.push(76);
    out.push(69);
    out.push(10);
    out.push(118);
    out.push(32);
    let ghost head = out@;
    assert(head =~= seq![115u8, 32, 83, 65, 84, 73, 83, 70, 73, 65, 66, 76, 69, 10, 118, 32]);
    let mut i: usize = 1;
    while i < assignment.len()
        invariant
            1 <= i,
            i <= assignment@.len() || (assignment@.len() == 0 && i == 1),
            out@ == head + literals_text(assignment@, i as int),
            head == seq![115u8, 32, 83, 65, 84, 73, 83, 70, 73, 65, 66, 76, 69, 10, 118, 32],
        decreases assignment@.len() - i,
    {
        let ghost before = out@;
        if !assignment[i] {
            out.push(45);
        }
        push_decimal(&mut out, i);
        out.push(32);
        assert(out@ =~= before + literal_text(assignment@, i as int));
        i += 1;
    }
    let ghost body = out@;
    out.push(48);
    proof {
        assert(body == head + literals_text(assignment@, i as int));
        if assignment@.len() > 0 {
            assert(i == assignment@.len());
        } else {
            assert(literals_text(assignment@, 1) =~= Seq::<u8>::empty());
            assert(literals_text(assignment@, 0) =~= Seq::<u8>::empty());
        }
        assert(out@ =~= body + seq![48u8]);
        let lt = literals_text(assignment@, assignment@.len() as int);
        assert(literals_text(assignment@, i as int) == lt);
        assert(out@ == head + lt + seq![48u8]);
        assert(solution_text(assignment@) == head + lt + seq![48u8]);
    }
    out
}

} // verus!
