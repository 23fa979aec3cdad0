//! The DIMACS CNF text format. Lines end at `\n`; a line that starts with
//! `c` is a comment; a line that starts with `p` is the header
//! `p cnf <variables> <clauses>`; every other line lists literals separated
//! by ASCII whitespace, whose zeros (the clause terminator) are dropped, and
//! gives a clause unless nothing is left.
use vstd::prelude::*;

verus! {

/// What makes a text no formula.
pub enum FormatError {
    /// A header line without a third and a fourth field that are unsigned
    /// numbers.
    MalformedHeader,
    /// A clause line with a field that is no 32-bit signed number.
    MalformedLiteral,
}

pub open spec fn is_space(b: u8) -> bool {
    b == 32 || b == 9 || b == 10 || b == 12 || b == 13
}

pub open spec fn is_digit(b: u8) -> bool {
    48 <= b <= 57
}

/// The index of the `\n` that ends the line from `i`, or the text's length.
pub open spec fn line_end(t: Seq<u8>, i: int) -> int
    decreases t.len() - i,
{
    if i < 0 || i >= t.len() || t[i] == 10 {
        i
    } else {
        line_end(t, i + 1)
    }
}

/// A leading `+` or `-` of a field.
pub open spec fn sign_len(tok: Seq<u8>) -> int {
    if tok.len() > 0 && (tok[0] == 43 || tok[0] == 45) {
        1
    } else {
        0
    }
}

pub open spec fn negative(tok: Seq<u8>) -> bool {
    tok.len() > 0 && tok[0] == 45
}

pub open spec fn all_digits(s: Seq<u8>) -> bool {
    s.len() > 0 && forall|k: int| 0 <= k < s.len() ==> is_digit(#[trigger] s[k])
}

/// The value of a string of decimal digits.
pub open spec fn digits_value(s: Seq<u8>) -> int
    decreases s.len(),
{
    if s.len() == 0 {
        0
    } else {
        digits_value(s.drop_last()) * 10 + (s.last() - 48)
    }
}

/// The magnitude of a field: the value of its digits after the sign.
pub open spec fn magnitude(tok: Seq<u8>) -> int {
    digits_value(tok.subrange(sign_len(tok), tok.len() as int))
}

/// A field read as a decimal integer with an optional sign.
pub open spec fn parse_int(tok: Seq<u8>) -> Option<int> {
    if all_digits(tok.subrange(sign_len(tok), tok.len() as int)) {
        Some(
            if negative(tok) {
                -magnitude(tok)
            } else {
                magnitude(tok)
            },
        )
    } else {
        None
    }
}

/// A field read as a literal: a decimal integer that fits in 32 bits.
pub open spec fn literal_of(tok: Seq<u8>) -> Option<int> {
    match parse_int(tok) {
        Some(v) => if i32::MIN <= v <= i32::MAX {
            Some(v)
        } else {
            None
        },
        None => None,
    }
}

/// A field read as a count: an unsigned decimal integer that fits a `usize`.
pub open spec fn count_of(tok: Seq<u8>) -> Option<int> {
    if negative(tok) {
        None
    } else {
        match parse_int(tok) {
            Some(v) => if v <= usize::MAX {
                Some(v)
            } else {
                None
            },
            None => None,
        }
    }
}

/// Reads the literals of a clause line from `i` to `end`, where a field
/// started at `ts` (`-1`: none is open) and `acc` holds those read so far.
pub open spec fn clause_acc(t: Seq<u8>, i: int, end: int, ts: int, acc: Seq<i32>) -> Option<
    Seq<i32>,
>
    decreases end + 1 - i,
{
    if i > end {
        None
    } else if i == end || is_space(t[i]) {
        let next = if ts >= 0 {
            match literal_of(t.subrange(ts, i)) {
                Some(l) => Some(
                    if l == 0 {
                        acc
                    } else {
                        acc.push(l as i32)
                    },
                ),
                None => None,
            }
        } else {
            Some(acc)
        };
        match next {
            None => None,
            Some(acc2) => if i == end {
                Some(acc2)
            } else {
                clause_acc(t, i + 1, end, -1, acc2)
            },
        }
    } else {
        clause_acc(t, i + 1, end, if ts >= 0 {
            ts
        } else {
            i
        }, acc)
    }
}

/// Reads a header line from `i` to `end`, where a field started at `ts`,
/// `k` fields were read before it and `vars` holds the third one: the
/// header needs at least four fields, the third and the fourth counts.
pub open spec fn header_acc(t: Seq<u8>, i: int, end: int, ts: int, k: int, vars: int) -> Option<
    int,
>
    decreases end + 1 - i,
{
    if i > end {
        None
    } else if i == end || is_space(t[i]) {
        let ok = ts < 0 || (k != 2 && k != 3) || count_of(t.subrange(ts, i)) is Some;
        let k2 = if ts >= 0 {
            k + 1
        } else {
            k
        };
        let vars2 = if ts >= 0 && k == 2 {
            count_of(t.subrange(ts, i))->Some_0
        } else {
            vars
        };
        if !ok {
            None
        } else if i == end {
            if k2 >= 4 {
                Some(vars2)
            } else {
                None
            }
        } else {
            header_acc(t, i + 1, end, -1, k2, vars2)
        }
    } else {
        header_acc(t, i + 1, end, if ts >= 0 {
            ts
        } else {
            i
        }, k, vars)
    }
}

/// Reads the lines from `i` on, with `vars` and `cs` the variable count and
/// the clauses read so far.
pub open spec fn parse_lines(t: Seq<u8>, i: int, vars: int, cs: Seq<Seq<i32>>) -> Result<
    (Seq<Seq<i32>>, int),
    FormatError,
>
    decreases t.len() + 1 - i,
{
    if i < 0 || i >= t.len() {
        Ok((cs, vars))
    } else {
        // `line_end` stays within `i..=t.len()`; the guards make that plain
        let e = if line_end(t, i) < i {
            i
        } else if line_end(t, i) > t.len() {
            t.len() as int
        } else {
            line_end(t, i)
        };
        if t[i] == 99 {
            parse_lines(t, e + 1, vars, cs)
        } else if t[i] == 112 {
            match header_acc(t, i, e, -1, 0, vars) {
                Some(v) => parse_lines(t, e + 1, v, cs),
                None => Err(FormatError::MalformedHeader),
            }
        } else {
            match clause_acc(t, i, e, -1, Seq::empty()) {
                Some(c) => parse_lines(t, e + 1, vars, if c.len() > 0 {
                    cs.push(c)
                } else {
                    cs
                }),
                None => Err(FormatError::MalformedLiteral),
            }
        }
    }
}

proof fn lemma_line_end(t: Seq<u8>, i: int)
    requires
        0 <= i <= t.len(),
    ensures
        i <= line_end(t, i) <= t.len(),
        line_end(t, i) < t.len() ==> t[line_end(t, i)] == 10,
        forall|k: int| i <= k < line_end(t, i) ==> t[k] != 10,
    decreases t.len() - i,
{
    if i < t.len() && t[i] != 10 {
        lemma_line_end(t, i + 1);
    }
}

/// The text read as a formula: the clauses and the variable count of the
/// last header (0 without one).
pub open spec fn parse_dimacs(t: Seq<u8>) -> Result<(Seq<Seq<i32>>, int), FormatError> {
    parse_lines(t, 0, 0, Seq::empty())
}

/// The literal sequence of every clause.
pub open spec fn views(v: Seq<Vec<i32>>) -> Seq<Seq<i32>> {
    v.map_values(|c: Vec<i32>| c@)
}

/// Where the line from `i` ends.
fn find_line_end(t: &Vec<u8>, i: usize) -> (e: usize)
    requires
        i <= t@.len(),
    ensures
        e == line_end(t@, i as int),
        i <= e <= t@.len(),
{
    let mut j: usize = i;
    while j < t.len() && t[j] != 10
        invariant
            i <= j <= t@.len(),
            line_end(t@, j as int) == line_end(t@, i as int),
        decreases t@.len() - j,
    {
        j += 1;
    }
    j
}

/// The largest magnitude kept exactly; larger ones read as one more.
pub open spec fn cap() -> int {
    0x1_0000_0000_0000_0000
}

/// Reads the field `start..end` as a signed decimal integer: its sign and
/// its magnitude, capped at one above `cap()`.
fn read_number(t: &Vec<u8>, start: usize, end: usize) -> (r: Option<(bool, u128)>)
    requires
        start < end <= t@.len(),
    ensures
        ({
            let tok = t@.subrange(start as int, end as int);
            match r {
                None => parse_int(tok) is None,
                Some((neg, m)) => parse_int(tok) is Some && neg == negative(tok) && m as int == if magnitude(tok) > cap() {
                    cap() + 1
                } else {
                    magnitude(tok)
                },
            }
        }),
{
    let ghost tok = t@.subrange(start as int, end as int);
    let first = t[start];
    let neg = first == 45;
    let ds: usize = if first == 43 || first == 45 {
        start + 1
    } else {
        start
    };
    let ghost digits = t@.subrange(ds as int, end as int);
    assert(tok.subrange(sign_len(tok), tok.len() as int) =~= digits);
    if ds == end {
        return None;
    }
    let mut m: u128 = 0;
    let mut k: usize = ds;
    while k < end
        invariant
            start <= ds < end <= t@.len(),
            ds <= k <= end,
            digits == t@.subrange(ds as int, end as int),
            tok == t@.subrange(start as int, end as int),
            neg == negative(tok),
            tok.subrange(sign_len(tok), tok.len() as int) == digits,
            forall|k2: int| ds <= k2 < k ==> is_digit(#[trigger] t@[k2]),
            m as int == if digits_value(t@.subrange(ds as int, k as int)) > cap() {
                cap() + 1
            } else {
                digits_value(t@.subrange(ds as int, k as int))
            },
        decreases end - k,
    {
        let b = t[k];
        if b < 48 || b > 57 {
            assert(digits[k - ds] == b);
            return None;
        }
        proof {
            let p = t@.subrange(ds as int, k + 1);
            assert(p.drop_last() =~= t@.subrange(ds as int, k as int));
            assert(p.last() == b);
        }
        if m > 0x1_0000_0000_0000_0000u128 {
            m = 0x1_0000_0000_0000_0001u128;
        } else {
            m = m * 10 + (b - 48) as u128;
            if m > 0x1_0000_0000_0000_0000u128 {
                m = 0x1_0000_0000_0000_0001u128;
            }
        }
        k += 1;
    }
    assert(t@.subrange(ds as int, k as int) =~= digits);
    assert forall|k2: int| 0 <= k2 < digits.len() implies is_digit(#[trigger] digits[k2]) by {
        assert(digits[k2] == t@[ds + k2]);
    }
    Some((neg, m))
}

/// Reads a clause line from `start` to `end`.
fn read_clause(t: &Vec<u8>, start: usize, end: usize) -> (r: Option<Vec<i32>>)
    requires
        start <= end <= t@.len(),
    ensures
        match r {
            None => clause_acc(t@, start as int, end as int, -1, Seq::empty()) is None,
            Some(c) => clause_acc(t@, start as int, end as int, -1, Seq::empty()) == Some(c@),
        },
{
    let mut acc: Vec<i32> = Vec::new();
    let mut in_tok = false;
    let mut tok_start: usize = 0;
    let mut i: usize = start;
    while i <= end
        invariant
            start <= i <= end,
            end <= t@.len(),
            in_tok ==> start <= tok_start < i,
            clause_acc(t@, i as int, end as int, if in_tok {
                tok_start as int
            } else {
                -1
            }, acc@) == clause_acc(t@, start as int, end as int, -1, Seq::empty()),
        decreases end + 1 - i,
    {
        if i == end || t[i] == 32 || t[i] == 9 || t[i] == 10 || t[i] == 12 || t[i] == 13 {
            if in_tok {
                let ghost tok = t@.subrange(tok_start as int, i as int);
                match read_number(t, tok_start, i) {
                    None => {
                        return None;
                    },
                    Some((neg, m)) => {
                        let lit: i32;
                        if neg {
                            if m > 0x8000_0000u128 {
                                return None;
                            }
                            lit = if m == 0x8000_0000u128 {
                                i32::MIN
                            } else {
                                -(m as i32)
                            };
                        } else {
                            if m > 0x7fff_ffffu128 {
                                return None;
                            }
                            lit = m as i32;
                        }
                        assert(literal_of(tok) == Some(lit as int));
                        if lit != 0 {
                            acc.push(lit);
                        }
                    },
                }
                in_tok = false;
            }
            if i == end {
                return Some(acc);
            }
        } else if !in_tok {
            in_tok = true;
            tok_start = i;
        }
        i += 1;
    }
    None
}

/// Reads a header line from `start` to `end`, where `vars` is the variable
/// count so far.
fn read_header(t: &Vec<u8>, start: usize, end: usize, vars: usize) -> (r: Option<usize>)
    requires
        start <= end <= t@.len(),
    ensures
        match r {
            None => header_acc(t@, start as int, end as int, -1, 0, vars as int) is None,
            Some(v) => header_acc(t@, start as int, end as int, -1, 0, vars as int) == Some(
                v as int,
            ),
        },
{
    let mut k: usize = 0;
    let mut found: usize = vars;
    let mut in_tok = false;
    let mut tok_start: usize = 0;
    let mut i: usize = start;
    while i <= end
        invariant
            start <= i <= end,
            end <= t@.len(),
            in_tok ==> start <= tok_start < i && k <= tok_start - start,
            !in_tok ==> k <= i - start,
            header_acc(t@, i as int, end as int, if in_tok {
                tok_start as int
            } else {
                -1
            }, k as int, found as int) == header_acc(t@, start as int, end as int, -1, 0, vars as int),
        decreases end + 1 - i,
    {
        if i == end || t[i] == 32 || t[i] == 9 || t[i] == 10 || t[i] == 12 || t[i] == 13 {
            if in_tok {
                let ghost tok = t@.subrange(tok_start as int, i as int);
                if k == 2 || k == 3 {
                    match read_number(t, tok_start, i) {
                        None => {
                            return None;
                        },
                        Some((neg, m)) => {
                            if neg || m > usize::MAX as u128 {
                                return None;
                            }
                            assert(count_of(tok) == Some(m as int));
                            if k == 2 {
                                found = m as usize;
                            }
                        },
                    }
                }
                k += 1;
                in_tok = false;
            }
            if i == end {
                if k >= 4 {
                    return Some(found);
                }
                return None;
            }
        } else if !in_tok {
            in_tok = true;
            tok_start = i;
        }
        i += 1;
    }
    None
}

/// Reads a DIMACS CNF text: the clauses in order, each with its zeros
/// dropped and none empty, and the variable count of the last header line
/// (0 without one). Fails on a header whose third or fourth field is no
/// unsigned count and on a clause field that is no 32-bit integer.
pub fn import_sat_formula(text: &Vec<u8>) -> (r: Result<(Vec<Vec<i32>>, usize), FormatError>)
    ensures
        match r {
            Ok((cs, n)) => parse_dimacs(text@) == Ok::<(Seq<Seq<i32>>, int), FormatError>(
                (views(cs@), n as int),
            ),
            Err(e) => parse_dimacs(text@) == Err::<(Seq<Seq<i32>>, int), FormatError>(e),
        },
{
    let ghost t = text@;
    let mut num_vars: usize = 0;
    let mut clauses: Vec<Vec<i32>> = Vec::new();
    let mut i: usize = 0;
    assert(views(clauses@) =~= Seq::<Seq<i32>>::empty());
    while i < text.len()
        invariant
            t == text@,
            i <= t.len(),
            parse_lines(t, i as int, num_vars as int, views(clauses@)) == parse_dimacs(t),
        decreases t.len() - i,
    {
        let e = find_line_end(text, i);
        let ghost cs0 = views(clauses@);
        let ghost nv0 = num_vars as int;
        if text[i] == 99 {
        } else if text[i] == 112 {
            match read_header(text, i, e, num_vars) {
                Some(v) => {
                    num_vars = v;
                },
                None => {
                    return Err(FormatError::MalformedHeader);
                },
            }
        } else {
            match read_clause(text, i, e) {
                Some(c) => {
                    if c.len() > 0 {
                        clauses.push(c);
                        assert(views(clauses@) =~= cs0.push(c@));
                    }
                },
                None => {
                    return Err(FormatError::MalformedLiteral);
                },
            }
        }
        assert(parse_lines(t, i as int, nv0, cs0) == parse_lines(
            t,
            e + 1,
            num_vars as int,
            views(clauses@),
        ));
        if e >= text.len() {
            assert(parse_lines(t, e + 1, num_vars as int, views(clauses@)) == parse_lines(
                t,
                t.len() as int,
                num_vars as int,
                views(clauses@),
            ));
            i = text.len();
        } else {
            i = e + 1;
        }
    }
    Ok((clauses, num_vars))
}

} // verus!
