use sls_sat::solution::render_solution;
use sls_sat::cnf::is_valid_formula;
use sls_sat::dimacs::{import_sat_formula, FormatError};

fn read(text: &str) -> Result<(Vec<Vec<i32>>, usize), FormatError> {
    import_sat_formula(&text.as_bytes().to_vec())
}

#[test]
fn reads_header_comments_and_clauses() {
    let (clauses, num_vars) = read("c a comment\np cnf 3 2\n1 -3 0\n2 3 -1 0\n").ok().unwrap();
    assert_eq!(num_vars, 3);
    assert_eq!(clauses, vec![vec![1, -3], vec![2, 3, -1]]);
}

#[test]
fn skips_empty_and_zero_only_lines() {
    let (clauses, num_vars) = read("p cnf 2 1\n\n0\n  \n-1 2 0").ok().unwrap();
    assert_eq!(num_vars, 2);
    assert_eq!(clauses, vec![vec![-1, 2]]);
}

#[test]
fn accepts_carriage_returns_and_tabs() {
    let (clauses, num_vars) = read("p cnf 2 1\r\n1\t-2 0\r\n").ok().unwrap();
    assert_eq!(num_vars, 2);
    assert_eq!(clauses, vec![vec![1, -2]]);
}

#[test]
fn reads_signs_and_extremes() {
    let (clauses, num_vars) = read("p cnf +4 1\n+4 -2147483648 2147483647 -0 0\n").ok().unwrap();
    assert_eq!(num_vars, 4);
    assert_eq!(clauses, vec![vec![4, -2147483648, 2147483647]]);
}

#[test]
fn text_without_header_has_no_variables() {
    let (clauses, num_vars) = read("1 2 0\n").ok().unwrap();
    assert_eq!(num_vars, 0);
    assert_eq!(clauses, vec![vec![1, 2]]);
    assert_eq!(read("").ok().unwrap(), (vec![], 0));
}

#[test]
fn rejects_bad_headers() {
    assert!(matches!(read("p cnf x 2\n"), Err(FormatError::MalformedHeader)));
    assert!(matches!(read("p cnf 3\n"), Err(FormatError::MalformedHeader)));
    assert!(matches!(read("p cnf 3 y\n"), Err(FormatError::MalformedHeader)));
    assert!(matches!(read("p cnf -3 2\n"), Err(FormatError::MalformedHeader)));
}

#[test]
fn rejects_bad_literals() {
    assert!(matches!(read("p cnf 2 1\n1 a 0\n"), Err(FormatError::MalformedLiteral)));
    assert!(matches!(read("1 2147483648 0\n"), Err(FormatError::MalformedLiteral)));
    assert!(matches!(read("1 - 0\n"), Err(FormatError::MalformedLiteral)));
    assert!(matches!(read("1 99999999999999999999999 0\n"), Err(FormatError::MalformedLiteral)));
}

#[test]
fn validity_of_formulas() {
    assert!(is_valid_formula(2, &vec![vec![1, -2], vec![2]]));
    assert!(is_valid_formula(0, &vec![]));
    assert!(!is_valid_formula(2, &vec![vec![1, 3]]));
    assert!(!is_valid_formula(2, &vec![vec![1], vec![]]));
    assert!(!is_valid_formula(2, &vec![vec![0]]));
}

#[test]
fn renders_solution_text() {
    let text = render_solution(&vec![false, true, false]);
    assert_eq!(String::from_utf8(text).unwrap(), "s SATISFIABLE\nv 1 -2 0");
    let mut a = vec![false; 13];
    a[10] = true;
    let text = String::from_utf8(render_solution(&a)).unwrap();
    assert_eq!(text, "s SATISFIABLE\nv -1 -2 -3 -4 -5 -6 -7 -8 -9 10 -11 -12 0");
    assert_eq!(String::from_utf8(render_solution(&vec![false])).unwrap(), "s SATISFIABLE\nv 0");
}
