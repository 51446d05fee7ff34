use eqsol::{
    extract, identifier_runs, replace, residual_sides, split_equation, split_lines, unique_names, EqnParser,
    EvaluationError, Knowns, Move, ParseError, Resolver, Search, Step, HALVINGS, MAX_ADVANCES,
};
use shunting::{MathContext, RPNExpr};

fn eval(e: &RPNExpr) -> Result<f64, EvaluationError> {
    MathContext::new().eval(e).map_err(EvaluationError::Rejected)
}

fn residual(equation: &str, unknown: &str, x: f64) -> Result<f64, EvaluationError> {
    let sides = residual_sides(equation, unknown, &x.to_string())?;
    Ok((eval(&sides.lhs)? - eval(&sides.rhs)?).abs())
}

fn solve(equation: &str, unknown: &str) -> Result<Option<f64>, EvaluationError> {
    let mut x: f64 = -1e20;
    let mut dx: f64 = (-2.0 * x) / 4.0;
    let mut search = Search::new();
    loop {
        let improves = if search.wants_probe() {
            residual(equation, unknown, x)? > residual(equation, unknown, x + dx)?
        } else {
            false
        };
        match search.next_move(improves) {
            Move::Advance => x += dx,
            Move::Turn => {
                x += dx;
                dx *= -0.5;
            }
            Move::Finish => {
                dx *= -2.0;
                x += dx;
                return Ok(Some(x));
            }
            Move::GiveUp => return Ok(None),
        }
    }
}

fn run(lines: &[&str]) -> Result<Resolver, EvaluationError> {
    let mut resolver = Resolver::new(lines.iter().map(|l| l.to_string()).collect());
    loop {
        match resolver.next_step().expect("equation lines hold one '='") {
            Step::Solve { equation, unknown } => {
                if let Some(v) = solve(&equation, &unknown)? {
                    resolver.record(unknown, v.to_string());
                }
            }
            Step::Converged => return Ok(resolver),
        }
    }
}

fn value(k: &Knowns, name: &str) -> Option<f64> {
    (0..k.len()).find(|&i| k.name_at(i) == name).map(|i| k.value_at(i).parse().unwrap())
}

fn names(k: &Knowns) -> Vec<String> {
    (0..k.len()).map(|i| k.name_at(i).clone()).collect()
}

#[test]
fn extract_empty_text() {
    assert!(extract("").is_empty());
}

#[test]
fn extract_skips_digits() {
    assert_eq!(extract("x1 + y"), vec!["x".to_string(), "y".to_string()]);
}

#[test]
fn extract_keeps_first_occurrence_order() {
    assert_eq!(extract("b*a + a_1 - B^b"), vec!["b", "a", "a_", "B"]);
    assert_eq!(identifier_runs("b*a + a - b"), vec!["b", "a", "a", "b"]);
}

#[test]
fn extract_is_idempotent_on_its_output() {
    let once = extract("speed = dist / time + dist");
    assert_eq!(once, vec!["speed", "dist", "time"]);
    assert_eq!(extract(&once.join(" ")), once);
    assert_eq!(unique_names(&once), once);
}

#[test]
fn unique_names_drops_repeats() {
    let runs: Vec<String> = vec!["a".into(), "b".into(), "a".into(), "c".into(), "b".into()];
    assert_eq!(unique_names(&runs), vec!["a", "b", "c"]);
}

#[test]
fn replace_every_occurrence() {
    assert_eq!(replace("x + x*y", "x", "4"), "4 + 4*y");
    assert_eq!(replace("aaa", "aa", "b"), "ba");
    assert_eq!(replace("max", "x", "2"), "ma2");
    assert_eq!(replace("abc", "", "z"), "abc");
}

#[test]
fn split_at_the_only_equals() {
    assert_eq!(split_equation("a = b + 1"), Some(("a ".to_string(), " b + 1".to_string())));
    assert_eq!(split_equation("a + 1"), None);
    assert_eq!(split_equation("a = b = c"), None);
}

#[test]
fn analyzer_single_unknown_is_solvable() {
    let p = EqnParser::new("x = 4".to_string(), &Knowns::new()).unwrap();
    assert_eq!(p.get_unknowns(), vec!["x"]);
    assert!(p.is_solvable());
    assert_eq!(p.unknown(), Some("x".to_string()));
}

#[test]
fn analyzer_fully_known_is_not_solvable() {
    let mut k = Knowns::new();
    assert!(k.insert("x".to_string(), "4".to_string()));
    let p = EqnParser::new("x = 4".to_string(), &k).unwrap();
    assert_eq!(p.equation(), "4 = 4");
    assert!(p.get_unknowns().is_empty());
    assert!(!p.is_solvable());
}

#[test]
fn analyzer_rejects_one_unknown_on_both_sides() {
    let p = EqnParser::new("x - y = x - 3".to_string(), &Knowns::new()).unwrap();
    assert_eq!(p.get_unknowns(), vec!["x", "y"]);
    assert!(!p.is_solvable());
    let q = EqnParser::new("x + 1 = x + 2".to_string(), &Knowns::new()).unwrap();
    assert_eq!(q.lhs_unknowns(), &vec!["x".to_string()]);
    assert_eq!(q.rhs_unknowns(), &vec!["x".to_string()]);
    assert!(q.is_solvable());
}

#[test]
fn analyzer_substitutes_each_side() {
    let mut k = Knowns::new();
    k.insert("a".to_string(), "5".to_string());
    let p = EqnParser::new("b = a + 3".to_string(), &k).unwrap();
    assert_eq!(p.equation(), "b = 5 + 3");
    assert_eq!(p.get_variables(), vec!["b"]);
    assert!(p.rhs_unknowns().is_empty());
    assert!(p.is_solvable());
}

#[test]
fn analyzer_parse_error_on_equals_count() {
    let e = EqnParser::new("a = b = 2".to_string(), &Knowns::new()).err();
    assert_eq!(e, Some(ParseError::NotOneEquals("a = b = 2".to_string())));
    assert!(EqnParser::new("a + b".to_string(), &Knowns::new()).is_err());
}

#[test]
fn knowns_first_value_wins() {
    let mut k = Knowns::new();
    assert!(k.insert("a".to_string(), "1".to_string()));
    assert!(!k.insert("a".to_string(), "2".to_string()));
    assert_eq!(k.len(), 1);
    assert_eq!(k.value_at(0), "1");
    assert!(k.contains("a"));
    assert!(!k.contains("b"));
    assert_eq!(k.substitute_into("a + ab"), "1 + ab");
    assert_eq!(k.lookup("a"), Some(&"1".to_string()));
    assert_eq!(k.lookup("ab"), None);
}

#[test]
fn residual_zero_at_root() {
    assert_eq!(residual("x=4", "x", 4.0).unwrap(), 0.0);
}

#[test]
fn residual_one_off_root() {
    assert_eq!(residual("x=4", "x", 5.0).unwrap(), 1.0);
}

#[test]
fn residual_sides_write_in_the_trial_value() {
    let r = residual_sides("2*x = x + 3", "x", "1.5").unwrap();
    assert_eq!(r.lhs_text, "2*1.5 ");
    assert_eq!(r.rhs_text, " 1.5 + 3");
}

#[test]
fn residual_empty_side_is_an_error() {
    assert_eq!(residual_sides("x = ", "x", "4").err(), Some(EvaluationError::EmptySide(" ".to_string())));
    assert!(matches!(residual("x = ", "x", 4.0), Err(EvaluationError::EmptySide(_))));
}

#[test]
fn residual_malformed_side_is_an_error() {
    assert!(matches!(residual_sides("x = (4", "x", "1"), Err(EvaluationError::Malformed(_))));
    assert_eq!(residual_sides("x + 4", "x", "1").err(), Some(EvaluationError::NoSides));
}

#[test]
fn residual_unresolved_name_is_an_error() {
    assert!(matches!(residual("x = y", "x", 1.0), Err(EvaluationError::Rejected(_))));
}

#[test]
fn solve_identity() {
    let x = solve("x=4", "x").unwrap().unwrap();
    assert!((x - 4.0).abs() < 1e-9);
}

#[test]
fn solve_linear() {
    let x = solve("2*x=10", "x").unwrap().unwrap();
    assert!((x - 5.0).abs() < 1e-9);
}

#[test]
fn search_moves() {
    let mut s = Search::new();
    assert!(s.wants_probe());
    assert_eq!(s.next_move(true), Move::Advance);
    assert_eq!(s.next_move(false), Move::Turn);
    for _ in 1..HALVINGS {
        assert_eq!(s.next_move(false), Move::Turn);
    }
    assert!(!s.wants_probe());
    assert_eq!(s.next_move(true), Move::Finish);
}

#[test]
fn search_gives_up_on_endless_descent() {
    let mut s = Search::new();
    for _ in 0..MAX_ADVANCES {
        assert_eq!(s.next_move(true), Move::Advance);
    }
    assert_eq!(s.next_move(true), Move::GiveUp);
    assert_eq!(s.next_move(false), Move::Turn);
    assert_eq!(s.next_move(true), Move::Advance);
}

#[test]
fn driver_chain_in_order() {
    let r = run(&["a = 5", "b = a + 3"]).unwrap();
    assert!((value(r.known(), "a").unwrap() - 5.0).abs() < 1e-9);
    assert!((value(r.known(), "b").unwrap() - 8.0).abs() < 1e-9);
    assert_eq!(r.known().len(), 2);
    assert!(r.passes() <= 2);
}

#[test]
fn driver_chain_out_of_order() {
    for lines in [["a = b", "b = 2"], ["b = 2", "a = b"]] {
        let r = run(&lines).unwrap();
        assert!((value(r.known(), "a").unwrap() - 2.0).abs() < 1e-9);
        assert!((value(r.known(), "b").unwrap() - 2.0).abs() < 1e-9);
        assert_eq!(r.known().len(), 2);
    }
}

#[test]
fn driver_extra_pass_changes_nothing() {
    let mut r = run(&["a = b", "b = 2", "c = a * b"]).unwrap();
    let before: Vec<(String, String)> =
        (0..r.known().len()).map(|i| (r.known().name_at(i).clone(), r.known().value_at(i).clone())).collect();
    assert_eq!(r.next_step(), Ok(Step::Converged));
    assert!(!r.record("a".to_string(), "7".to_string()));
    let after: Vec<(String, String)> =
        (0..r.known().len()).map(|i| (r.known().name_at(i).clone(), r.known().value_at(i).clone())).collect();
    assert_eq!(before, after);
    assert_eq!(names(r.known()), vec!["b", "a", "c"]);
}

#[test]
fn driver_skips_lines_without_equals() {
    let r = run(&["notes on the system", "", "x = 3"]).unwrap();
    assert_eq!(names(r.known()), vec!["x"]);
}

#[test]
fn driver_leaves_two_unknowns_unsolved() {
    let r = run(&["x + y = 3"]).unwrap();
    assert_eq!(r.known().len(), 0);
    assert_eq!(r.passes(), 1);
}

#[test]
fn driver_reports_parse_error() {
    let mut r = Resolver::new(vec!["a = 1 = 2".to_string()]);
    assert_eq!(r.next_step(), Err(ParseError::NotOneEquals("a = 1 = 2".to_string())));
}

#[test]
fn driver_empty_right_side_is_an_evaluation_error() {
    assert!(matches!(run(&["x = "]), Err(EvaluationError::EmptySide(_))));
}

#[test]
fn split_lines_keeps_empty_pieces() {
    assert_eq!(split_lines("a = 1\n\nb = a\n"), vec!["a = 1", "", "b = a", ""]);
    assert_eq!(split_lines(""), vec![""]);
}

#[test]
fn driver_from_text() {
    let mut r = Resolver::from_text("b = a * 2\na = 1.5\n");
    let mut solved = Vec::new();
    loop {
        match r.next_step().unwrap() {
            Step::Solve { equation, unknown } => {
                let v = solve(&equation, &unknown).unwrap().unwrap();
                solved.push(equation);
                r.record(unknown, v.to_string());
            }
            Step::Converged => break,
        }
    }
    let a = r.known().value_at(0).clone();
    assert_eq!(solved, vec!["a = 1.5".to_string(), format!("b = {} * 2", a)]);
    assert!((value(r.known(), "b").unwrap() - 3.0).abs() < 1e-9);
    assert_eq!(r.passes(), 3);
}

#[test]
fn substitution_replaces_whole_names_only() {
    let mut k = Knowns::new();
    k.insert("x".to_string(), "4".to_string());
    assert_eq!(k.substitute_into("max + x*x_1 - (x)"), "max + 4*x_1 - (4)");
    let p = EqnParser::new("max = x".to_string(), &k).unwrap();
    assert_eq!(p.equation(), "max = 4");
    assert_eq!(p.get_unknowns(), vec!["max"]);
    assert!(p.is_solvable());
}

#[test]
fn analyzer_longer_name_is_not_a_known_one() {
    let mut k = Knowns::new();
    k.insert("x".to_string(), "4".to_string());
    let p = EqnParser::new("xy = y".to_string(), &k).unwrap();
    assert_eq!(p.get_unknowns(), vec!["xy", "y"]);
    assert!(!p.is_solvable());
}

#[test]
fn knowns_refuse_value_text_with_letters() {
    let mut k = Knowns::new();
    assert!(!k.insert("a".to_string(), "NaN".to_string()));
    assert!(!k.insert("b".to_string(), "inf".to_string()));
    assert!(!k.insert("d".to_string(), "=".to_string()));
    assert!(!k.insert("e".to_string(), "".to_string()));
    assert!(!k.insert("f".to_string(), "1e5".to_string()));
    assert!(k.insert("c".to_string(), "-2.5".to_string()));
    assert_eq!(k.len(), 1);
}

#[test]
fn extract_takes_ascii_letters_only() {
    assert_eq!(extract("\u{17F}t + 3\u{212A}"), vec!["t"]);
    assert!(extract("\u{17F}").is_empty());
    assert!(identifier_runs("\u{212A} = 1").is_empty());
}

#[test]
fn residual_imaginary_suffix_is_malformed() {
    assert!(matches!(residual_sides("x = 2i", "y", "1"), Err(EvaluationError::Malformed(_))));
    assert!(matches!(residual_sides("3.5in = x", "x", "1"), Err(EvaluationError::Malformed(_))));
    assert!(matches!(residual_sides("x = 1e3i", "x", "1"), Err(EvaluationError::Malformed(_))));
}

#[test]
fn driver_counts_requests_of_the_pass() {
    let mut r = Resolver::from_text("a = 1\nb = a + c");
    assert_eq!(r.asked_in_pass(), 0);
    match r.next_step().unwrap() {
        Step::Solve { unknown, .. } => assert!(r.record(unknown, "1".to_string())),
        Step::Converged => panic!("a is solvable"),
    }
    assert_eq!(r.asked_in_pass(), 1);
    assert_eq!(r.next_step(), Ok(Step::Converged));
    assert_eq!(r.passes(), 2);
    assert_eq!(r.asked_in_pass(), 0);
}
