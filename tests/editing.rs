use logic_check::edit::empty;
use logic_check::{Line, Logic, SelectType, SubProof};

fn var(c: char) -> Logic {
    Logic::Variable(c)
}

fn leaf(f: Logic) -> Line {
    Line::Log(Box::new(f), None)
}

fn and(a: Logic, b: Logic) -> Logic {
    Logic::And(Box::new(a), Box::new(b))
}

fn sample() -> SubProof {
    SubProof(vec![
        leaf(and(var('a'), Logic::Empty)),
        Line::Sub(SubProof(vec![leaf(var('b')), leaf(Logic::Empty)])),
        leaf(Logic::Not(Box::new(var('c')))),
    ])
}

#[test]
fn replace_then_read_gives_the_new_formula() {
    let mut s = sample();
    let f = Logic::Implies(Box::new(var('p')), Box::new(var('q')));
    assert!(s.replace_formula(&[0, 1], f.clone()));
    assert_eq!(s.formula_at(&[0, 1]), Some(f.clone()));
    assert_eq!(s.formula_at(&[0]), Some(and(var('a'), f.clone())));
    assert!(s.replace_formula(&[1, 1], f.clone()));
    assert_eq!(s.formula_at(&[1, 1]), Some(f.clone()));
    assert!(s.replace_formula(&[2, 0], var('d')));
    assert_eq!(s.formula_at(&[2]), Some(Logic::Not(Box::new(var('d')))));
}

#[test]
fn replace_at_a_dead_path_changes_nothing() {
    let mut s = sample();
    assert!(!s.replace_formula(&[5], var('x')));
    assert!(!s.replace_formula(&[0, 2], var('x')));
    assert!(!s.replace_formula(&[1], var('x')));
    assert!(!s.replace_formula(&[], var('x')));
    assert_eq!(s.formula_at(&[0]), Some(and(var('a'), Logic::Empty)));
    assert_eq!(s.len(), 4);
}

#[test]
fn length_counts_formula_lines_only() {
    assert_eq!(sample().len(), 4);
    assert_eq!(SubProof(vec![]).len(), 0);
}

#[test]
fn wrap_line_as_sub_proof() {
    let mut s = sample();
    s.make_sub_proof(&[2]);
    assert_eq!(s.select_type(&[2]), Some(SelectType::SubProof));
    assert_eq!(s.formula_at(&[2, 0]), Some(Logic::Empty));
    assert_eq!(s.len(), 4);
    s.make_sub_proof(&[1, 0]);
    assert_eq!(s.formula_at(&[1, 0, 0]), Some(Logic::Empty));
    s.make_sub_proof(&[9]);
    assert_eq!(s.len(), 4);
}

#[test]
fn remove_lines() {
    let mut s = sample();
    s.remove_line(&[1, 0]);
    assert_eq!(s.len(), 3);
    assert_eq!(s.formula_at(&[1, 0]), Some(Logic::Empty));
    s.remove_line(&[0]);
    assert_eq!(s.len(), 2);
    s.remove_line(&[7]);
    s.remove_line(&[]);
    assert_eq!(s.len(), 2);
}

#[test]
fn select_types() {
    let s = sample();
    assert_eq!(s.select_type(&[]), Some(SelectType::SubProof));
    assert_eq!(s.select_type(&[1]), Some(SelectType::SubProof));
    assert_eq!(s.select_type(&[0, 1]), Some(SelectType::Term));
    assert_eq!(s.select_type(&[0, 2]), None);
    assert_eq!(s.select_type(&[3]), None);
}

#[test]
fn next_selection_finds_the_empty_slot() {
    let mut pf = empty();
    pf.proof = sample();
    assert_eq!(pf.next_select(&[0]), Some(vec![0, 1]));
    assert_eq!(pf.next_select(&[1, 0]), Some(vec![1, 1]));
    assert_eq!(pf.next_select(&[2]), None);
    assert_eq!(pf.next_select(&[]), None);
}

#[test]
fn stats_count_lines_terms_and_sub_proofs() {
    let s = sample();
    let st = s.stats();
    assert_eq!(st.lines, 5);
    assert_eq!(st.terms, 5);
    assert_eq!(st.sub_proofs, 1);
}

#[test]
fn fresh_puzzle() {
    let mut pf = empty();
    assert_eq!(pf.proof.len(), 1);
    assert!(pf.prepositions.is_empty());
    assert_eq!(pf.result.display(true), "p ∨ (p → q)");
    assert_eq!(pf.verify(), Ok(false));
}

#[test]
fn formula_sizes() {
    assert_eq!(and(var('a'), Logic::Empty).size(), 2);
    assert_eq!(Logic::Not(Box::new(Logic::Bottom)).size(), 2);
}

#[test]
fn append_lines() {
    let mut s = sample();
    assert_eq!(s.push_line(&[]), Some(3));
    assert_eq!(s.formula_at(&[3]), Some(Logic::Empty));
    assert_eq!(s.push_line(&[1]), Some(2));
    assert_eq!(s.formula_at(&[1, 2]), Some(Logic::Empty));
    assert_eq!(s.push_line(&[0]), None);
    assert_eq!(s.push_line(&[8]), None);
    assert_eq!(s.len(), 6);
}

#[test]
fn copies_are_equal_and_independent() {
    let s = sample();
    let mut t = s.clone();
    assert!(s == t);
    assert!(t.replace_formula(&[2, 0], var('z')));
    assert!(s != t);
    let pf = empty();
    let mut other = pf.clone();
    assert!(pf == other);
    other.verify().unwrap();
    assert!(pf != other);
}

#[test]
fn negation_has_only_position_zero() {
    let mut s = sample();
    assert_eq!(s.formula_at(&[2, 0]), Some(var('c')));
    assert_eq!(s.formula_at(&[2, 1]), None);
    assert_eq!(s.select_type(&[2, 1]), None);
    assert!(!s.replace_formula(&[2, 1], var('x')));
    assert_eq!(s.formula_at(&[2]), Some(Logic::Not(Box::new(var('c')))));
    let mut n = Logic::Not(Box::new(Logic::Bottom));
    assert!(n.get_mut(1).is_none());
    assert!(n.get_mut(0).is_some());
}

#[test]
fn default_sub_proof_is_one_empty_line() {
    let s = SubProof::default();
    assert_eq!(s.len(), 1);
    assert_eq!(s.formula_at(&[0]), Some(Logic::Empty));
}
