use logic_check::{FitchProof, Instruction, Line, LineRange, Logic, SubProof};

fn var(c: char) -> Logic {
    Logic::Variable(c)
}

fn not(a: Logic) -> Logic {
    Logic::Not(Box::new(a))
}

fn and(a: Logic, b: Logic) -> Logic {
    Logic::And(Box::new(a), Box::new(b))
}

fn or(a: Logic, b: Logic) -> Logic {
    Logic::Or(Box::new(a), Box::new(b))
}

fn implies(a: Logic, b: Logic) -> Logic {
    Logic::Implies(Box::new(a), Box::new(b))
}

fn leaf(f: Logic) -> Line {
    Line::Log(Box::new(f), None)
}

fn sub(lines: Vec<Line>) -> Line {
    Line::Sub(SubProof(lines))
}

fn fitch(premises: Vec<Logic>, body: Vec<Line>, goal: Logic) -> FitchProof {
    FitchProof { proof: SubProof(body), prepositions: premises, result: Box::new(goal) }
}

/// Every annotation of the body in line order, through nested sub-proofs.
fn rules(s: &SubProof) -> Vec<Option<Instruction>> {
    let mut out = Vec::new();
    for line in &s.0 {
        match line {
            Line::Sub(inner) => out.extend(rules(inner)),
            Line::Log(_, t) => out.push(*t),
        }
    }
    out
}

fn single(premises: Vec<Logic>, target: Logic) -> (Result<bool, String>, Option<Instruction>) {
    let mut pf = fitch(premises, vec![leaf(target.clone())], target);
    let r = pf.verify();
    (r, rules(&pf.proof)[0])
}

#[test]
fn copy_cites_most_recent_line() {
    let a = var('a');
    assert_eq!(single(vec![a.clone(), a.clone()], a), (Ok(true), Some(Instruction::Copy(2))));
}

#[test]
fn double_negation_elimination() {
    let a = var('a');
    assert_eq!(single(vec![not(not(a.clone()))], a), (Ok(true), Some(Instruction::NotNotElim(1))));
}

#[test]
fn double_negation_introduction() {
    let a = var('a');
    assert_eq!(single(vec![a.clone()], not(not(a))), (Ok(true), Some(Instruction::NotNotIntro(1))));
}

#[test]
fn and_introduction() {
    let (a, b) = (var('a'), var('b'));
    assert_eq!(
        single(vec![a.clone(), b.clone()], and(a, b)),
        (Ok(true), Some(Instruction::AndIntro(1, 2)))
    );
}

#[test]
fn and_introduction_missing_operand_is_invalid() {
    let (a, b) = (var('a'), var('b'));
    assert_eq!(single(vec![a.clone()], and(a, b)), (Ok(false), Some(Instruction::Invalid)));
}

#[test]
fn and_elimination_right() {
    let (a, b) = (var('a'), var('b'));
    assert_eq!(single(vec![and(a, b.clone())], b), (Ok(true), Some(Instruction::AndElimRight(1))));
}

#[test]
fn implication_elimination() {
    let (a, b) = (var('a'), var('b'));
    assert_eq!(
        single(vec![a.clone(), implies(a, b.clone())], b),
        (Ok(true), Some(Instruction::ImplElim(1, 2)))
    );
}

#[test]
fn bottom_elimination() {
    assert_eq!(single(vec![Logic::Bottom], var('z')), (Ok(true), Some(Instruction::BottomElim(1))));
}

#[test]
fn atom_without_support_is_invalid() {
    assert_eq!(single(vec![var('b')], var('a')), (Ok(false), Some(Instruction::Invalid)));
}

#[test]
fn or_introduction_right() {
    let (a, b) = (var('a'), var('b'));
    assert_eq!(single(vec![b.clone()], or(a, b)), (Ok(true), Some(Instruction::OrIntroRight(1))));
}

#[test]
fn negation_introduction() {
    let a = var('a');
    let mut pf = fitch(
        vec![implies(a.clone(), Logic::Bottom)],
        vec![sub(vec![leaf(a.clone()), leaf(Logic::Bottom)]), leaf(not(a.clone()))],
        not(a),
    );
    assert_eq!(pf.verify(), Ok(true));
    assert_eq!(
        rules(&pf.proof),
        vec![
            Some(Instruction::Assumption),
            Some(Instruction::ImplElim(2, 1)),
            Some(Instruction::NotIntro(LineRange { start: 2, end: 3 })),
        ]
    );
}

#[test]
fn or_elimination_over_two_cases() {
    let (a, b, c) = (var('a'), var('b'), var('c'));
    let mut pf = fitch(
        vec![or(a.clone(), b.clone()), implies(a.clone(), c.clone()), implies(b.clone(), c.clone())],
        vec![
            sub(vec![leaf(a.clone()), leaf(c.clone())]),
            sub(vec![leaf(b.clone()), leaf(c.clone())]),
            leaf(c.clone()),
        ],
        c,
    );
    assert_eq!(pf.verify(), Ok(true));
    assert_eq!(
        rules(&pf.proof),
        vec![
            Some(Instruction::Assumption),
            Some(Instruction::ImplElim(4, 2)),
            Some(Instruction::Assumption),
            Some(Instruction::ImplElim(6, 3)),
            Some(Instruction::OrElim(
                1,
                LineRange { start: 4, end: 5 },
                LineRange { start: 6, end: 7 }
            )),
        ]
    );
}

#[test]
fn or_elimination_needs_both_cases() {
    let (a, b, c) = (var('a'), var('b'), var('c'));
    let mut pf = fitch(
        vec![or(a.clone(), b.clone()), implies(a.clone(), c.clone())],
        vec![sub(vec![leaf(a.clone()), leaf(c.clone())]), leaf(c.clone())],
        c,
    );
    assert_eq!(pf.verify(), Ok(false));
    assert_eq!(rules(&pf.proof)[2], Some(Instruction::Invalid));
}

#[test]
fn closed_sub_proof_lines_are_out_of_scope() {
    let a = var('a');
    let mut pf = fitch(vec![], vec![sub(vec![leaf(a.clone())]), leaf(a.clone())], a.clone());
    assert_eq!(pf.verify(), Ok(false));
    assert_eq!(rules(&pf.proof), vec![Some(Instruction::Assumption), Some(Instruction::Invalid)]);
    let mut discharged =
        fitch(vec![], vec![sub(vec![leaf(a.clone())]), leaf(implies(a.clone(), a.clone()))], implies(a.clone(), a));
    assert_eq!(discharged.verify(), Ok(true));
    assert_eq!(
        rules(&discharged.proof)[1],
        Some(Instruction::ImplIntro(LineRange { start: 1, end: 1 }))
    );
}

#[test]
fn sub_proof_opening_with_sub_proof_has_no_discharge() {
    let a = var('a');
    let mut pf = fitch(
        vec![],
        vec![sub(vec![sub(vec![leaf(a.clone())]), leaf(a.clone())]), leaf(implies(a.clone(), a.clone()))],
        implies(a.clone(), a),
    );
    assert_eq!(pf.verify(), Ok(false));
    assert_eq!(
        rules(&pf.proof),
        vec![Some(Instruction::Assumption), Some(Instruction::Invalid), Some(Instruction::Invalid)]
    );
}

#[test]
fn last_line_must_equal_goal() {
    let a = var('a');
    let mut pf = fitch(vec![a.clone()], vec![leaf(a.clone())], var('b'));
    assert_eq!(pf.verify(), Ok(false));
    assert_eq!(rules(&pf.proof), vec![Some(Instruction::Copy(1))]);
}

#[test]
fn proof_ending_in_sub_proof_is_incomplete() {
    let a = var('a');
    let mut pf = fitch(vec![], vec![sub(vec![leaf(a.clone())])], a);
    assert_eq!(pf.verify(), Ok(false));
}

#[test]
fn reverifying_changes_nothing() {
    let (a, b, c) = (var('a'), var('b'), var('c'));
    let mut pf = fitch(
        vec![or(a.clone(), b.clone()), implies(a.clone(), c.clone())],
        vec![sub(vec![leaf(a.clone()), leaf(c.clone())]), leaf(c.clone()), leaf(Logic::Empty)],
        c,
    );
    let first = pf.verify();
    let rules_first = rules(&pf.proof);
    let second = pf.verify();
    assert_eq!(first, second);
    assert_eq!(rules_first, rules(&pf.proof));
    assert_eq!(first, Ok(false));
}

#[test]
fn premises_are_numbered_from_one_whatever_they_hold() {
    let pf = fitch(vec![Logic::Empty, var('a'), Logic::Bottom], vec![leaf(Logic::Empty)], var('a'));
    let lines = pf.premise_lines();
    assert_eq!(rules(&lines), vec![Some(Instruction::Premise); 3]);
    let mut second = fitch(vec![Logic::Empty, var('a')], vec![leaf(var('a'))], var('a'));
    assert_eq!(second.verify(), Ok(true));
    assert_eq!(rules(&second.proof), vec![Some(Instruction::Copy(2))]);
}

#[test]
fn body_numbering_continues_after_premises() {
    let a = var('a');
    let mut pf = fitch(
        vec![var('x'), var('y')],
        vec![leaf(a.clone()), leaf(a.clone())],
        a,
    );
    assert_eq!(pf.verify(), Ok(false));
    assert_eq!(rules(&pf.proof), vec![Some(Instruction::Invalid), Some(Instruction::Copy(3))]);
}

#[test]
fn reverified_proof_is_identical() {
    let a = var('a');
    let mut pf = fitch(
        vec![a.clone()],
        vec![sub(vec![leaf(var('b')), leaf(a.clone())]), leaf(implies(var('b'), a.clone()))],
        implies(var('b'), a),
    );
    assert_eq!(pf.verify(), Ok(true));
    let once = pf.clone();
    assert_eq!(pf.verify(), Ok(true));
    assert!(once == pf);
}

#[test]
fn replaced_discharge_fact_is_not_a_second_case() {
    let a = var('a');
    let mut pf = fitch(
        vec![or(a.clone(), a.clone())],
        vec![sub(vec![leaf(a.clone())]), sub(vec![leaf(a.clone())]), leaf(a.clone())],
        a,
    );
    assert_eq!(pf.verify(), Ok(false));
    assert_eq!(
        rules(&pf.proof),
        vec![Some(Instruction::Assumption), Some(Instruction::Assumption), Some(Instruction::Invalid)]
    );
}

#[test]
fn later_equal_line_replaces_the_earlier_fact() {
    let (a, b) = (var('a'), var('b'));
    let mut pf = fitch(
        vec![and(a.clone(), b.clone()), a.clone()],
        vec![leaf(a.clone()), leaf(a.clone())],
        a,
    );
    assert_eq!(pf.verify(), Ok(true));
    assert_eq!(rules(&pf.proof), vec![Some(Instruction::Copy(2)), Some(Instruction::Copy(3))]);
}
