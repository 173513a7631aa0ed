use logic_check::{FitchProof, Instruction, Line, LineRange, Logic, SubProof};

fn var(c: char) -> Logic {
    Logic::Variable(c)
}

fn not(a: Logic) -> Logic {
    Logic::Not(Box::new(a))
}

fn and(a: Logic, b: Logic) -> Logic {
    Logic::And(Box::new(a), Box::new(b))
}

fn or(a: Logic, b: Logic) -> Logic {
    Logic::Or(Box::new(a), Box::new(b))
}

fn implies(a: Logic, b: Logic) -> Logic {
    Logic::Implies(Box::new(a), Box::new(b))
}

fn leaf(f: Logic) -> Line {
    Line::Log(Box::new(f), None)
}

fn sub(lines: Vec<Line>) -> Line {
    Line::Sub(SubProof(lines))
}

fn fitch(premises: Vec<Logic>, body: Vec<Line>, goal: Logic) -> FitchProof {
    FitchProof { proof: SubProof(body), prepositions: premises, result: Box::new(goal) }
}

fn rule_of(line: &Line) -> Option<Instruction> {
    match line {
        Line::Log(_, t) => *t,
        Line::Sub(_) => None,
    }
}

fn inner(line: &Line) -> &SubProof {
    match line {
        Line::Sub(s) => s,
        Line::Log(_, _) => panic!("not a sub-proof"),
    }
}

fn range(start: usize, end: usize) -> LineRange {
    LineRange { start, end }
}

fn scenario_a() -> FitchProof {
    let p = var('p');
    let q = var('q');
    let goal = or(p.clone(), implies(p.clone(), q.clone()));
    fitch(
        vec![],
        vec![
            sub(vec![
                leaf(not(goal.clone())),
                sub(vec![leaf(p.clone()), leaf(goal.clone()), leaf(Logic::Bottom), leaf(q.clone())]),
                leaf(implies(p.clone(), q.clone())),
                leaf(goal.clone()),
                leaf(Logic::Bottom),
            ]),
            leaf(goal.clone()),
        ],
        goal,
    )
}

#[test]
fn nested_proof_by_contradiction() {
    let mut pf = scenario_a();
    assert_eq!(pf.verify(), Ok(true));
    let body = &pf.proof.0;
    let outer = inner(&body[0]);
    assert_eq!(rule_of(&outer.0[0]), Some(Instruction::Assumption));
    let deeper = inner(&outer.0[1]);
    assert_eq!(rule_of(&deeper.0[0]), Some(Instruction::Assumption));
    assert_eq!(rule_of(&deeper.0[1]), Some(Instruction::OrIntroLeft(2)));
    assert_eq!(rule_of(&deeper.0[2]), Some(Instruction::NotElim(3, 1)));
    assert_eq!(rule_of(&deeper.0[3]), Some(Instruction::BottomElim(4)));
    assert_eq!(rule_of(&outer.0[2]), Some(Instruction::ImplIntro(range(2, 5))));
    assert_eq!(rule_of(&outer.0[3]), Some(Instruction::OrIntroRight(6)));
    assert_eq!(rule_of(&outer.0[4]), Some(Instruction::NotElim(7, 1)));
    assert_eq!(rule_of(&body[1]), Some(Instruction::Pbc(range(1, 8))));
}

#[test]
fn blank_line_is_invalid() {
    let mut pf = fitch(vec![], vec![leaf(Logic::Empty)], var('a'));
    assert_eq!(pf.verify(), Ok(false));
    assert_eq!(rule_of(&pf.proof.0[0]), Some(Instruction::Invalid));
}

#[test]
fn contradiction_from_premises() {
    let a = var('a');
    let mut pf = fitch(vec![a.clone(), not(a.clone())], vec![leaf(Logic::Bottom)], Logic::Bottom);
    assert_eq!(pf.verify(), Ok(true));
    assert_eq!(rule_of(&pf.proof.0[0]), Some(Instruction::NotElim(1, 2)));
}

#[test]
fn and_elimination_left() {
    let a = var('a');
    let b = var('b');
    let mut pf = fitch(vec![and(a.clone(), b)], vec![leaf(a.clone())], a);
    assert_eq!(pf.verify(), Ok(true));
    assert_eq!(rule_of(&pf.proof.0[0]), Some(Instruction::AndElimLeft(1)));
}

#[test]
fn or_introduction_prefers_left() {
    let a = var('a');
    let c = var('c');
    let goal = or(a.clone(), c);
    let mut pf = fitch(vec![a], vec![leaf(goal.clone())], goal);
    assert_eq!(pf.verify(), Ok(true));
    assert_eq!(rule_of(&pf.proof.0[0]), Some(Instruction::OrIntroLeft(1)));
}

#[test]
fn excluded_middle_needs_no_premise() {
    let a = var('a');
    let goal = or(not(a.clone()), a);
    let mut pf = fitch(vec![], vec![leaf(goal.clone())], goal);
    assert_eq!(pf.verify(), Ok(true));
    assert_eq!(rule_of(&pf.proof.0[0]), Some(Instruction::Lem));
}
