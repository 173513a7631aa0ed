use logic_check::{Instruction, Line, LineRange, Logic, SubProof};

fn var(c: char) -> Logic {
    Logic::Variable(c)
}

#[test]
fn rule_names() {
    assert_eq!(Instruction::Assumption.to_string(), "ass");
    assert_eq!(Instruction::OrIntroLeft(3).to_string(), "∨l 3");
    assert_eq!(
        Instruction::OrElim(1, LineRange { start: 4, end: 5 }, LineRange { start: 16, end: 170 })
            .to_string(),
        "∨e 1 4-5 16-170"
    );
    assert_eq!(Instruction::ImplIntro(LineRange { start: 2, end: 10 }).to_string(), "→i 2-10");
    assert_eq!(Instruction::Pbc(LineRange { start: 1, end: 8 }).to_string(), "PBC 1-8");
    assert_eq!(Instruction::NotElim(7, 1).to_string(), "¬e 7 1");
    assert_eq!(Instruction::NotNotElim(12).to_string(), "¬¬e 12");
    assert_eq!(Instruction::Copy(0).to_string(), "copy 0");
    assert_eq!(Instruction::Invalid.to_string(), "🛑");
    assert_eq!(Instruction::Lem.to_string(), "LEM");
    assert_eq!(Instruction::Premise.to_string(), "pre");
    assert_eq!(Instruction::AndIntro(1, 2).to_string(), "∧i 1 2");
    assert_eq!(Instruction::BottomElim(9).to_string(), "⊥e 9");
}

#[test]
fn formulas_written_out() {
    let f = Logic::Or(
        Box::new(Logic::Not(Box::new(var('a')))),
        Box::new(Logic::And(Box::new(var('b')), Box::new(Logic::Bottom))),
    );
    assert_eq!(f.display(true), "(¬a) ∨ (b ∧ ⊥)");
    assert_eq!(f.display(false), "((¬a) ∨ (b ∧ ⊥))");
    assert_eq!(var('x').display(false), "x");
    assert_eq!(Logic::Empty.display(true), "×");
}

#[test]
fn numbered_listing() {
    let s = SubProof(vec![
        Line::Log(Box::new(var('a')), None),
        Line::Sub(SubProof(vec![Line::Log(Box::new(var('b')), Some(Instruction::Assumption))])),
    ]);
    let mut index = 4;
    let text = s.display(&mut index, 0);
    let expected = format!("  4: a{}\n  5: │ b{}ass\n", " ".repeat(26), " ".repeat(24));
    assert_eq!(text, expected);
    assert_eq!(index, 6);
}
