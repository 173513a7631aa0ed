//! The verification pass over a whole proof tree.
use vstd::prelude::*;

use crate::formula::Logic;
use crate::rules::{
    keys_unique, lemma_register, register, register_fact, rule, rule_for, scopes, Fact, State,
};
use crate::tree::{
    leaves, lemma_view, row_leaves, rows_of, FitchProof, Instruction, Line, Row, SubProof,
};

verus! {

/// What a pass over the first lines of a list has produced: their annotated
/// views, the facts of the list's own scope, and the last line number used.
pub struct Pass {
    pub rows: Seq<Row>,
    pub top: Seq<Fact>,
    pub index: int,
}

/// The plain fact that line `n` holds `f`.
pub open spec fn plain(f: Logic, n: int) -> Fact {
    Fact { formula: f, conclusion: None, start: n as usize, end: 0 }
}

/// The discharge fact of a closed sub-proof whose lines are numbered from
/// `first_line` to `last_line`: only where its first and last lines are
/// formulas.
pub open spec fn discharge(s: Seq<Row>, first_line: int, last_line: int) -> Option<Fact> {
    if s.len() > 0 {
        match (s[0], s.last()) {
            (Row::Leaf(a, _), Row::Leaf(b, _)) => Some(
                Fact {
                    formula: a,
                    conclusion: Some(b),
                    start: first_line as usize,
                    end: last_line as usize,
                },
            ),
            _ => None,
        }
    } else {
        None
    }
}

/// The pass over the first `k` lines of `rows`, a list whose scope sits on
/// the scopes `below` and starts with the facts `top`; `index` is the line
/// number used last before it; `nested` tells whether the list is a
/// sub-proof, whose first formula is then an assumption.
pub open spec fn pass(
    rows: Seq<Row>,
    k: int,
    nested: bool,
    below: Seq<Seq<Fact>>,
    top: Seq<Fact>,
    index: int,
) -> Pass
    decreases rows, k,
{
    if k <= 0 || k > rows.len() {
        Pass { rows: Seq::empty(), top, index }
    } else {
        let p = pass(rows, k - 1, nested, below, top, index);
        match rows[k - 1] {
            Row::Leaf(f, _) => {
                let n = p.index + 1;
                let inst = if k == 1 && nested {
                    Instruction::Assumption
                } else {
                    rule(below.push(p.top), f)
                };
                Pass {
                    rows: p.rows.push(Row::Leaf(f, Some(inst))),
                    top: register(p.top, plain(f, n)),
                    index: n,
                }
            },
            Row::Block(s) => {
                let q = pass(s, s.len() as int, true, below.push(p.top), Seq::empty(), p.index);
                let top2 = match discharge(s, p.index + 1, q.index) {
                    Some(d) => register(p.top, d),
                    None => p.top,
                };
                Pass { rows: p.rows.push(Row::Block(q.rows)), top: top2, index: q.index }
            },
        }
    }
}

/// A pass numbers each formula line once.
pub proof fn lemma_pass_index(
    rows: Seq<Row>,
    k: int,
    nested: bool,
    below: Seq<Seq<Fact>>,
    top: Seq<Fact>,
    index: int,
)
    requires
        0 <= k <= rows.len(),
    ensures
        pass(rows, k, nested, below, top, index).index == index + leaves(rows.take(k)),
        pass(rows, k, nested, below, top, index).rows.len() == k,
    decreases rows, k,
{
    if k > 0 {
        lemma_pass_index(rows, k - 1, nested, below, top, index);
        assert(rows.take(k).drop_last() =~= rows.take(k - 1));
        let p = pass(rows, k - 1, nested, below, top, index);
        assert(rows.take(k).last() == rows[k - 1]);
        assert(leaves(rows.take(k)) == leaves(rows.take(k - 1)) + row_leaves(rows[k - 1]));
        if let Row::Block(s) = rows[k - 1] {
            lemma_pass_index(s, s.len() as int, true, below.push(p.top), Seq::empty(), p.index);
            assert(s.take(s.len() as int) =~= s);
        }
    } else {
        assert(rows.take(0) =~= Seq::<Row>::empty());
    }
}

/// Formula lines of a prefix are no more than those of the whole list.
pub proof fn lemma_leaves_take(rows: Seq<Row>, k: int)
    requires
        0 <= k <= rows.len(),
    ensures
        leaves(rows.take(k)) <= leaves(rows),
        k < rows.len() ==> leaves(rows.take(k + 1)) == leaves(rows.take(k)) + row_leaves(rows[k]),
    decreases rows.len(),
{
    if k < rows.len() {
        assert(rows.take(k + 1).drop_last() =~= rows.take(k));
        lemma_leaves_take(rows.drop_last(), k);
        if k < rows.len() - 1 {
            assert(rows.drop_last().take(k) =~= rows.take(k));
        } else {
            assert(rows.drop_last() =~= rows.take(k));
            assert(rows.take(k).take(k) =~= rows.take(k));
        }
    } else {
        assert(rows.take(k) =~= rows);
    }
}

proof fn lemma_scopes_push(st: Seq<State>, x: State)
    ensures
        scopes(st.push(x)) == scopes(st).push(x.symbols@),
{
    assert(scopes(st.push(x)) =~= scopes(st).push(x.symbols@));
}

proof fn lemma_scopes_drop_last(st: Seq<State>)
    requires
        st.len() > 0,
    ensures
        scopes(st.drop_last()) == scopes(st).drop_last(),
        scopes(st).last() == st.last().symbols@,
{
    assert(scopes(st.drop_last()) =~= scopes(st).drop_last());
}

/// Whether some formula line, at any depth, is marked invalid.
pub open spec fn any_invalid(rows: Seq<Row>) -> bool
    decreases rows,
{
    rows.len() > 0 && (any_invalid(rows.drop_last()) || row_invalid(rows.last()))
}

pub open spec fn row_invalid(r: Row) -> bool
    decreases r,
{
    match r {
        Row::Leaf(_, i) => i == Some(Instruction::Invalid),
        Row::Block(s) => any_invalid(s),
    }
}

impl SubProof {
    /// Annotates every formula line of this list and of its nested
    /// sub-proofs; returns the list's discharge fact.
    fn verify(&mut self, index: &mut usize, stack: &mut Vec<State>) -> (r: Option<Fact>)
        requires
            old(stack)@.len() > 0,
            *old(index) + leaves(old(self)@) <= usize::MAX,
        ensures
            ({
                let p = pass(
                    old(self)@,
                    old(self)@.len() as int,
                    old(stack)@.last().can_assume,
                    scopes(old(stack)@).drop_last(),
                    old(stack)@.last().symbols@,
                    *old(index) as int,
                );
                &&& final(self)@ == p.rows
                &&& *final(index) == p.index
                &&& final(stack)@.len() == old(stack)@.len()
                &&& scopes(final(stack)@) == scopes(old(stack)@).drop_last().push(p.top)
                &&& r == discharge(old(self)@, *old(index) + 1, p.index)
            }),
        decreases old(self)@,
    {
        let ghost rows0 = self@;
        let ghost nested = stack@.last().can_assume;
        let ghost below = scopes(stack@).drop_last();
        let ghost top0 = stack@.last().symbols@;
        let ghost idx0 = *index as int;
        proof {
            lemma_view(self);
            lemma_pass_index(rows0, 0, nested, below, top0, idx0);
            assert(scopes(stack@) =~= below.push(top0));
        }
        let n = self.0.len();
        let mut first: Option<(Logic, usize)> = None;
        let mut last: Option<Logic> = None;
        let mut i: usize = 0;
        while i < n
            invariant
                n == self.0@.len(),
                0 <= i <= n,
                rows0 == old(self)@,
                rows0.len() == n,
                forall|j: int| i <= j < n ==> #[trigger] self.0@[j]@ == rows0[j],
                forall|j: int|
                    0 <= j < i ==> #[trigger] self.0@[j]@ == pass(
                        rows0,
                        i as int,
                        nested,
                        below,
                        top0,
                        idx0,
                    ).rows[j],
                pass(rows0, i as int, nested, below, top0, idx0).rows.len() == i,
                *index == pass(rows0, i as int, nested, below, top0, idx0).index,
                *index == idx0 + leaves(rows0.take(i as int)),
                idx0 + leaves(rows0) <= usize::MAX,
                stack@.len() == old(stack)@.len(),
                stack@.len() > 0,
                scopes(stack@) == below.push(pass(rows0, i as int, nested, below, top0, idx0).top),
                i == 0 ==> stack@.last().can_assume == nested,
                below == scopes(old(stack)@).drop_last(),
                nested == old(stack)@.last().can_assume,
                top0 == old(stack)@.last().symbols@,
                idx0 == *old(index),
                i > 0 ==> match rows0[0] {
                    Row::Leaf(f, _) => first == Some((f, (idx0 + 1) as usize)) && idx0 + 1
                        <= usize::MAX,
                    _ => first is None,
                },
                i == 0 ==> first is None,
                i == n && n > 0 ==> match rows0[n - 1] {
                    Row::Leaf(f, _) => last == Some(f),
                    _ => last is None,
                },
                i < n ==> last is None,
            decreases n - i,
        {
            let ghost p = pass(rows0, i as int, nested, below, top0, idx0);
            proof {
                lemma_leaves_take(rows0, i as int);
                lemma_leaves_take(rows0, (i + 1) as int);
                lemma_pass_index(rows0, (i + 1) as int, nested, below, top0, idx0);
                assert(self.0@[i as int]@ == rows0[i as int]);
                assert(scopes(stack@)[stack@.len() - 1] == p.top);
                assert(forall|j: int|
                    0 <= j < stack@.len() - 1 ==> scopes(stack@)[j] == #[trigger] below[j]);
            }
            let ghost line_before = self.0@[i as int];
            match &mut self.0[i] {
                Line::Log(l, t) => {
                    *index = *index + 1;
                    if i == 0 {
                        first = Some((l.copied(), *index));
                    }
                    if i + 1 == n {
                        last = Some(l.copied());
                    }
                    let assume_here = i == 0 && stack[stack.len() - 1].can_assume;
                    let inst = if assume_here {
                        Instruction::Assumption
                    } else {
                        rule_for(&**l, stack)
                    };
                    *t = Some(inst);
                    proof {
                        let p1 = pass(rows0, i + 1, nested, below, top0, idx0);
                        assert(rows0[i as int] == Row::Leaf(**l, line_before->Log_1));
                        assert(p1.rows == p.rows.push(Row::Leaf(**l, Some(inst))));
                        assert(p1.index == *index);
                        assert(p1.top == register(p.top, plain(**l, *index as int)));
                    }
                    let fact = Fact { formula: l.copied(), conclusion: None, start: *index, end: 0 };
                    proof {
                        lemma_scopes_drop_last(stack@);
                    }
                    let mut top = stack.pop().unwrap();
                    register_fact(&mut top.symbols, fact);
                    proof {
                        lemma_scopes_push(stack@, top);
                    }
                    stack.push(top);
                },
                Line::Sub(s) => {
                    proof {
                        lemma_scopes_drop_last(stack@);
                    }
                    let mut top = stack.pop().unwrap();
                    top.can_assume = false;
                    proof {
                        lemma_scopes_push(stack@, top);
                    }
                    stack.push(top);
                    let inner = State::default().can_assume();
                    proof {
                        lemma_scopes_push(stack@, inner);
                        assert(inner.symbols@ =~= Seq::<Fact>::empty());
                        lemma_scopes_drop_last(stack@.push(inner));
                        assert(stack@.push(inner).drop_last() =~= stack@);
                    }
                    stack.push(inner);
                    let ghost s_before = *s;
                    proof {
                        assert(stack@.last().can_assume);
                        assert(stack@.last().symbols@ == Seq::<Fact>::empty());
                        assert(scopes(stack@).drop_last() == below.push(p.top));
                    }
                    let d = s.verify(index, stack);
                    proof {
                        let p1 = pass(rows0, i + 1, nested, below, top0, idx0);
                        assert(rows0[i as int] == Row::Block(s_before@));
                        let q = pass(
                            s_before@,
                            s_before@.len() as int,
                            true,
                            below.push(p.top),
                            Seq::empty(),
                            p.index,
                        );
                        assert(p1.rows == p.rows.push(Row::Block(q.rows)));
                        assert(p1.index == *index);
                        lemma_scopes_drop_last(stack@);
                    }
                    let _ = stack.pop();
                    proof {
                        lemma_scopes_drop_last(stack@);
                    }
                    let mut top = stack.pop().unwrap();
                    if let Some(d) = d {
                        register_fact(&mut top.symbols, d);
                    }
                    proof {
                        lemma_scopes_push(stack@, top);
                    }
                    stack.push(top);
                },
            }
            proof {
                let p1 = pass(rows0, i + 1, nested, below, top0, idx0);
                assert(p1.rows[i as int] == self.0@[i as int]@);
                assert forall|j: int| 0 <= j < i + 1 implies #[trigger] self.0@[j]@ == p1.rows[j] by {
                }
            }
            i += 1;
        }
        proof {
            lemma_view(self);
            assert(self@ =~= pass(rows0, n as int, nested, below, top0, idx0).rows);
        }
        match (first, last) {
            (Some((f, fi)), Some(l)) => Some(
                Fact { formula: f, conclusion: Some(l), start: fi, end: *index },
            ),
            _ => None,
        }
    }

    /// Whether some formula line, at any depth, is marked invalid.
    fn has_invalid(&self) -> (r: bool)
        ensures
            r == any_invalid(self@),
        decreases self,
    {
        proof {
            lemma_view(self);
        }
        let n = self.0.len();
        let mut res = false;
        let mut i: usize = 0;
        while i < n
            invariant
                n == self.0@.len(),
                0 <= i <= n,
                self@.len() == n,
                forall|j: int| 0 <= j < n ==> #[trigger] self@[j] == self.0@[j]@,
                res == any_invalid(self@.take(i as int)),
            decreases n - i,
        {
            assert(self@.take(i + 1).drop_last() =~= self@.take(i as int));
            assert(self@.take(i + 1).last() == self@[i as int]);
            match &self.0[i] {
                Line::Sub(s) => {
                    assert(self@[i as int] == Row::Block(s@));
                    let sub = s.has_invalid();
                    assert(row_invalid(self@[i as int]) == sub);
                    res = res || sub;
                },
                Line::Log(l, t) => {
                    assert(self@[i as int] == Row::Leaf(**l, *t));
                    let bad = match t {
                        Some(Instruction::Invalid) => true,
                        _ => false,
                    };
                    assert(row_invalid(self@[i as int]) == bad);
                    res = res || bad;
                },
            }
            i += 1;
        }
        assert(self@.take(n as int) =~= self@);
        res
    }
}

/// The facts of the premises: premise `i` (from 0) is registered as line
/// `i + 1`, whatever its formula; a later premise equal to an earlier one
/// replaces it.
pub open spec fn premise_facts(ps: Seq<Logic>) -> Seq<Fact>
    decreases ps.len(),
{
    if ps.len() == 0 {
        Seq::empty()
    } else {
        register(premise_facts(ps.drop_last()), plain(ps.last(), ps.len() as int))
    }
}

/// The pass over the body of proof `p`, the premises loaded first.
pub open spec fn proof_pass(p: FitchProof) -> Pass {
    pass(
        p.proof@,
        p.proof@.len() as int,
        false,
        Seq::empty(),
        premise_facts(p.prepositions@),
        p.prepositions@.len() as int,
    )
}

/// Whether the body's last line is a formula equal to `goal`.
pub open spec fn reaches(rows: Seq<Row>, goal: Logic) -> bool {
    rows.len() > 0 && match rows.last() {
        Row::Leaf(f, _) => f == goal,
        _ => false,
    }
}

/// The outermost scope, holding the plain facts of the premises.
pub fn premise_state(ps: &Vec<Logic>) -> (r: State)
    requires
        ps@.len() <= usize::MAX - 1,
    ensures
        !r.can_assume,
        r.symbols@ == premise_facts(ps@),
        r.wf(),
{
    let mut state = State::default();
    let mut i: usize = 0;
    while i < ps.len()
        invariant
            0 <= i <= ps@.len(),
            ps@.len() <= usize::MAX - 1,
            !state.can_assume,
            state.symbols@ == premise_facts(ps@.take(i as int)),
            keys_unique(state.symbols@),
        decreases ps@.len() - i,
    {
        let fact = Fact { formula: ps[i].copied(), conclusion: None, start: i + 1, end: 0 };
        proof {
            lemma_register(state.symbols@, fact);
            assert(ps@.take(i + 1).drop_last() =~= ps@.take(i as int));
        }
        register_fact(&mut state.symbols, fact);
        i += 1;
    }
    assert(ps@.take(i as int) =~= ps@);
    state
}

impl FitchProof {
    /// The premises as lines: each is justified as a premise, whatever its
    /// formula, and premise `i` (from 0) is numbered `i + 1`.
    pub fn premise_lines(&self) -> (r: SubProof)
        ensures
            r@.len() == self.prepositions@.len(),
            forall|i: int|
                0 <= i < r@.len() ==> #[trigger] r@[i] == Row::Leaf(
                    self.prepositions@[i],
                    Some(Instruction::Premise),
                ),
    {
        let mut lines: Vec<Line> = Vec::new();
        let mut i: usize = 0;
        while i < self.prepositions.len()
            invariant
                0 <= i <= self.prepositions@.len(),
                lines@.len() == i,
                forall|j: int|
                    0 <= j < i ==> #[trigger] lines@[j]@ == Row::Leaf(
                        self.prepositions@[j],
                        Some(Instruction::Premise),
                    ),
            decreases self.prepositions@.len() - i,
        {
            lines.push(Line::Log(Box::new(self.prepositions[i].copied()), Some(Instruction::Premise)));
            i += 1;
        }
        let r = SubProof(lines);
        proof {
            lemma_view(&r);
        }
        r
    }

    /// Re-justifies every formula line of the body and tells whether the
    /// proof is complete: no line anywhere is invalid, and the body ends
    /// with a formula line equal to the goal. Every formula shape has a rule
    /// set, so the result is never an error.
    pub fn verify(&mut self) -> (r: Result<bool, String>)
        requires
            old(self).prepositions@.len() + leaves(old(self).proof@) < usize::MAX,
        ensures
            final(self).proof@ == proof_pass(*old(self)).rows,
            final(self).prepositions@ == old(self).prepositions@,
            final(self).result == old(self).result,
            leaves(final(self).proof@) == leaves(old(self).proof@),
            r == Ok::<bool, String>(
                !any_invalid(proof_pass(*old(self)).rows) && reaches(
                    old(self).proof@,
                    *old(self).result,
                ),
            ),
    {
        proof {
            lemma_view(&self.proof);
            let rows = self.proof@;
            let ps = self.prepositions@;
            lemma_pass_keeps_shape(rows, rows.len() as int, false, Seq::empty(), premise_facts(ps), ps.len() as int);
            assert(rows.take(rows.len() as int) =~= rows);
            lemma_same_shape_leaves(proof_pass(*self).rows, rows);
        }
        let n = self.proof.0.len();
        let ends = if n > 0 {
            match &self.proof.0[n - 1] {
                Line::Log(l, _) => l.same(&self.result),
                Line::Sub(_) => false,
            }
        } else {
            false
        };
        let mut stack: Vec<State> = Vec::new();
        stack.push(premise_state(&self.prepositions));
        let mut index = self.prepositions.len();
        proof {
            assert(scopes(stack@).drop_last() =~= Seq::<Seq<Fact>>::empty());
        }
        let _ = self.proof.verify(&mut index, &mut stack);
        let bad = self.proof.has_invalid();
        Ok(!bad && ends)
    }
}

/// Two lists of lines with the same structure and the same formulas; the
/// rules written on them may differ.
pub open spec fn same_shape(a: Seq<Row>, b: Seq<Row>) -> bool
    decreases a,
{
    a.len() == b.len() && (a.len() == 0 || (same_shape(a.drop_last(), b.drop_last())
        && row_same_shape(a.last(), b.last())))
}

pub open spec fn row_same_shape(a: Row, b: Row) -> bool
    decreases a,
{
    match (a, b) {
        (Row::Leaf(f, _), Row::Leaf(g, _)) => f == g,
        (Row::Block(s), Row::Block(t)) => same_shape(s, t),
        _ => false,
    }
}

proof fn lemma_same_shape_at(a: Seq<Row>, b: Seq<Row>, i: int)
    requires
        same_shape(a, b),
        0 <= i < a.len(),
    ensures
        row_same_shape(a[i], b[i]),
    decreases a.len(),
{
    if i < a.len() - 1 {
        lemma_same_shape_at(a.drop_last(), b.drop_last(), i);
    }
}

proof fn lemma_same_shape_push(a: Seq<Row>, b: Seq<Row>, x: Row, y: Row)
    requires
        same_shape(a, b),
        row_same_shape(x, y),
    ensures
        same_shape(a.push(x), b.push(y)),
{
    assert(a.push(x).drop_last() =~= a);
    assert(b.push(y).drop_last() =~= b);
}

/// Lines of the same shape have the same number of formula lines.
proof fn lemma_same_shape_leaves(a: Seq<Row>, b: Seq<Row>)
    requires
        same_shape(a, b),
    ensures
        leaves(a) == leaves(b),
    decreases a,
{
    if a.len() > 0 {
        lemma_same_shape_leaves(a.drop_last(), b.drop_last());
        let x = a.last();
        let y = b.last();
        assert(row_same_shape(x, y));
        assert(leaves(a) == leaves(a.drop_last()) + row_leaves(x));
        assert(leaves(b) == leaves(b.drop_last()) + row_leaves(y));
        match x {
            Row::Block(s) => match y {
                Row::Block(t) => {
                    assert(same_shape(s, t));
                    lemma_same_shape_leaves(s, t);
                    assert(row_leaves(x) == row_leaves(y));
                },
                _ => {},
            },
            Row::Leaf(_, _) => {
                assert(y is Leaf);
                assert(row_leaves(x) == row_leaves(y));
            },
        }
    }
}

/// Lines of the same shape are annotated alike: a pass reads formulas and
/// structure, never the rules written on the lines.
proof fn lemma_pass_shape(
    a: Seq<Row>,
    b: Seq<Row>,
    k: int,
    nested: bool,
    below: Seq<Seq<Fact>>,
    top: Seq<Fact>,
    index: int,
)
    requires
        same_shape(a, b),
        0 <= k <= a.len(),
    ensures
        pass(a, k, nested, below, top, index) == pass(b, k, nested, below, top, index),
    decreases a, k,
{
    if k > 0 {
        lemma_pass_shape(a, b, k - 1, nested, below, top, index);
        lemma_same_shape_at(a, b, k - 1);
        let p = pass(a, k - 1, nested, below, top, index);
        match (a[k - 1], b[k - 1]) {
            (Row::Block(s), Row::Block(t)) => {
                lemma_pass_shape(s, t, s.len() as int, true, below.push(p.top), Seq::empty(), p.index);
                if s.len() > 0 {
                    lemma_same_shape_at(s, t, 0);
                    lemma_same_shape_at(s, t, s.len() - 1);
                }
                assert(discharge(s, p.index + 1, pass(s, s.len() as int, true, below.push(p.top),
                    Seq::empty(), p.index).index) == discharge(t, p.index + 1, pass(t, t.len() as int,
                    true, below.push(p.top), Seq::empty(), p.index).index));
            },
            _ => {},
        }
    }
}

/// A pass keeps the structure and the formulas of the lines it annotates.
proof fn lemma_pass_keeps_shape(
    rows: Seq<Row>,
    k: int,
    nested: bool,
    below: Seq<Seq<Fact>>,
    top: Seq<Fact>,
    index: int,
)
    requires
        0 <= k <= rows.len(),
    ensures
        same_shape(pass(rows, k, nested, below, top, index).rows, rows.take(k)),
    decreases rows, k,
{
    if k > 0 {
        lemma_pass_keeps_shape(rows, k - 1, nested, below, top, index);
        let p = pass(rows, k - 1, nested, below, top, index);
        assert(rows.take(k) =~= rows.take(k - 1).push(rows[k - 1]));
        match rows[k - 1] {
            Row::Block(s) => {
                lemma_pass_keeps_shape(s, s.len() as int, true, below.push(p.top), Seq::empty(), p.index);
                assert(s.take(s.len() as int) =~= s);
                let q = pass(s, s.len() as int, true, below.push(p.top), Seq::empty(), p.index);
                lemma_same_shape_push(p.rows, rows.take(k - 1), Row::Block(q.rows), rows[k - 1]);
            },
            Row::Leaf(f, _) => {
                let n = p.index + 1;
                let inst = if k == 1 && nested {
                    Instruction::Assumption
                } else {
                    rule(below.push(p.top), f)
                };
                lemma_same_shape_push(p.rows, rows.take(k - 1), Row::Leaf(f, Some(inst)), rows[k - 1]);
            },
        }
    } else {
        assert(rows.take(0) =~= Seq::<Row>::empty());
    }
}

/// Verifying a proof again, with nothing edited in between, writes the same
/// rule on every line and gives the same verdict.
pub proof fn lemma_verify_idempotent(p: FitchProof, q: FitchProof)
    requires
        q.proof@ == proof_pass(p).rows,
        q.prepositions@ == p.prepositions@,
        q.result == p.result,
    ensures
        proof_pass(q).rows == q.proof@,
        !any_invalid(proof_pass(q).rows) && reaches(q.proof@, *q.result) <==> !any_invalid(
            proof_pass(p).rows,
        ) && reaches(p.proof@, *p.result),
{
    let rows = p.proof@;
    let n = rows.len() as int;
    lemma_pass_keeps_shape(rows, n, false, Seq::empty(), premise_facts(p.prepositions@), p.prepositions@.len() as int);
    lemma_pass_index(rows, n, false, Seq::empty(), premise_facts(p.prepositions@), p.prepositions@.len() as int);
    assert(rows.take(n) =~= rows);
    lemma_pass_shape(q.proof@, rows, n, false, Seq::empty(), premise_facts(p.prepositions@), p.prepositions@.len() as int);
    if n > 0 {
        lemma_same_shape_at(q.proof@, rows, n - 1);
    }
}

/// Once a sub-proof of a list closes, the list's scope holds nothing of its
/// interior lines: every fact in the scope after the pass over the first `k`
/// lines is a fact it started with, a discharge fact, or a formula that
/// stands as a line of the list itself. The scope's keys stay unique.
pub proof fn lemma_closed_scope(
    rows: Seq<Row>,
    k: int,
    nested: bool,
    below: Seq<Seq<Fact>>,
    top: Seq<Fact>,
    index: int,
)
    requires
        0 <= k <= rows.len(),
    ensures
        ({
            let t = pass(rows, k, nested, below, top, index).top;
            &&& keys_unique(top) ==> keys_unique(t)
            &&& forall|m: int|
                0 <= m < t.len() ==> top.contains(#[trigger] t[m]) || t[m].conclusion is Some
                    || exists|j: int| 0 <= j < k && rows[j] is Leaf && rows[j]->Leaf_0 == t[m].formula
        }),
    decreases k,
{
    if k > 0 {
        lemma_closed_scope(rows, k - 1, nested, below, top, index);
        let p = pass(rows, k - 1, nested, below, top, index);
        let t = pass(rows, k, nested, below, top, index).top;
        let added: Option<Fact> = match rows[k - 1] {
            Row::Leaf(f, _) => Some(plain(f, p.index + 1)),
            Row::Block(s) => discharge(
                s,
                p.index + 1,
                pass(s, s.len() as int, true, below.push(p.top), Seq::empty(), p.index).index,
            ),
        };
        if let Some(x) = added {
            lemma_register(p.top, x);
            assert(t == register(p.top, x));
        } else {
            assert(t == p.top);
        }
        assert forall|m: int| 0 <= m < t.len() implies top.contains(#[trigger] t[m])
            || t[m].conclusion is Some || exists|j: int|
            0 <= j < k && rows[j] is Leaf && rows[j]->Leaf_0 == t[m].formula by {
            if added is Some && t[m] == added->Some_0 {
                if rows[k - 1] is Leaf {
                    assert(rows[k - 1]->Leaf_0 == t[m].formula);
                }
            } else {
                assert(p.top.contains(t[m]));
                let i = choose|i: int| 0 <= i < p.top.len() && p.top[i] == t[m];
                if !top.contains(p.top[i]) && p.top[i].conclusion is None {
                    let j = choose|j: int|
                        0 <= j < k - 1 && rows[j] is Leaf && rows[j]->Leaf_0 == p.top[i].formula;
                    assert(0 <= j < k && rows[j] is Leaf && rows[j]->Leaf_0 == t[m].formula);
                }
            }
        }
    }
}

} // verus!
