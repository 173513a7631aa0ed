//! The proof tree: lines, nested sub-proofs and their mathematical view.
use vstd::prelude::*;

use crate::formula::{size_of, Logic};

verus! {

/// An inclusive range of line numbers, the span of a closed sub-proof.
#[derive(Debug, Clone, Copy, PartialEq, Eq, Structural, Hash)]
pub struct LineRange {
    pub start: usize,
    pub end: usize,
}

/// The rule that justifies a line, with the line numbers it cites.
#[derive(Debug, Clone, Copy, PartialEq, Eq, Structural, Hash)]
pub enum Instruction {
    Assumption,
    OrIntroLeft(usize),
    OrIntroRight(usize),
    OrElim(usize, LineRange, LineRange),
    NotElim(usize, usize),
    NotIntro(LineRange),
    BottomElim(usize),
    ImplIntro(LineRange),
    ImplElim(usize, usize),
    AndIntro(usize, usize),
    AndElimLeft(usize),
    AndElimRight(usize),
    Pbc(LineRange),
    Copy(usize),
    NotNotIntro(usize),
    NotNotElim(usize),
    Lem,
    Premise,
    Invalid,
}

/// A line of a proof: a nested sub-proof, or a formula with the rule
/// that the last verification pass found for it.
#[derive(Debug)]
pub enum Line {
    Sub(SubProof),
    Log(Box<Logic>, Option<Instruction>),
}

/// What a selection path points at.
#[derive(Debug, Clone, Copy, PartialEq, Eq, Structural)]
pub enum SelectType {
    Term,
    SubProof,
}

/// An ordered list of lines.
#[derive(Debug)]
pub struct SubProof(pub Vec<Line>);

/// A proof: numbered premises, a body, and the goal its last line must reach.
#[derive(Debug)]
pub struct FitchProof {
    pub proof: SubProof,
    pub prepositions: Vec<Logic>,
    pub result: Box<Logic>,
}

/// The mathematical view of a line.
pub enum Row {
    Leaf(Logic, Option<Instruction>),
    Block(Seq<Row>),
}

pub open spec fn row_of(l: Line) -> Row
    decreases l, 0int,
{
    match l {
        Line::Sub(s) => Row::Block(rows_of(s.0@, s.0@.len() as int)),
        Line::Log(f, i) => Row::Leaf(*f, i),
    }
}

/// The views of the first `k` lines.
pub open spec fn rows_of(lines: Seq<Line>, k: int) -> Seq<Row>
    decreases lines, k,
{
    if k <= 0 || k > lines.len() {
        Seq::empty()
    } else {
        rows_of(lines, k - 1).push(row_of(lines[k - 1]))
    }
}

impl View for Line {
    type V = Row;

    open spec fn view(&self) -> Row {
        row_of(*self)
    }
}

impl View for SubProof {
    type V = Seq<Row>;

    open spec fn view(&self) -> Seq<Row> {
        rows_of(self.0@, self.0@.len() as int)
    }
}

pub proof fn lemma_rows_of(lines: Seq<Line>, k: int)
    requires
        0 <= k <= lines.len(),
    ensures
        rows_of(lines, k).len() == k,
        forall|j: int| 0 <= j < k ==> #[trigger] rows_of(lines, k)[j] == row_of(lines[j]),
    decreases k,
{
    if k > 0 {
        lemma_rows_of(lines, k - 1);
    }
}

/// The view of a list of lines, element by element.
pub proof fn lemma_view(s: &SubProof)
    ensures
        s@.len() == s.0@.len(),
        forall|j: int| 0 <= j < s.0@.len() ==> #[trigger] s@[j] == s.0@[j]@,
{
    lemma_rows_of(s.0@, s.0@.len() as int);
}

/// Number of formula lines, counted through nested sub-proofs.
pub open spec fn leaves(rows: Seq<Row>) -> nat
    decreases rows,
{
    if rows.len() == 0 {
        0
    } else {
        leaves(rows.drop_last()) + row_leaves(rows.last())
    }
}

pub open spec fn row_leaves(r: Row) -> nat
    decreases r,
{
    match r {
        Row::Leaf(_, _) => 1,
        Row::Block(s) => leaves(s),
    }
}

/// Counts over a list of lines: every line at every depth, the nodes of all
/// formulas, and the nested sub-proofs.
pub struct Stats {
    pub terms: usize,
    pub lines: usize,
    pub sub_proofs: usize,
}

/// The counts `(lines, terms, sub_proofs)` of a list of lines.
pub open spec fn tally(rows: Seq<Row>) -> (nat, nat, nat)
    decreases rows,
{
    if rows.len() == 0 {
        (0, 0, 0)
    } else {
        let a = tally(rows.drop_last());
        let b = row_tally(rows.last());
        (a.0 + b.0, a.1 + b.1, a.2 + b.2)
    }
}

pub open spec fn row_tally(r: Row) -> (nat, nat, nat)
    decreases r,
{
    match r {
        Row::Leaf(f, _) => (1, size_of(f), 0),
        Row::Block(s) => {
            let t = tally(s);
            (1 + t.0, t.1, 1 + t.2)
        },
    }
}

proof fn lemma_tally_take(rows: Seq<Row>, k: int)
    requires
        0 <= k <= rows.len(),
    ensures
        tally(rows.take(k)).0 <= tally(rows).0,
        tally(rows.take(k)).1 <= tally(rows).1,
        tally(rows.take(k)).2 <= tally(rows).2,
    decreases rows.len(),
{
    if k < rows.len() {
        lemma_tally_take(rows.drop_last(), k);
        if k < rows.len() - 1 {
            assert(rows.drop_last().take(k) =~= rows.take(k));
        } else {
            assert(rows.drop_last() =~= rows.take(k));
            assert(rows.take(k).take(k) =~= rows.take(k));
        }
    } else {
        assert(rows.take(k) =~= rows);
    }
}

impl SubProof {
    /// The counts of lines, formula nodes and sub-proofs, at every depth.
    pub fn stats(&self) -> (r: Stats)
        requires
            tally(self@).0 <= usize::MAX,
            tally(self@).1 <= usize::MAX,
            tally(self@).2 <= usize::MAX,
        ensures
            r.lines == tally(self@).0,
            r.terms == tally(self@).1,
            r.sub_proofs == tally(self@).2,
        decreases self,
    {
        proof {
            lemma_view(self);
        }
        let n = self.0.len();
        let mut s = Stats { terms: 0, lines: 0, sub_proofs: 0 };
        let mut i: usize = 0;
        while i < n
            invariant
                n == self.0@.len(),
                0 <= i <= n,
                self@.len() == n,
                forall|j: int| 0 <= j < n ==> #[trigger] self@[j] == self.0@[j]@,
                s.lines == tally(self@.take(i as int)).0,
                s.terms == tally(self@.take(i as int)).1,
                s.sub_proofs == tally(self@.take(i as int)).2,
                tally(self@).0 <= usize::MAX,
                tally(self@).1 <= usize::MAX,
                tally(self@).2 <= usize::MAX,
            decreases n - i,
        {
            assert(self@.take(i + 1).drop_last() =~= self@.take(i as int));
            assert(self@.take(i + 1).last() == self@[i as int]);
            proof {
                lemma_tally_take(self@, (i + 1) as int);
                let a = tally(self@.take(i as int));
                let b = row_tally(self@[i as int]);
                assert(tally(self@.take(i + 1)) == (a.0 + b.0, a.1 + b.1, a.2 + b.2));
            }
            match &self.0[i] {
                Line::Sub(ns) => {
                    assert(self@[i as int] == Row::Block(ns@));
                    let inner = ns.stats();
                    s.lines = s.lines + 1 + inner.lines;
                    s.terms = s.terms + inner.terms;
                    s.sub_proofs = s.sub_proofs + 1 + inner.sub_proofs;
                },
                Line::Log(t, inst) => {
                    assert(self@[i as int] == Row::Leaf(**t, *inst));
                    s.lines = s.lines + 1;
                    s.terms = s.terms + t.size();
                },
            }
            i += 1;
        }
        assert(self@.take(n as int) =~= self@);
        s
    }
}

impl FitchProof {
    /// The counts of the body.
    pub fn stats(&self) -> (r: Stats)
        requires
            tally(self.proof@).0 <= usize::MAX,
            tally(self.proof@).1 <= usize::MAX,
            tally(self.proof@).2 <= usize::MAX,
        ensures
            r.lines == tally(self.proof@).0,
            r.terms == tally(self.proof@).1,
            r.sub_proofs == tally(self.proof@).2,
    {
        self.proof.stats()
    }
}

/// The deepest nesting of sub-proofs within a list of lines.
pub open spec fn nesting(rows: Seq<Row>) -> nat
    decreases rows,
{
    if rows.len() == 0 {
        0
    } else {
        let a = nesting(rows.drop_last());
        let b = match rows.last() {
            Row::Leaf(_, _) => 0,
            Row::Block(s) => 1 + nesting(s),
        };
        if a >= b {
            a
        } else {
            b
        }
    }
}

pub proof fn lemma_nesting_at(rows: Seq<Row>, i: int)
    requires
        0 <= i < rows.len(),
    ensures
        rows[i] matches Row::Block(s) ==> 1 + nesting(s) <= nesting(rows),
    decreases rows.len(),
{
    if i < rows.len() - 1 {
        lemma_nesting_at(rows.drop_last(), i);
    }
}

impl SubProof {
    /// A deep copy.
    pub fn copied(&self) -> (r: SubProof)
        ensures
            r@ == self@,
        decreases self,
    {
        proof {
            lemma_view(self);
        }
        let n = self.0.len();
        let mut lines: Vec<Line> = Vec::new();
        let mut i: usize = 0;
        while i < n
            invariant
                n == self.0@.len(),
                0 <= i <= n,
                self@.len() == n,
                forall|j: int| 0 <= j < n ==> #[trigger] self@[j] == self.0@[j]@,
                lines@.len() == i,
                forall|j: int| 0 <= j < i ==> #[trigger] lines@[j]@ == self@[j],
            decreases n - i,
        {
            let line = match &self.0[i] {
                Line::Sub(s) => Line::Sub(s.copied()),
                Line::Log(l, t) => Line::Log(Box::new(l.copied()), *t),
            };
            lines.push(line);
            i += 1;
        }
        let r = SubProof(lines);
        proof {
            lemma_view(&r);
            assert(r@ =~= self@);
        }
        r
    }

    /// Structural equality: the same lines, formulas and rules.
    pub fn same(&self, other: &SubProof) -> (r: bool)
        ensures
            r == (self@ == other@),
        decreases self,
    {
        proof {
            lemma_view(self);
            lemma_view(other);
        }
        let n = self.0.len();
        if n != other.0.len() {
            assert(self@.len() != other@.len());
            return false;
        }
        let mut i: usize = 0;
        while i < n
            invariant
                n == self.0@.len(),
                n == other.0@.len(),
                0 <= i <= n,
                self@.len() == n,
                other@.len() == n,
                forall|j: int| 0 <= j < n ==> #[trigger] self@[j] == self.0@[j]@,
                forall|j: int| 0 <= j < n ==> #[trigger] other@[j] == other.0@[j]@,
                forall|j: int| 0 <= j < i ==> self@[j] == other@[j],
            decreases n - i,
        {
            let equal = match (&self.0[i], &other.0[i]) {
                (Line::Sub(a), Line::Sub(b)) => a.same(b),
                (Line::Log(f, t), Line::Log(g, u)) => f.same(g) && *t == *u,
                _ => false,
            };
            if !equal {
                assert(self@[i as int] != other@[i as int]);
                return false;
            }
            i += 1;
        }
        assert(self@ =~= other@);
        true
    }
}

impl Line {
    /// A deep copy.
    pub fn copied(&self) -> (r: Line)
        ensures
            r@ == self@,
    {
        match self {
            Line::Sub(s) => Line::Sub(s.copied()),
            Line::Log(l, t) => Line::Log(Box::new(l.copied()), *t),
        }
    }
}

fn copy_formulas(v: &Vec<Logic>) -> (r: Vec<Logic>)
    ensures
        r@ == v@,
{
    let mut out: Vec<Logic> = Vec::new();
    let mut i: usize = 0;
    while i < v.len()
        invariant
            0 <= i <= v@.len(),
            out@ == v@.take(i as int),
        decreases v@.len() - i,
    {
        out.push(v[i].copied());
        assert(out@ =~= v@.take(i + 1));
        i += 1;
    }
    assert(v@.take(i as int) =~= v@);
    out
}

fn same_formulas(a: &Vec<Logic>, b: &Vec<Logic>) -> (r: bool)
    ensures
        r == (a@ == b@),
{
    if a.len() != b.len() {
        assert(a@.len() != b@.len());
        return false;
    }
    let mut i: usize = 0;
    while i < a.len()
        invariant
            0 <= i <= a@.len(),
            a@.len() == b@.len(),
            forall|j: int| 0 <= j < i ==> a@[j] == b@[j],
        decreases a@.len() - i,
    {
        if !a[i].same(&b[i]) {
            return false;
        }
        i += 1;
    }
    assert(a@ =~= b@);
    true
}

impl FitchProof {
    /// A deep copy.
    pub fn copied(&self) -> (r: FitchProof)
        ensures
            r.proof@ == self.proof@,
            r.prepositions@ == self.prepositions@,
            r.result == self.result,
    {
        FitchProof {
            proof: self.proof.copied(),
            prepositions: copy_formulas(&self.prepositions),
            result: Box::new(self.result.copied()),
        }
    }

    /// Structural equality of body, premises and goal.
    pub fn same(&self, other: &FitchProof) -> (r: bool)
        ensures
            r == (self.proof@ == other.proof@ && self.prepositions@ == other.prepositions@
                && self.result == other.result),
    {
        self.proof.same(&other.proof) && same_formulas(&self.prepositions, &other.prepositions)
            && self.result.same(&other.result)
    }
}

impl Clone for SubProof {
    fn clone(&self) -> (r: SubProof) {
        self.copied()
    }
}

impl Clone for Line {
    fn clone(&self) -> (r: Line) {
        self.copied()
    }
}

impl Clone for FitchProof {
    fn clone(&self) -> (r: FitchProof) {
        self.copied()
    }
}

impl PartialEq for SubProof {
    fn eq(&self, other: &SubProof) -> (r: bool) {
        self.same(other)
    }
}

impl Eq for SubProof {}

impl vstd::std_specs::cmp::PartialEqSpecImpl for SubProof {
    open spec fn obeys_eq_spec() -> bool {
        true
    }

    open spec fn eq_spec(&self, other: &SubProof) -> bool {
        self@ == other@
    }
}

impl PartialEq for Line {
    fn eq(&self, other: &Line) -> (r: bool) {
        match (self, other) {
            (Line::Sub(a), Line::Sub(b)) => a.same(b),
            (Line::Log(f, t), Line::Log(g, u)) => f.same(g) && *t == *u,
            _ => false,
        }
    }
}

impl Eq for Line {}

impl vstd::std_specs::cmp::PartialEqSpecImpl for Line {
    open spec fn obeys_eq_spec() -> bool {
        true
    }

    open spec fn eq_spec(&self, other: &Line) -> bool {
        self@ == other@
    }
}

impl PartialEq for FitchProof {
    fn eq(&self, other: &FitchProof) -> (r: bool) {
        self.same(other)
    }
}

impl Eq for FitchProof {}

impl vstd::std_specs::cmp::PartialEqSpecImpl for FitchProof {
    open spec fn obeys_eq_spec() -> bool {
        true
    }

    open spec fn eq_spec(&self, other: &FitchProof) -> bool {
        self.proof@ == other.proof@ && self.prepositions@ == other.prepositions@ && self.result
            == other.result
    }
}

impl Default for SubProof {
    /// A list of one empty formula line.
    fn default() -> (r: SubProof)
        ensures
            r@ == seq![Row::Leaf(Logic::Empty, None)],
    {
        let r = SubProof(vec![Line::Log(Box::new(Logic::Empty), None)]);
        proof {
            lemma_view(&r);
            assert(r@ =~= seq![Row::Leaf(Logic::Empty, None)]);
        }
        r
    }
}

} // verus!
