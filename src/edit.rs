//! Path-addressed edits of a proof tree. A path runs through line positions
//! of nested sub-proofs and, once it reaches a formula line, through operand
//! positions of the formula.
use vstd::prelude::*;

use crate::formula::{child_of, with_child, Logic};
use crate::tree::{leaves, lemma_view, row_leaves, FitchProof, Line, Row, SelectType, SubProof};

verus! {

/// The sub-formula of `g` at operand path `path`.
pub open spec fn formula_at(g: Logic, path: Seq<usize>) -> Option<Logic>
    decreases path.len(),
{
    if path.len() == 0 {
        Some(g)
    } else {
        match child_of(g, path[0] as int) {
            Some(c) => formula_at(c, path.drop_first()),
            None => None,
        }
    }
}

/// `g` with the sub-formula at `path` replaced by `f`; `None` where the path
/// leads nowhere.
pub open spec fn formula_put(g: Logic, path: Seq<usize>, f: Logic) -> Option<Logic>
    decreases path.len(),
{
    if path.len() == 0 {
        Some(f)
    } else {
        match child_of(g, path[0] as int) {
            Some(c) => match formula_put(c, path.drop_first(), f) {
                Some(c2) => Some(with_child(g, path[0] as int, c2)),
                None => None,
            },
            None => None,
        }
    }
}

/// The formula that `path` addresses in the lines `rows`.
pub open spec fn term_at(rows: Seq<Row>, path: Seq<usize>) -> Option<Logic>
    decreases rows, path.len(),
{
    if path.len() == 0 || path[0] >= rows.len() {
        None
    } else {
        match rows[path[0] as int] {
            Row::Block(s) => term_at(s, path.drop_first()),
            Row::Leaf(g, _) => formula_at(g, path.drop_first()),
        }
    }
}

/// `rows` with the formula at `path` replaced by `f`; `None` where `path`
/// addresses no formula.
pub open spec fn put_term(rows: Seq<Row>, path: Seq<usize>, f: Logic) -> Option<Seq<Row>>
    decreases rows, path.len(),
{
    if path.len() == 0 || path[0] >= rows.len() {
        None
    } else {
        let i = path[0] as int;
        match rows[i] {
            Row::Block(s) => match put_term(s, path.drop_first(), f) {
                Some(s2) => Some(rows.update(i, Row::Block(s2))),
                None => None,
            },
            Row::Leaf(g, inst) => match formula_put(g, path.drop_first(), f) {
                Some(g2) => Some(rows.update(i, Row::Leaf(g2, inst))),
                None => None,
            },
        }
    }
}

/// What `path` addresses: the empty path the list itself.
pub open spec fn kind_at(rows: Seq<Row>, path: Seq<usize>) -> Option<SelectType>
    decreases rows, path.len(),
{
    if path.len() == 0 {
        Some(SelectType::SubProof)
    } else if path[0] >= rows.len() {
        None
    } else {
        match rows[path[0] as int] {
            Row::Block(s) => kind_at(s, path.drop_first()),
            Row::Leaf(g, _) => if formula_at(g, path.drop_first()) is Some {
                Some(SelectType::Term)
            } else {
                None
            },
        }
    }
}

/// A new one-line sub-proof holding an empty formula.
pub open spec fn blank_block() -> Row {
    Row::Block(seq![Row::Leaf(Logic::Empty, None)])
}

/// `rows` with the line at `path` replaced by a blank sub-proof; unchanged
/// where `path` addresses no line.
pub open spec fn wrap_at(rows: Seq<Row>, path: Seq<usize>) -> Seq<Row>
    decreases rows, path.len(),
{
    if path.len() == 0 || path[0] >= rows.len() {
        rows
    } else if path.len() == 1 {
        rows.update(path[0] as int, blank_block())
    } else {
        match rows[path[0] as int] {
            Row::Block(s) => rows.update(path[0] as int, Row::Block(wrap_at(s, path.drop_first()))),
            _ => rows,
        }
    }
}

/// `rows` without the line at `path`; unchanged where `path` addresses no
/// line.
pub open spec fn remove_at(rows: Seq<Row>, path: Seq<usize>) -> Seq<Row>
    decreases rows, path.len(),
{
    if path.len() == 0 || path[0] >= rows.len() {
        rows
    } else if path.len() == 1 {
        rows.remove(path[0] as int)
    } else {
        match rows[path[0] as int] {
            Row::Block(s) => rows.update(
                path[0] as int,
                Row::Block(remove_at(s, path.drop_first())),
            ),
            _ => rows,
        }
    }
}

proof fn lemma_tail(path: Seq<usize>, k: int)
    requires
        0 <= k < path.len(),
    ensures
        path.subrange(k, path.len() as int).drop_first() =~= path.subrange(k + 1, path.len() as int),
        path.subrange(k, path.len() as int)[0] == path[k],
{
}

impl Logic {
    fn put_from(&mut self, path: &[usize], k: usize, f: Logic) -> (r: bool)
        requires
            k <= path@.len(),
        ensures
            ({
                let put = formula_put(*old(self), path@.subrange(k as int, path@.len() as int), f);
                &&& r == put is Some
                &&& r ==> *final(self) == put->Some_0
                &&& !r ==> *final(self) == *old(self)
            }),
        decreases path@.len() - k,
    {
        if k == path.len() {
            *self = f;
            return true;
        }
        proof {
            lemma_tail(path@, k as int);
        }
        let ghost before = *self;
        match self.get_mut(path[k]) {
            Some(c) => {
                let ghost c0 = *c;
                let done = c.put_from(path, k + 1, f);
                proof {
                    if !done {
                        assert(with_child(before, path@[k as int] as int, c0) == before);
                    }
                }
                done
            },
            None => false,
        }
    }

    fn formula_from(&self, path: &[usize], k: usize) -> (r: Option<Logic>)
        requires
            k <= path@.len(),
        ensures
            r == formula_at(*self, path@.subrange(k as int, path@.len() as int)),
        decreases path@.len() - k,
    {
        if k == path.len() {
            return Some(self.copied());
        }
        proof {
            lemma_tail(path@, k as int);
        }
        let i = path[k];
        match self {
            Logic::And(a, b) | Logic::Implies(a, b) | Logic::Or(a, b) => if i == 0 {
                a.formula_from(path, k + 1)
            } else if i == 1 {
                b.formula_from(path, k + 1)
            } else {
                None
            },
            Logic::Not(a) => if i == 0 {
                a.formula_from(path, k + 1)
            } else {
                None
            },
            _ => None,
        }
    }
}

impl SubProof {
    /// Number of formula lines, counted through nested sub-proofs.
    pub fn len(&self) -> (r: usize)
        requires
            leaves(self@) <= usize::MAX,
        ensures
            r == leaves(self@),
        decreases self,
    {
        proof {
            lemma_view(self);
        }
        let n = self.0.len();
        let mut total: usize = 0;
        let mut i: usize = 0;
        while i < n
            invariant
                n == self.0@.len(),
                0 <= i <= n,
                self@.len() == n,
                forall|j: int| 0 <= j < n ==> #[trigger] self@[j] == self.0@[j]@,
                total == leaves(self@.take(i as int)),
                leaves(self@) <= usize::MAX,
            decreases n - i,
        {
            assert(self@.take(i + 1).drop_last() =~= self@.take(i as int));
            assert(self@.take(i + 1).last() == self@[i as int]);
            proof {
                crate::check_pass::lemma_leaves_take(self@, (i + 1) as int);
                crate::check_pass::lemma_leaves_take(self@, i as int);
            }
            let here = match &self.0[i] {
                Line::Sub(s) => {
                    assert(self@[i as int] == Row::Block(s@));
                    s.len()
                },
                Line::Log(l, t) => {
                    assert(self@[i as int] == Row::Leaf(**l, *t));
                    1
                },
            };
            assert(row_leaves(self@[i as int]) == here);
            total = total + here;
            i += 1;
        }
        assert(self@.take(n as int) =~= self@);
        total
    }

    /// Replaces the line at `index_map` with a one-line sub-proof holding an
    /// empty formula; does nothing where the path addresses no line.
    pub fn make_sub_proof(&mut self, index_map: &[usize])
        ensures
            final(self)@ == wrap_at(old(self)@, index_map@),
    {
        assert(index_map@.subrange(0, index_map@.len() as int) =~= index_map@);
        self.wrap_from(index_map, 0);
    }

    fn wrap_from(&mut self, path: &[usize], k: usize)
        requires
            k <= path@.len(),
        ensures
            final(self)@ == wrap_at(old(self)@, path@.subrange(k as int, path@.len() as int)),
        decreases path@.len() - k,
    {
        proof {
            lemma_view(self);
        }
        if k == path.len() {
            return;
        }
        proof {
            lemma_tail(path@, k as int);
        }
        let i = path[k];
        if i >= self.0.len() {
            return;
        }
        let ghost old_rows = self@;
        if k + 1 == path.len() {
            let sp = SubProof(vec![Line::Log(Box::new(Logic::Empty), None)]);
            proof {
                lemma_view(&sp);
                assert(sp@ =~= seq![Row::Leaf(Logic::Empty, None)]);
            }
            let blank = Line::Sub(sp);
            self.0[i] = blank;
            proof {
                lemma_view(self);
                assert(self@ =~= old_rows.update(i as int, blank_block()));
            }
        } else {
            match &mut self.0[i] {
                Line::Sub(s) => {
                    s.wrap_from(path, k + 1);
                },
                Line::Log(_, _) => {},
            }
            proof {
                lemma_view(self);
                assert(self@ =~= wrap_at(old_rows, path@.subrange(k as int, path@.len() as int)));
            }
        }
    }

    /// Deletes the line at `index_map` from its list; does nothing where the
    /// path addresses no line.
    pub fn remove_line(&mut self, index_map: &[usize])
        ensures
            final(self)@ == remove_at(old(self)@, index_map@),
    {
        assert(index_map@.subrange(0, index_map@.len() as int) =~= index_map@);
        self.remove_from(index_map, 0);
    }

    fn remove_from(&mut self, path: &[usize], k: usize)
        requires
            k <= path@.len(),
        ensures
            final(self)@ == remove_at(old(self)@, path@.subrange(k as int, path@.len() as int)),
        decreases path@.len() - k,
    {
        proof {
            lemma_view(self);
        }
        if k == path.len() {
            return;
        }
        proof {
            lemma_tail(path@, k as int);
        }
        let i = path[k];
        if i >= self.0.len() {
            return;
        }
        let ghost old_rows = self@;
        if k + 1 == path.len() {
            let _ = self.0.remove(i);
            proof {
                lemma_view(self);
                assert(self@ =~= old_rows.remove(i as int));
            }
        } else {
            match &mut self.0[i] {
                Line::Sub(s) => {
                    s.remove_from(path, k + 1);
                },
                Line::Log(_, _) => {},
            }
            proof {
                lemma_view(self);
                assert(self@ =~= remove_at(old_rows, path@.subrange(k as int, path@.len() as int)));
            }
        }
    }

    /// Overwrites the formula that `path` addresses with `f`; tells whether
    /// the path addressed a formula, and changes nothing where it did not.
    pub fn replace_formula(&mut self, path: &[usize], f: Logic) -> (r: bool)
        ensures
            r == put_term(old(self)@, path@, f) is Some,
            r ==> final(self)@ == put_term(old(self)@, path@, f)->Some_0,
            !r ==> final(self)@ == old(self)@,
    {
        assert(path@.subrange(0, path@.len() as int) =~= path@);
        self.put_from(path, 0, f)
    }

    fn put_from(&mut self, path: &[usize], k: usize, f: Logic) -> (r: bool)
        requires
            k <= path@.len(),
        ensures
            ({
                let put = put_term(old(self)@, path@.subrange(k as int, path@.len() as int), f);
                &&& r == put is Some
                &&& r ==> final(self)@ == put->Some_0
                &&& !r ==> final(self)@ == old(self)@
            }),
        decreases path@.len() - k,
    {
        proof {
            lemma_view(self);
        }
        if k == path.len() {
            return false;
        }
        proof {
            lemma_tail(path@, k as int);
        }
        let i = path[k];
        if i >= self.0.len() {
            return false;
        }
        let ghost old_rows = self@;
        let done = match &mut self.0[i] {
            Line::Sub(s) => s.put_from(path, k + 1, f),
            Line::Log(l, _) => l.put_from(path, k + 1, f),
        };
        proof {
            lemma_view(self);
            let put = put_term(old_rows, path@.subrange(k as int, path@.len() as int), f);
            if done {
                assert(self@ =~= put->Some_0);
            } else {
                assert(self@ =~= old_rows);
            }
        }
        done
    }

    /// A copy of the formula that `path` addresses, if it addresses one.
    pub fn formula_at(&self, path: &[usize]) -> (r: Option<Logic>)
        ensures
            r == term_at(self@, path@),
    {
        assert(path@.subrange(0, path@.len() as int) =~= path@);
        self.term_from(path, 0)
    }

    fn term_from(&self, path: &[usize], k: usize) -> (r: Option<Logic>)
        requires
            k <= path@.len(),
        ensures
            r == term_at(self@, path@.subrange(k as int, path@.len() as int)),
        decreases path@.len() - k,
    {
        proof {
            lemma_view(self);
        }
        if k == path.len() {
            return None;
        }
        proof {
            lemma_tail(path@, k as int);
        }
        let i = path[k];
        if i >= self.0.len() {
            return None;
        }
        match &self.0[i] {
            Line::Sub(s) => s.term_from(path, k + 1),
            Line::Log(l, _) => l.formula_from(path, k + 1),
        }
    }

    /// What `path` addresses: a sub-proof (the empty path: this list), a
    /// formula, or nothing.
    pub fn select_type(&self, path: &[usize]) -> (r: Option<SelectType>)
        ensures
            r == kind_at(self@, path@),
    {
        assert(path@.subrange(0, path@.len() as int) =~= path@);
        self.kind_from(path, 0)
    }

    fn kind_from(&self, path: &[usize], k: usize) -> (r: Option<SelectType>)
        requires
            k <= path@.len(),
        ensures
            r == kind_at(self@, path@.subrange(k as int, path@.len() as int)),
        decreases path@.len() - k,
    {
        proof {
            lemma_view(self);
        }
        if k == path.len() {
            return Some(SelectType::SubProof);
        }
        proof {
            lemma_tail(path@, k as int);
        }
        let i = path[k];
        if i >= self.0.len() {
            return None;
        }
        match &self.0[i] {
            Line::Sub(s) => s.kind_from(path, k + 1),
            Line::Log(l, _) => if l.formula_from(path, k + 1).is_some() {
                Some(SelectType::Term)
            } else {
                None
            },
        }
    }
}

/// Writing `f` at an operand path of a formula and reading that path back
/// gives `f`.
pub proof fn lemma_formula_put_then_read(g: Logic, path: Seq<usize>, f: Logic)
    requires
        formula_put(g, path, f) is Some,
    ensures
        formula_at(formula_put(g, path, f)->Some_0, path) == Some(f),
    decreases path.len(),
{
    if path.len() > 0 {
        let c = child_of(g, path[0] as int)->Some_0;
        lemma_formula_put_then_read(c, path.drop_first(), f);
    }
}

/// For every path that addresses a formula, replacing the formula there by
/// `f` and then reading the formula at the same path gives `f`.
pub proof fn lemma_replace_then_read(rows: Seq<Row>, path: Seq<usize>, f: Logic)
    requires
        put_term(rows, path, f) is Some,
    ensures
        term_at(put_term(rows, path, f)->Some_0, path) == Some(f),
    decreases rows, path.len(),
{
    let i = path[0] as int;
    match rows[i] {
        Row::Block(s) => {
            lemma_replace_then_read(s, path.drop_first(), f);
        },
        Row::Leaf(g, _) => {
            lemma_formula_put_then_read(g, path.drop_first(), f);
        },
    }
}

/// `rows` with an empty formula line appended to the sub-proof at `path`
/// (the empty path: `rows` itself), and that line's position in it; `None`
/// where `path` addresses no sub-proof.
pub open spec fn append_at(rows: Seq<Row>, path: Seq<usize>) -> Option<(Seq<Row>, nat)>
    decreases rows, path.len(),
{
    if path.len() == 0 {
        Some((rows.push(Row::Leaf(Logic::Empty, None)), rows.len()))
    } else if path[0] >= rows.len() {
        None
    } else {
        match rows[path[0] as int] {
            Row::Block(s) => match append_at(s, path.drop_first()) {
                Some((s2, pos)) => Some((rows.update(path[0] as int, Row::Block(s2)), pos)),
                None => None,
            },
            _ => None,
        }
    }
}

impl SubProof {
    /// Appends an empty formula line to the sub-proof at `index_map` and
    /// returns its position there; changes nothing and returns `None` where
    /// the path addresses no sub-proof.
    pub fn push_line(&mut self, index_map: &[usize]) -> (r: Option<usize>)
        ensures
            append_at(old(self)@, index_map@) matches Some((rows, pos)) ==> (r == Some(pos as usize)
                && final(self)@ == rows),
            append_at(old(self)@, index_map@) is None ==> (r is None && final(self)@ == old(self)@),
    {
        assert(index_map@.subrange(0, index_map@.len() as int) =~= index_map@);
        self.push_from(index_map, 0)
    }

    fn push_from(&mut self, path: &[usize], k: usize) -> (r: Option<usize>)
        requires
            k <= path@.len(),
        ensures
            ({
                let a = append_at(old(self)@, path@.subrange(k as int, path@.len() as int));
                &&& a matches Some((rows, pos)) ==> (r == Some(pos as usize) && final(self)@ == rows)
                &&& a is None ==> (r is None && final(self)@ == old(self)@)
            }),
        decreases path@.len() - k,
    {
        proof {
            lemma_view(self);
        }
        let ghost old_rows = self@;
        if k == path.len() {
            let pos = self.0.len();
            self.0.push(Line::Log(Box::new(Logic::Empty), None));
            proof {
                lemma_view(self);
                assert(self@ =~= old_rows.push(Row::Leaf(Logic::Empty, None)));
            }
            return Some(pos);
        }
        proof {
            lemma_tail(path@, k as int);
        }
        let i = path[k];
        if i >= self.0.len() {
            return None;
        }
        let res = match &mut self.0[i] {
            Line::Sub(s) => s.push_from(path, k + 1),
            Line::Log(_, _) => None,
        };
        proof {
            lemma_view(self);
            let a = append_at(old_rows, path@.subrange(k as int, path@.len() as int));
            if a is Some {
                assert(self@ =~= a->Some_0.0);
            } else {
                assert(self@ =~= old_rows);
            }
        }
        res
    }
}

/// Whether `path` addresses an empty formula slot.
pub open spec fn blank_at(rows: Seq<Row>, path: Seq<usize>) -> bool {
    term_at(rows, path) == Some(Logic::Empty)
}

/// The measure that the selection search decreases at a fixed path length.
pub open spec fn step_room(input: Seq<usize>) -> int {
    if input.len() > 0 && input.last() <= 1 {
        2 - input.last()
    } else {
        0
    }
}

/// The next empty slot after the selection `input`: operand 0, then operand
/// 1, of what `input` addresses; failing both, the next position at the same
/// depth where the last index is 0 or 1, and the level above otherwise.
pub open spec fn next_blank(rows: Seq<Row>, input: Seq<usize>) -> Option<Seq<usize>>
    decreases input.len(), step_room(input),
{
    if input.len() == 0 {
        None
    } else if blank_at(rows, input.push(0)) {
        Some(input.push(0))
    } else if blank_at(rows, input.push(1)) {
        Some(input.push(1))
    } else {
        let last = input.last();
        let rest = input.drop_last();
        if last > 1 {
            next_blank(rows, rest)
        } else {
            next_blank(rows, rest.push((last + 1) as usize))
        }
    }
}

fn slice_to_vec(s: &[usize]) -> (r: Vec<usize>)
    ensures
        r@ == s@,
{
    let mut v: Vec<usize> = Vec::new();
    let mut i: usize = 0;
    while i < s.len()
        invariant
            0 <= i <= s@.len(),
            v@ == s@.take(i as int),
        decreases s@.len() - i,
    {
        v.push(s[i]);
        assert(v@ =~= s@.take(i + 1));
        i += 1;
    }
    assert(s@.take(i as int) =~= s@);
    v
}

impl FitchProof {
    /// The path of the next empty slot after the selection `input`, if any.
    pub fn next_select(&mut self, input: &[usize]) -> (r: Option<Vec<usize>>)
        ensures
            final(self).proof@ == old(self).proof@,
            final(self).prepositions@ == old(self).prepositions@,
            final(self).result == old(self).result,
            r is Some <==> next_blank(old(self).proof@, input@) is Some,
            r is Some ==> r->Some_0@ == next_blank(old(self).proof@, input@)->Some_0,
    {
        let v = slice_to_vec(input);
        self.proof.next_from(v)
    }
}

impl SubProof {
    fn is_blank(&self, path: &Vec<usize>) -> (r: bool)
        ensures
            r == blank_at(self@, path@),
    {
        match self.formula_at(path.as_slice()) {
            Some(Logic::Empty) => true,
            _ => false,
        }
    }

    fn next_from(&self, input: Vec<usize>) -> (r: Option<Vec<usize>>)
        ensures
            r is Some <==> next_blank(self@, input@) is Some,
            r is Some ==> r->Some_0@ == next_blank(self@, input@)->Some_0,
        decreases input@.len(), step_room(input@),
    {
        if input.len() == 0 {
            return None;
        }
        let mut new_input = input;
        let ghost base = new_input@;
        new_input.push(0);
        if self.is_blank(&new_input) {
            return Some(new_input);
        }
        let _ = new_input.pop();
        assert(new_input@ =~= base);
        new_input.push(1);
        if self.is_blank(&new_input) {
            return Some(new_input);
        }
        let _ = new_input.pop();
        assert(new_input@ =~= base);
        let last = new_input.pop().unwrap();
        if last > 1 {
            self.next_from(new_input)
        } else {
            new_input.push(last + 1);
            self.next_from(new_input)
        }
    }
}

/// A fresh puzzle: one empty line, no premises, and the goal p ∨ (p → q).
pub fn empty() -> (r: FitchProof)
    ensures
        r.proof@ == seq![Row::Leaf(Logic::Empty, None)],
        r.prepositions@.len() == 0,
        *r.result == Logic::Or(
            Box::new(Logic::Variable('p')),
            Box::new(Logic::Implies(Box::new(Logic::Variable('p')), Box::new(Logic::Variable('q')))),
        ),
{
    let body = SubProof(vec![Line::Log(Box::new(Logic::Empty), None)]);
    proof {
        lemma_view(&body);
        assert(body@ =~= seq![Row::Leaf(Logic::Empty, None)]);
    }
    FitchProof {
        proof: body,
        prepositions: Vec::new(),
        result: Box::new(
            Logic::Or(
                Box::new(Logic::Variable('p')),
                Box::new(Logic::Implies(Box::new(Logic::Variable('p')), Box::new(Logic::Variable('q')))),
            ),
        ),
    }
}

} // verus!
