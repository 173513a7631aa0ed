//! The rule-inference verifier: scopes of known facts and the searches over them.
use vstd::prelude::*;

use crate::formula::Logic;
use crate::tree::{Instruction, LineRange};
use itertools::Itertools;

verus! {

/// A known fact of a scope. A plain fact (`conclusion` is `None`) is a
/// formula proved or assumed on line `start`. A discharge fact records a
/// closed sub-proof that assumed `formula` on line `start` and ended with
/// `conclusion` on line `end`.
#[derive(Debug)]
pub struct Fact {
    pub formula: Logic,
    pub conclusion: Option<Logic>,
    pub start: usize,
    pub end: usize,
}

/// One open scope: its facts, keyed by formula and conclusion, in the order
/// they were last registered, and whether its next line may still be an
/// assumption. Registering a fact under a key that the scope already holds
/// replaces the older entry (see `register`), so keys are unique within a
/// scope (`State::wf`).
#[derive(Debug)]
pub struct State {
    pub can_assume: bool,
    pub symbols: Vec<Fact>,
}

fn copy_conclusion(c: &Option<Logic>) -> (r: Option<Logic>)
    ensures
        r == *c,
{
    match c {
        Some(l) => Some(l.copied()),
        None => None,
    }
}

fn same_conclusion(a: &Option<Logic>, b: &Option<Logic>) -> (r: bool)
    ensures
        r == (*a == *b),
{
    match (a, b) {
        (Some(x), Some(y)) => x.same(y),
        (None, None) => true,
        _ => false,
    }
}

impl Fact {
    pub fn copied(&self) -> (r: Fact)
        ensures
            r == *self,
    {
        Fact {
            formula: self.formula.copied(),
            conclusion: copy_conclusion(&self.conclusion),
            start: self.start,
            end: self.end,
        }
    }
}

impl State {
    /// The same scope, open for an assumption.
    pub fn can_assume(self) -> (r: State)
        ensures
            r.can_assume,
            r.symbols@ == self.symbols@,
    {
        let mut s = self;
        s.can_assume = true;
        s
    }
}

impl Default for State {
    fn default() -> (r: State)
        ensures
            !r.can_assume,
            r.symbols@.len() == 0,
    {
        State { can_assume: false, symbols: Vec::new() }
    }
}

/// Whether two facts share a key: the same formula and the same conclusion.
pub open spec fn same_key(a: Fact, b: Fact) -> bool {
    a.formula == b.formula && a.conclusion == b.conclusion
}

/// No two facts of the scope share a key.
pub open spec fn keys_unique(s: Seq<Fact>) -> bool {
    forall|i: int, j: int| 0 <= i < j < s.len() ==> !same_key(#[trigger] s[i], #[trigger] s[j])
}

impl State {
    pub open spec fn wf(&self) -> bool {
        keys_unique(self.symbols@)
    }
}

/// The first position from `j` on of a fact with `f`'s key.
pub open spec fn key_pos(s: Seq<Fact>, f: Fact, j: int) -> Option<int>
    decreases s.len() - j,
{
    if j < 0 || j >= s.len() {
        None
    } else if same_key(s[j], f) {
        Some(j)
    } else {
        key_pos(s, f, j + 1)
    }
}

/// The scope `s` after registering `f`: an entry with `f`'s key is dropped
/// and `f` becomes the most recent entry.
pub open spec fn register(s: Seq<Fact>, f: Fact) -> Seq<Fact> {
    match key_pos(s, f, 0) {
        Some(m) => s.remove(m).push(f),
        None => s.push(f),
    }
}

proof fn lemma_key_pos(s: Seq<Fact>, f: Fact, j: int)
    requires
        0 <= j,
    ensures
        key_pos(s, f, j) matches Some(m) ==> j <= m < s.len() && same_key(s[m], f),
        key_pos(s, f, j) is None ==> forall|i: int| j <= i < s.len() ==> !same_key(s[i], f),
    decreases s.len() - j,
{
    if j < s.len() && !same_key(s[j], f) {
        lemma_key_pos(s, f, j + 1);
    }
}

/// Registering keeps keys unique, and every entry afterwards is `f` or an
/// entry of the scope before.
pub proof fn lemma_register(s: Seq<Fact>, f: Fact)
    ensures
        keys_unique(s) ==> keys_unique(register(s, f)),
        register(s, f).len() > 0,
        register(s, f).last() == f,
        forall|m: int|
            0 <= m < register(s, f).len() ==> #[trigger] register(s, f)[m] == f || s.contains(
                register(s, f)[m],
            ),
{
    lemma_key_pos(s, f, 0);
    let r = register(s, f);
    match key_pos(s, f, 0) {
        Some(k) => {
            assert forall|m: int| 0 <= m < r.len() implies #[trigger] r[m] == f || s.contains(r[m]) by {
                if m < r.len() - 1 {
                    if m < k {
                        assert(r[m] == s[m]);
                    } else {
                        assert(r[m] == s[m + 1]);
                    }
                }
            }
            if keys_unique(s) {
                assert forall|i: int, j: int| 0 <= i < j < r.len() implies !same_key(
                    #[trigger] r[i],
                    #[trigger] r[j],
                ) by {
                    let si = if i < k { i } else { i + 1 };
                    assert(r[i] == s[si]);
                    if j < r.len() - 1 {
                        let sj = if j < k { j } else { j + 1 };
                        assert(r[j] == s[sj]);
                    } else {
                        assert(si != k);
                        if si < k {
                            assert(!same_key(s[si], s[k]));
                        } else {
                            assert(!same_key(s[k], s[si]));
                        }
                    }
                }
            }
        },
        None => {
            assert forall|m: int| 0 <= m < r.len() implies #[trigger] r[m] == f || s.contains(r[m]) by {
                if m < r.len() - 1 {
                    assert(r[m] == s[m]);
                }
            }
        },
    }
}

/// Registers `f` in the scope `s`.
pub(crate) fn register_fact(s: &mut Vec<Fact>, f: Fact)
    ensures
        final(s)@ == register(old(s)@, f),
{
    let mut j: usize = 0;
    while j < s.len()
        invariant
            0 <= j <= s@.len(),
            s@ == old(s)@,
            key_pos(s@, f, 0) == key_pos(s@, f, j as int),
        decreases s@.len() - j,
    {
        if s[j].formula.same(&f.formula) && same_conclusion(&s[j].conclusion, &f.conclusion) {
            let _ = s.remove(j);
            s.push(f);
            return;
        }
        j += 1;
    }
    s.push(f);
}

/// The facts of each scope, outermost first.
pub open spec fn scopes(stack: Seq<State>) -> Seq<Seq<Fact>> {
    Seq::new(stack.len(), |i: int| stack[i].symbols@)
}

/// The facts of one scope that satisfy `p`, most recently registered first.
pub open spec fn collect_scope(s: Seq<Fact>, p: spec_fn(Fact) -> bool) -> Seq<Fact>
    decreases s.len(),
{
    if s.len() == 0 {
        Seq::empty()
    } else {
        let rest = collect_scope(s.drop_last(), p);
        if p(s.last()) {
            seq![s.last()] + rest
        } else {
            rest
        }
    }
}

/// The visible facts that satisfy `p`, in search order: the innermost scope
/// first, and within a scope the most recently registered first.
pub open spec fn collect(sc: Seq<Seq<Fact>>, p: spec_fn(Fact) -> bool) -> Seq<Fact>
    decreases sc.len(),
{
    if sc.len() == 0 {
        Seq::empty()
    } else {
        collect_scope(sc.last(), p) + collect(sc.drop_last(), p)
    }
}

pub open spec fn first(s: Seq<Fact>) -> Option<Fact> {
    if s.len() > 0 {
        Some(s[0])
    } else {
        None
    }
}

/// Facts keyed by formula `x` and conclusion `c`.
pub open spec fn keyed(x: Logic, c: Option<Logic>) -> spec_fn(Fact) -> bool {
    |f: Fact| f.formula == x && f.conclusion == c
}

/// The most recent visible fact with formula `x` and conclusion `c`.
pub open spec fn lookup(sc: Seq<Seq<Fact>>, x: Logic, c: Option<Logic>) -> Option<Fact> {
    first(collect(sc, keyed(x, c)))
}

/// Copies of the visible facts that satisfy `pred`, in search order.
fn gather<F: Fn(&Fact) -> bool>(stack: &Vec<State>, pred: F, Ghost(p): Ghost<
    spec_fn(Fact) -> bool,
>) -> (r: Vec<Fact>)
    requires
        forall|f: &Fact| #[trigger] pred.requires((f,)),
        forall|f: &Fact, b: bool| pred.ensures((f,), b) ==> b == p(*f),
    ensures
        r@ == collect(scopes(stack@), p),
{
    let ghost sc = scopes(stack@);
    let mut out: Vec<Fact> = Vec::new();
    let mut s: usize = stack.len();
    assert(sc.take(s as int) =~= sc);
    assert(out@ + collect(sc, p) =~= collect(sc, p));
    while s > 0
        invariant
            s <= stack.len(),
            sc == scopes(stack@),
            sc.len() == stack@.len(),
            out@ + collect(sc.take(s as int), p) == collect(sc, p),
            forall|f: &Fact| #[trigger] pred.requires((f,)),
            forall|f: &Fact, b: bool| pred.ensures((f,), b) ==> b == p(*f),
        decreases s,
    {
        assert(sc.take(s as int).drop_last() =~= sc.take(s - 1));
        s -= 1;
        let syms = &stack[s].symbols;
        let ghost rest = collect(sc.take(s as int), p);
        let mut j: usize = syms.len();
        assert(syms@.take(j as int) =~= syms@);
        while j > 0
            invariant
                j <= syms@.len(),
                s < sc.len(),
                syms@ == sc[s as int],
                out@ + collect_scope(syms@.take(j as int), p) + rest == collect(sc, p),
                forall|f: &Fact| #[trigger] pred.requires((f,)),
                forall|f: &Fact, b: bool| pred.ensures((f,), b) ==> b == p(*f),
            decreases j,
        {
            assert(syms@.take(j as int).drop_last() =~= syms@.take(j - 1));
            j -= 1;
            let ghost before = out@;
            if pred(&syms[j]) {
                out.push(syms[j].copied());
                assert(out@ + collect_scope(syms@.take(j as int), p) =~= before
                    + collect_scope(syms@.take(j + 1), p));
            }
        }
        assert(syms@.take(0) =~= Seq::<Fact>::empty());
        assert(out@ + rest =~= out@ + collect_scope(syms@.take(0), p) + rest);
    }
    assert(sc.take(0) =~= Seq::<Seq<Fact>>::empty());
    assert(out@ =~= out@ + collect(sc.take(0), p));
    out
}

/// The most recent visible fact with formula `x` and conclusion `c`.
fn find_symbol(x: &Logic, c: &Option<Logic>, stack: &Vec<State>) -> (r: Option<Fact>)
    ensures
        r == lookup(scopes(stack@), *x, *c),
{
    let pred = |f: &Fact| -> (b: bool)
        ensures
            b == keyed(*x, *c)(*f),
        { f.formula.same(x) && same_conclusion(&f.conclusion, c) };
    let found = gather(stack, pred, Ghost(keyed(*x, *c)));
    if found.len() > 0 {
        Some(found[0].copied())
    } else {
        None
    }
}


pub open spec fn not(x: Logic) -> Logic {
    Logic::Not(Box::new(x))
}

pub open spec fn span(f: Fact) -> LineRange {
    LineRange { start: f.start, end: f.end }
}

/// Plain facts `a → t` whose antecedent `a` is known too.
pub open spec fn implies_to(sc: Seq<Seq<Fact>>, t: Logic) -> spec_fn(Fact) -> bool {
    |f: Fact|
        f.conclusion is None && match f.formula {
            Logic::Implies(a, b) => *b == t && lookup(sc, *a, None) is Some,
            _ => false,
        }
}

/// Plain conjunctions with `t` as one of their operands.
pub open spec fn and_with(t: Logic) -> spec_fn(Fact) -> bool {
    |f: Fact|
        f.conclusion is None && match f.formula {
            Logic::And(l, r) => *l == t || *r == t,
            _ => false,
        }
}

/// Discharge facts whose sub-proof ended with `t`.
pub open spec fn concludes(t: Logic) -> spec_fn(Fact) -> bool {
    |f: Fact| f.conclusion == Some(t)
}

/// Plain facts whose negation is known too.
pub open spec fn refuted(sc: Seq<Seq<Fact>>) -> spec_fn(Fact) -> bool {
    |f: Fact| f.conclusion is None && lookup(sc, not(f.formula), None) is Some
}

/// Implication elimination: the most recent `a → t` with `a` known.
pub open spec fn impl_elim(sc: Seq<Seq<Fact>>, t: Logic) -> Option<Instruction> {
    match first(collect(sc, implies_to(sc, t))) {
        Some(g) => match g.formula {
            Logic::Implies(a, _) => match lookup(sc, *a, None) {
                Some(h) => Some(Instruction::ImplElim(h.start, g.start)),
                None => None,
            },
            _ => None,
        },
        None => None,
    }
}

/// And elimination: the most recent conjunction with `t` as an operand,
/// the left operand tried first.
pub open spec fn and_elim(sc: Seq<Seq<Fact>>, t: Logic) -> Option<Instruction> {
    match first(collect(sc, and_with(t))) {
        Some(g) => match g.formula {
            Logic::And(l, _) => if *l == t {
                Some(Instruction::AndElimLeft(g.start))
            } else {
                Some(Instruction::AndElimRight(g.start))
            },
            _ => None,
        },
        None => None,
    }
}

/// The `i`-th row of ordered pairs of distinct positions below `n`.
pub open spec fn pair_row(n: int, i: int) -> Seq<(usize, usize)> {
    Seq::new(
        (n - 1) as nat,
        |j: int| (i as usize, (if j < i { j } else { j + 1 }) as usize),
    )
}

pub open spec fn pairs_from(n: int, i: int) -> Seq<(usize, usize)>
    decreases n - i,
{
    if i >= n {
        Seq::empty()
    } else {
        pair_row(n, i) + pairs_from(n, i + 1)
    }
}

/// Every ordered pair of distinct positions below `n`, in lexicographic order.
pub open spec fn pairs_below(n: int) -> Seq<(usize, usize)> {
    pairs_from(n, 0)
}

proof fn lemma_pairs_from(n: int, i: int)
    requires
        0 <= i,
        n <= usize::MAX,
    ensures
        forall|k: int|
            0 <= k < pairs_from(n, i).len() ==> (#[trigger] pairs_from(n, i)[k]).0 < n
                && pairs_from(n, i)[k].1 < n && pairs_from(n, i)[k].0 != pairs_from(n, i)[k].1,
    decreases n - i,
{
    if i < n {
        lemma_pairs_from(n, i + 1);
        let a = pair_row(n, i);
        let b = pairs_from(n, i + 1);
        assert forall|k: int| 0 <= k < pairs_from(n, i).len() implies (#[trigger] pairs_from(
            n,
            i,
        )[k]).0 < n && pairs_from(n, i)[k].1 < n && pairs_from(n, i)[k].0 != pairs_from(
            n,
            i,
        )[k].1 by {
            if k < a.len() {
                assert(pairs_from(n, i)[k] == a[k]);
            } else {
                assert(pairs_from(n, i)[k] == b[k - a.len()]);
            }
        }
    }
}

/// Or elimination, trying the pairs from the `k`-th on: the first pair of
/// discharge facts whose assumptions `x`, `y` form a known disjunction `x ∨ y`.
pub open spec fn or_elim_from(
    sc: Seq<Seq<Fact>>,
    subs: Seq<Fact>,
    pairs: Seq<(usize, usize)>,
    k: int,
) -> Option<Instruction>
    decreases pairs.len() - k,
{
    if k < 0 || k >= pairs.len() {
        None
    } else {
        let x = subs[pairs[k].0 as int];
        let y = subs[pairs[k].1 as int];
        match lookup(
            sc,
            Logic::Or(Box::new(x.formula), Box::new(y.formula)),
            None,
        ) {
            Some(o) => Some(Instruction::OrElim(o.start, span(x), span(y))),
            None => or_elim_from(sc, subs, pairs, k + 1),
        }
    }
}

/// Or elimination over the discharge facts that end with `t`, taken in
/// search order.
pub open spec fn or_elim(sc: Seq<Seq<Fact>>, t: Logic) -> Option<Instruction> {
    let subs = collect(sc, concludes(t));
    or_elim_from(sc, subs, pairs_below(subs.len() as int), 0)
}

/// The rule found from the target's own top connective, once every
/// elimination rule has failed. A conjunction whose operands are not both
/// known is marked invalid, as is every other target that no rule supports.
pub open spec fn intro_rule(sc: Seq<Seq<Fact>>, t: Logic) -> Instruction {
    match t {
        Logic::Not(a) => match *a {
            Logic::Not(b) => match lookup(sc, *b, None) {
                Some(f) => Instruction::NotNotIntro(f.start),
                None => Instruction::Invalid,
            },
            _ => match lookup(sc, *a, Some(Logic::Bottom)) {
                Some(f) => Instruction::NotIntro(span(f)),
                None => Instruction::Invalid,
            },
        },
        Logic::And(a, b) => match (lookup(sc, *a, None), lookup(sc, *b, None)) {
            (Some(x), Some(y)) => Instruction::AndIntro(x.start, y.start),
            _ => Instruction::Invalid,
        },
        Logic::Implies(a, b) => match lookup(sc, *a, Some(*b)) {
            Some(f) => Instruction::ImplIntro(span(f)),
            None => Instruction::Invalid,
        },
        Logic::Or(a, b) => if *a == not(*b) {
            Instruction::Lem
        } else {
            match lookup(sc, *a, None) {
                Some(f) => Instruction::OrIntroLeft(f.start),
                None => match lookup(sc, *b, None) {
                    Some(f) => Instruction::OrIntroRight(f.start),
                    None => Instruction::Invalid,
                },
            }
        },
        Logic::Bottom => match first(collect(sc, refuted(sc))) {
            Some(g) => match lookup(sc, not(g.formula), None) {
                Some(h) => Instruction::NotElim(g.start, h.start),
                None => Instruction::Invalid,
            },
            None => Instruction::Invalid,
        },
        _ => Instruction::Invalid,
    }
}

/// The rule that justifies target `t` under the visible scopes `sc`: the
/// first of the cascade that applies.
pub open spec fn rule(sc: Seq<Seq<Fact>>, t: Logic) -> Instruction {
    if t is Empty {
        Instruction::Invalid
    } else if let Some(f) = lookup(sc, not(not(t)), None) {
        Instruction::NotNotElim(f.start)
    } else if let Some(f) = lookup(sc, t, None) {
        Instruction::Copy(f.start)
    } else if let Some(i) = impl_elim(sc, t) {
        i
    } else if let Some(f) = lookup(sc, Logic::Bottom, None) {
        Instruction::BottomElim(f.start)
    } else if let Some(i) = and_elim(sc, t) {
        i
    } else if let Some(i) = or_elim(sc, t) {
        i
    } else if let Some(f) = lookup(sc, not(t), Some(Logic::Bottom)) {
        Instruction::Pbc(span(f))
    } else {
        intro_rule(sc, t)
    }
}

/// Relies on itertools' `permutations(2)` over `0..n`: every ordered pair of
/// distinct positions below `n`, in lexicographic order.
#[verifier::external_body]
fn distinct_pairs(n: usize) -> (r: Vec<(usize, usize)>)
    ensures
        r@ == pairs_below(n as int),
{
    (0..n).permutations(2).map(|p| (p[0], p[1])).collect()
}

fn find_impl_elim(t: &Logic, stack: &Vec<State>) -> (r: Option<Instruction>)
    ensures
        r == impl_elim(scopes(stack@), *t),
{
    let ghost sc = scopes(stack@);
    let pred = |f: &Fact| -> (b: bool)
        ensures
            b == implies_to(scopes(stack@), *t)(*f),
        {
            f.conclusion.is_none() && match &f.formula {
                Logic::Implies(a, b) => b.same(t) && find_symbol(a, &None, stack).is_some(),
                _ => false,
            }
        };
    let found = gather(stack, pred, Ghost(implies_to(sc, *t)));
    if found.len() == 0 {
        return None;
    }
    match &found[0].formula {
        Logic::Implies(a, _) => match find_symbol(a, &None, stack) {
            Some(h) => Some(Instruction::ImplElim(h.start, found[0].start)),
            None => None,
        },
        _ => None,
    }
}

fn find_symbol_in_and(t: &Logic, stack: &Vec<State>) -> (r: Option<Instruction>)
    ensures
        r == and_elim(scopes(stack@), *t),
{
    let pred = |f: &Fact| -> (b: bool)
        ensures
            b == and_with(*t)(*f),
        {
            f.conclusion.is_none() && match &f.formula {
                Logic::And(l, r) => l.same(t) || r.same(t),
                _ => false,
            }
        };
    let found = gather(stack, pred, Ghost(and_with(*t)));
    if found.len() == 0 {
        return None;
    }
    match &found[0].formula {
        Logic::And(l, _) => if l.same(t) {
            Some(Instruction::AndElimLeft(found[0].start))
        } else {
            Some(Instruction::AndElimRight(found[0].start))
        },
        _ => None,
    }
}

fn find_or_elim(t: &Logic, stack: &Vec<State>) -> (r: Option<Instruction>)
    ensures
        r == or_elim(scopes(stack@), *t),
{
    let ghost sc = scopes(stack@);
    let pred = |f: &Fact| -> (b: bool)
        ensures
            b == concludes(*t)(*f),
        { same_conclusion(&f.conclusion, &Some(t.copied())) };
    let subs = gather(stack, pred, Ghost(concludes(*t)));
    let pairs = distinct_pairs(subs.len());
    proof {
        lemma_pairs_from(subs.len() as int, 0);
    }
    let mut k: usize = 0;
    while k < pairs.len()
        invariant
            k <= pairs@.len(),
            sc == scopes(stack@),
            pairs@ == pairs_below(subs@.len() as int),
            forall|m: int|
                0 <= m < pairs@.len() ==> (#[trigger] pairs@[m]).0 < subs@.len() && pairs@[m].1
                    < subs@.len(),
            subs@ == collect(sc, concludes(*t)),
            or_elim_from(sc, subs@, pairs@, 0) == or_elim_from(sc, subs@, pairs@, k as int),
        decreases pairs.len() - k,
    {
        let (i, j) = pairs[k];
        let x = &subs[i];
        let y = &subs[j];
        let o = Logic::Or(Box::new(x.formula.copied()), Box::new(y.formula.copied()));
        if let Some(f) = find_symbol(&o, &None, stack) {
            return Some(
                Instruction::OrElim(
                    f.start,
                    LineRange { start: x.start, end: x.end },
                    LineRange { start: y.start, end: y.end },
                ),
            );
        }
        k += 1;
    }
    None
}

/// First plain fact `x` (in search order) whose negation is known: `x`'s
/// line and the negation's line.
fn find_not_elim(stack: &Vec<State>) -> (r: Instruction)
    ensures
        r == intro_rule(scopes(stack@), Logic::Bottom),
{
    let ghost sc = scopes(stack@);
    let pred = |f: &Fact| -> (b: bool)
        ensures
            b == refuted(scopes(stack@))(*f),
        {
            f.conclusion.is_none() && find_symbol(
                &Logic::Not(Box::new(f.formula.copied())),
                &None,
                stack,
            ).is_some()
        };
    let found = gather(stack, pred, Ghost(refuted(sc)));
    if found.len() == 0 {
        return Instruction::Invalid;
    }
    match find_symbol(&Logic::Not(Box::new(found[0].formula.copied())), &None, stack) {
        Some(h) => Instruction::NotElim(found[0].start, h.start),
        None => Instruction::Invalid,
    }
}

/// The introduction rule for `t`'s top connective.
fn find_intro(t: &Logic, stack: &Vec<State>) -> (r: Instruction)
    ensures
        r == intro_rule(scopes(stack@), *t),
{
    match t {
        Logic::Not(a) => match &**a {
            Logic::Not(b) => match find_symbol(b, &None, stack) {
                Some(f) => Instruction::NotNotIntro(f.start),
                None => Instruction::Invalid,
            },
            _ => match find_symbol(a, &Some(Logic::Bottom), stack) {
                Some(f) => Instruction::NotIntro(LineRange { start: f.start, end: f.end }),
                None => Instruction::Invalid,
            },
        },
        Logic::And(a, b) => match (find_symbol(a, &None, stack), find_symbol(b, &None, stack)) {
            (Some(x), Some(y)) => Instruction::AndIntro(x.start, y.start),
            _ => Instruction::Invalid,
        },
        Logic::Implies(a, b) => match find_symbol(a, &Some(b.copied()), stack) {
            Some(f) => Instruction::ImplIntro(LineRange { start: f.start, end: f.end }),
            None => Instruction::Invalid,
        },
        Logic::Or(a, b) => {
            let nb = Logic::Not(Box::new(b.copied()));
            if a.same(&nb) {
                Instruction::Lem
            } else {
                match find_symbol(a, &None, stack) {
                    Some(f) => Instruction::OrIntroLeft(f.start),
                    None => match find_symbol(b, &None, stack) {
                        Some(f) => Instruction::OrIntroRight(f.start),
                        None => Instruction::Invalid,
                    },
                }
            }
        },
        Logic::Bottom => find_not_elim(stack),
        _ => Instruction::Invalid,
    }
}

/// The rule that justifies `t` under the scopes of `stack`.
pub(crate) fn rule_for(t: &Logic, stack: &Vec<State>) -> (r: Instruction)
    ensures
        r == rule(scopes(stack@), *t),
{
    if let Logic::Empty = t {
        return Instruction::Invalid;
    }
    let nnt = Logic::Not(Box::new(Logic::Not(Box::new(t.copied()))));
    if let Some(f) = find_symbol(&nnt, &None, stack) {
        return Instruction::NotNotElim(f.start);
    }
    if let Some(f) = find_symbol(t, &None, stack) {
        return Instruction::Copy(f.start);
    }
    if let Some(i) = find_impl_elim(t, stack) {
        return i;
    }
    if let Some(f) = find_symbol(&Logic::Bottom, &None, stack) {
        return Instruction::BottomElim(f.start);
    }
    if let Some(i) = find_symbol_in_and(t, stack) {
        return i;
    }
    if let Some(i) = find_or_elim(t, stack) {
        return i;
    }
    let nt = Logic::Not(Box::new(t.copied()));
    if let Some(f) = find_symbol(&nt, &Some(Logic::Bottom), stack) {
        return Instruction::Pbc(LineRange { start: f.start, end: f.end });
    }
    find_intro(t, stack)
}

} // verus!
