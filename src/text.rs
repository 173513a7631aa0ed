//! Text forms: the name of each rule with the lines it cites, and formulas
//! written out with their connectives.
use vstd::prelude::*;
use vstd::string::StringExecFns;

use crate::formula::Logic;
use crate::tree::{leaves, row_leaves, lemma_view, nesting, lemma_nesting_at, Instruction, Line, LineRange, Row, SubProof};
use vstd::string::StrSliceExecFns;

verus! {

/// Relies on std's `String::push`: appends one character at the end.
pub assume_specification[ String::push ](s: &mut String, ch: char)
    ensures
        final(s)@ == old(s)@.push(ch),
;

pub open spec fn digit_char(d: int) -> char {
    if d == 0 {
        '0'
    } else if d == 1 {
        '1'
    } else if d == 2 {
        '2'
    } else if d == 3 {
        '3'
    } else if d == 4 {
        '4'
    } else if d == 5 {
        '5'
    } else if d == 6 {
        '6'
    } else if d == 7 {
        '7'
    } else if d == 8 {
        '8'
    } else {
        '9'
    }
}

/// The decimal digits of `n`, most significant first.
pub open spec fn decimal(n: nat) -> Seq<char>
    decreases n,
{
    if n < 10 {
        seq![digit_char(n as int)]
    } else {
        decimal(n / 10).push(digit_char((n % 10) as int))
    }
}

fn digit(d: usize) -> (c: char)
    requires
        d < 10,
    ensures
        c == digit_char(d as int),
{
    match d {
        0 => '0',
        1 => '1',
        2 => '2',
        3 => '3',
        4 => '4',
        5 => '5',
        6 => '6',
        7 => '7',
        8 => '8',
        _ => '9',
    }
}

fn push_decimal(s: &mut String, n: usize)
    ensures
        final(s)@ == old(s)@ + decimal(n as nat),
    decreases n,
{
    if n >= 10 {
        push_decimal(s, n / 10);
    }
    s.push(digit(n % 10));
    assert(final(s)@ =~= old(s)@ + decimal(n as nat)) by {
        if n >= 10 {
            assert(decimal(n as nat) == decimal((n / 10) as nat).push(digit_char((n % 10) as int)));
        }
    }
}

pub open spec fn span_text(r: LineRange) -> Seq<char> {
    decimal(r.start as nat) + "-"@ + decimal(r.end as nat)
}

/// The display name of a rule with the lines it cites.
pub open spec fn rule_text(i: Instruction) -> Seq<char> {
    match i {
        Instruction::Assumption => "ass"@,
        Instruction::OrIntroLeft(a) => "∨l "@ + decimal(a as nat),
        Instruction::OrIntroRight(a) => "∨r "@ + decimal(a as nat),
        Instruction::OrElim(o, a, b) => "∨e "@ + decimal(o as nat) + " "@ + span_text(a) + " "@
            + span_text(b),
        Instruction::AndIntro(a, b) => "∧i "@ + decimal(a as nat) + " "@ + decimal(b as nat),
        Instruction::AndElimLeft(a) => "∧l "@ + decimal(a as nat),
        Instruction::AndElimRight(a) => "∧r "@ + decimal(a as nat),
        Instruction::NotElim(a, b) => "¬e "@ + decimal(a as nat) + " "@ + decimal(b as nat),
        Instruction::NotNotElim(a) => "¬¬e "@ + decimal(a as nat),
        Instruction::NotIntro(r) => "¬i "@ + span_text(r),
        Instruction::NotNotIntro(a) => "¬¬i "@ + decimal(a as nat),
        Instruction::BottomElim(a) => "⊥e "@ + decimal(a as nat),
        Instruction::ImplIntro(r) => "→i "@ + span_text(r),
        Instruction::ImplElim(a, b) => "→e "@ + decimal(a as nat) + " "@ + decimal(b as nat),
        Instruction::Pbc(r) => "PBC "@ + span_text(r),
        Instruction::Copy(a) => "copy "@ + decimal(a as nat),
        Instruction::Invalid => "🛑"@,
        Instruction::Lem => "LEM"@,
        Instruction::Premise => "pre"@,
    }
}

fn push_span(s: &mut String, r: LineRange)
    ensures
        final(s)@ == old(s)@ + span_text(r),
{
    push_decimal(s, r.start);
    s.append("-");
    push_decimal(s, r.end);
    assert(final(s)@ =~= old(s)@ + span_text(r));
}

/// `prefix` followed by the decimal form of `a`.
fn named_one(prefix: &str, a: usize) -> (r: String)
    ensures
        r@ == prefix@ + decimal(a as nat),
{
    let mut s = String::new();
    s.append(prefix);
    push_decimal(&mut s, a);
    assert(s@ =~= prefix@ + decimal(a as nat));
    s
}

/// `prefix`, then `a` and `b` in decimal, separated by a space.
fn named_two(prefix: &str, a: usize, b: usize) -> (r: String)
    ensures
        r@ == prefix@ + decimal(a as nat) + " "@ + decimal(b as nat),
{
    let mut s = named_one(prefix, a);
    s.append(" ");
    push_decimal(&mut s, b);
    assert(s@ =~= prefix@ + decimal(a as nat) + " "@ + decimal(b as nat));
    s
}

/// `prefix` followed by the span `r`.
fn named_span(prefix: &str, r: LineRange) -> (out: String)
    ensures
        out@ == prefix@ + span_text(r),
{
    let mut s = String::new();
    s.append(prefix);
    push_span(&mut s, r);
    assert(s@ =~= prefix@ + span_text(r));
    s
}

impl Instruction {
    /// The display name of the rule with the lines it cites, such as
    /// `∨e 3 4-5 6-7` or `→i 2-5`.
    pub fn to_string(&self) -> (r: String)
        ensures
            r@ == rule_text(*self),
    {
        match *self {
            Instruction::Assumption => String::from_str("ass"),
            Instruction::OrIntroLeft(a) => named_one("∨l ", a),
            Instruction::OrIntroRight(a) => named_one("∨r ", a),
            Instruction::OrElim(o, a, b) => {
                let mut s = named_one("∨e ", o);
                s.append(" ");
                push_span(&mut s, a);
                s.append(" ");
                push_span(&mut s, b);
                assert(s@ =~= rule_text(*self));
                s
            },
            Instruction::AndIntro(a, b) => named_two("∧i ", a, b),
            Instruction::AndElimLeft(a) => named_one("∧l ", a),
            Instruction::AndElimRight(a) => named_one("∧r ", a),
            Instruction::NotElim(a, b) => named_two("¬e ", a, b),
            Instruction::NotNotElim(a) => named_one("¬¬e ", a),
            Instruction::NotIntro(r) => named_span("¬i ", r),
            Instruction::NotNotIntro(a) => named_one("¬¬i ", a),
            Instruction::BottomElim(a) => named_one("⊥e ", a),
            Instruction::ImplIntro(r) => named_span("→i ", r),
            Instruction::ImplElim(a, b) => named_two("→e ", a, b),
            Instruction::Pbc(r) => named_span("PBC ", r),
            Instruction::Copy(a) => named_one("copy ", a),
            Instruction::Invalid => String::from_str("🛑"),
            Instruction::Lem => String::from_str("LEM"),
            Instruction::Premise => String::from_str("pre"),
        }
    }
}

/// A formula written out; operands that are neither atoms nor ⊥ are
/// parenthesised unless `outer`.
pub open spec fn shown(f: Logic, outer: bool) -> Seq<char>
    decreases f,
{
    let body = match f {
        Logic::Variable(v) => seq![v],
        Logic::And(a, b) => shown(*a, false) + " ∧ "@ + shown(*b, false),
        Logic::Implies(a, b) => shown(*a, false) + " → "@ + shown(*b, false),
        Logic::Not(a) => "¬"@ + shown(*a, false),
        Logic::Or(a, b) => shown(*a, false) + " ∨ "@ + shown(*b, false),
        Logic::Bottom => "⊥"@,
        Logic::Empty => "×"@,
    };
    if outer || f is Variable || f is Bottom {
        body
    } else {
        "("@ + body + ")"@
    }
}

fn join(left: String, op: &str, right: String) -> (r: String)
    ensures
        r@ == left@ + op@ + right@,
{
    let mut s = left;
    s.append(op);
    s.append(right.as_str());
    s
}

impl Logic {
    /// The formula written out; see `shown`.
    pub fn display(&self, outer: bool) -> (r: String)
        ensures
            r@ == shown(*self, outer),
        decreases self,
    {
        let res = match self {
            Logic::Variable(v) => {
                let mut s = String::new();
                s.push(*v);
                assert(s@ =~= seq![*v]);
                s
            },
            Logic::And(a, b) => join(a.display(false), " ∧ ", b.display(false)),
            Logic::Implies(a, b) => join(a.display(false), " → ", b.display(false)),
            Logic::Not(a) => {
                let mut s = String::from_str("¬");
                let inner = a.display(false);
                s.append(inner.as_str());
                s
            },
            Logic::Or(a, b) => join(a.display(false), " ∨ ", b.display(false)),
            Logic::Bottom => String::from_str("⊥"),
            Logic::Empty => String::from_str("×"),
        };
        let bare = match self {
            Logic::Variable(_) | Logic::Bottom => true,
            _ => false,
        };
        if outer || bare {
            res
        } else {
            let mut s = String::from_str("(");
            s.append(res.as_str());
            s.append(")");
            assert(s@ =~= "("@ + res@ + ")"@);
            s
        }
    }
}

/// `n` copies of `unit`, one after another.
pub open spec fn repeat(unit: Seq<char>, n: nat) -> Seq<char>
    decreases n,
{
    if n == 0 {
        Seq::empty()
    } else {
        repeat(unit, (n - 1) as nat) + unit
    }
}

/// `n` in decimal, right-aligned in three columns.
pub open spec fn padded(n: nat) -> Seq<char> {
    let d = decimal(n);
    if d.len() < 3 {
        repeat(" "@, (3 - d.len()) as nat) + d
    } else {
        d
    }
}

/// The spaces that bring a line of `len` characters to column 32, or to
/// column 64 when it is already past 32.
pub open spec fn gap(len: nat) -> nat {
    if len < 32 {
        (32 - len) as nat
    } else if len < 64 {
        (64 - len) as nat
    } else {
        0
    }
}

/// One formula line of a listing: its number, a bar per level of nesting,
/// the formula, and the rule's name in a column of its own.
pub open spec fn leaf_text(n: nat, depth: nat, f: Logic, i: Option<Instruction>) -> Seq<char> {
    let l = padded(n) + ": "@ + repeat("│ "@, depth) + shown(f, true);
    l + repeat(" "@, gap(l.len())) + match i {
        Some(x) => rule_text(x),
        None => Seq::empty(),
    } + "\n"@
}

/// The listing of the first `k` lines of `rows`, numbered from `index`, at
/// nesting `depth`; with the next free line number.
pub open spec fn listing(rows: Seq<Row>, k: int, index: nat, depth: nat) -> (Seq<char>, nat)
    decreases rows, k,
{
    if k <= 0 || k > rows.len() {
        (Seq::empty(), index)
    } else {
        let p = listing(rows, k - 1, index, depth);
        match rows[k - 1] {
            Row::Leaf(f, i) => (p.0 + leaf_text(p.1, depth, f, i), p.1 + 1),
            Row::Block(s) => {
                let q = listing(s, s.len() as int, p.1, depth + 1);
                (p.0 + q.0, q.1)
            },
        }
    }
}

proof fn lemma_listing_index(rows: Seq<Row>, k: int, index: nat, depth: nat)
    requires
        0 <= k <= rows.len(),
    ensures
        listing(rows, k, index, depth).1 == index + leaves(rows.take(k)),
    decreases rows, k,
{
    if k > 0 {
        lemma_listing_index(rows, k - 1, index, depth);
        assert(rows.take(k).drop_last() =~= rows.take(k - 1));
        assert(rows.take(k).last() == rows[k - 1]);
        assert(leaves(rows.take(k)) == leaves(rows.take(k - 1)) + row_leaves(rows[k - 1]));
        let p = listing(rows, k - 1, index, depth);
        if let Row::Block(s) = rows[k - 1] {
            lemma_listing_index(s, s.len() as int, p.1, depth + 1);
            assert(s.take(s.len() as int) =~= s);
        }
    } else {
        assert(rows.take(0) =~= Seq::<Row>::empty());
    }
}

fn push_repeat(s: &mut String, unit: &str, n: usize)
    ensures
        final(s)@ == old(s)@ + repeat(unit@, n as nat),
{
    let mut i: usize = 0;
    while i < n
        invariant
            0 <= i <= n,
            s@ == old(s)@ + repeat(unit@, i as nat),
        decreases n - i,
    {
        s.append(unit);
        assert(s@ =~= old(s)@ + repeat(unit@, (i + 1) as nat));
        i += 1;
    }
}

fn push_padded(s: &mut String, n: usize)
    ensures
        final(s)@ == old(s)@ + padded(n as nat),
{
    let mut digits = String::new();
    push_decimal(&mut digits, n);
    let len = digits.as_str().unicode_len();
    assert(digits@ =~= decimal(n as nat));
    if len < 3 {
        push_repeat(s, " ", 3 - len);
    }
    s.append(digits.as_str());
    assert(final(s)@ =~= old(s)@ + padded(n as nat));
}

fn leaf_line(n: usize, depth: usize, f: &Logic, i: &Option<Instruction>) -> (r: String)
    ensures
        r@ == leaf_text(n as nat, depth as nat, *f, *i),
{
    let mut l = String::new();
    push_padded(&mut l, n);
    l.append(": ");
    push_repeat(&mut l, "│ ", depth);
    let shown_f = f.display(true);
    l.append(shown_f.as_str());
    let ghost lv = l@;
    assert(lv =~= padded(n as nat) + ": "@ + repeat("│ "@, depth as nat) + shown(*f, true));
    let len = l.as_str().unicode_len();
    let space: usize = if len < 32 {
        32 - len
    } else if len < 64 {
        64 - len
    } else {
        0
    };
    push_repeat(&mut l, " ", space);
    match i {
        Some(x) => {
            let name = x.to_string();
            l.append(name.as_str());
        },
        None => {},
    }
    l.append("\n");
    assert(l@ =~= leaf_text(n as nat, depth as nat, *f, *i));
    l
}

impl SubProof {
    /// The numbered listing of these lines: the first formula line gets
    /// number `*index`, and `index` is left at the next free number; nested
    /// lines are drawn `depth` bars deep and deeper.
    pub fn display(&self, index: &mut usize, depth: usize) -> (r: String)
        requires
            *old(index) + leaves(self@) <= usize::MAX,
            depth + nesting(self@) <= usize::MAX,
        ensures
            r@ == listing(self@, self@.len() as int, *old(index) as nat, depth as nat).0,
            *final(index) == listing(self@, self@.len() as int, *old(index) as nat, depth as nat).1,
        decreases self,
    {
        proof {
            lemma_view(self);
        }
        let n = self.0.len();
        let ghost idx0 = *index as nat;
        let mut res = String::new();
        let mut i: usize = 0;
        while i < n
            invariant
                n == self.0@.len(),
                0 <= i <= n,
                self@.len() == n,
                forall|j: int| 0 <= j < n ==> #[trigger] self@[j] == self.0@[j]@,
                idx0 == *old(index),
                res@ == listing(self@, i as int, idx0, depth as nat).0,
                *index == listing(self@, i as int, idx0, depth as nat).1,
                idx0 + leaves(self@) <= usize::MAX,
                depth + nesting(self@) <= usize::MAX,
            decreases n - i,
        {
            proof {
                lemma_listing_index(self@, i as int, idx0, depth as nat);
                lemma_listing_index(self@, (i + 1) as int, idx0, depth as nat);
                crate::check_pass::lemma_leaves_take(self@, (i + 1) as int);
                crate::check_pass::lemma_leaves_take(self@, i as int);
                lemma_nesting_at(self@, i as int);
            }
            match &self.0[i] {
                Line::Sub(sp) => {
                    assert(self@[i as int] == Row::Block(sp@));
                    let inner = sp.display(index, depth + 1);
                    res.append(inner.as_str());
                },
                Line::Log(l, t) => {
                    assert(self@[i as int] == Row::Leaf(**l, *t));
                    let line = leaf_line(*index, depth, l, t);
                    res.append(line.as_str());
                    *index = *index + 1;
                },
            }
            i += 1;
        }
        res
    }
}

/// The listing of `k` premises numbered from 1: premise `i` (from 0) on a
/// line of its own, numbered `i + 1` and named `pre`.
pub open spec fn premise_text(ps: Seq<Logic>, k: int) -> Seq<char>
    decreases k,
{
    if k <= 0 {
        Seq::empty()
    } else {
        premise_text(ps, k - 1) + leaf_text(k as nat, 0, ps[k - 1], Some(Instruction::Premise))
    }
}

/// Premises list as premises: whatever their formulas, lines whose every
/// rule is `Premise` and that are numbered from 1 list as `premise_text`,
/// and the next free number is one past the last premise.
pub proof fn lemma_premise_listing(ps: Seq<Logic>, rows: Seq<Row>, k: int)
    requires
        rows.len() == ps.len(),
        forall|i: int| 0 <= i < rows.len() ==> #[trigger] rows[i] == Row::Leaf(ps[i], Some(Instruction::Premise)),
        0 <= k <= rows.len(),
    ensures
        listing(rows, k, 1, 0) == (premise_text(ps, k), (k + 1) as nat),
    decreases k,
{
    if k > 0 {
        lemma_premise_listing(ps, rows, k - 1);
        assert(rows[k - 1] == Row::Leaf(ps[k - 1], Some(Instruction::Premise)));
    }
}

} // verus!
