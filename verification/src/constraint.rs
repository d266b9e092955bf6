//! Core constraint types and structures.

use vstd::prelude::*;
use vstd::string::StringExecFns;

verus! {

/// Strengths are fixed-point numbers: `STRENGTH_SCALE` stands for 1.0, the
/// strength of a mandatory constraint, and 0 for a mere preference.
pub const STRENGTH_SCALE: u64 = 1000;

/// The type of a constraint, by the number of variables it relates.
#[derive(Debug, Clone, Copy, PartialEq, Eq, Structural)]
pub enum ConstraintType {
    /// Unary constraint on a single variable.
    Unary,
    /// Binary constraint between two variables.
    Binary,
    /// N-ary constraint over multiple variables.
    Nary(usize),
}

/// The predicate a constraint checks on the values of its variables, given in
/// the order of `Constraint::variables`.
#[derive(Debug, Clone, Copy, PartialEq, Eq, Structural)]
pub enum Relation {
    /// `vals[0] == vals[1]`
    Equal,
    /// `vals[0] != vals[1]`
    NotEqual,
    /// `vals[0] < vals[1]`
    Less,
    /// `lo <= vals[0] <= hi`
    InRange { lo: i64, hi: i64 },
    /// The sum of all values is at most the bound.
    SumAtMost(i64),
    /// The sum of all values equals the target.
    SumEquals(i64),
    /// Each value is less than the next: `vals[0] < vals[1] < ...`.
    Increasing,
}

/// Each value is less than the next.
pub open spec fn increasing(vals: Seq<i64>) -> bool {
    forall|i: int, j: int| 0 <= i && j == i + 1 && j < vals.len() ==> #[trigger] vals[i] < #[trigger] vals[j]
}

/// Whether each value is less than the next.
fn increasing_values(vals: &[i64]) -> (r: bool)
    ensures
        r == increasing(vals@),
{
    if vals.len() == 0 {
        return true;
    }
    let mut i: usize = 1;
    assert(increasing(vals@.take(1)));
    while i < vals.len()
        invariant
            1 <= i <= vals@.len(),
            increasing(vals@.take(i as int)),
        decreases vals@.len() - i,
    {
        if vals[i - 1] >= vals[i] {
            assert(vals@[i - 1] >= vals@[i as int]);
            return false;
        }
        assert forall|a: int, b: int| 0 <= a && b == a + 1 && b < i + 1 implies #[trigger] vals@.take(i as int + 1)[a]
            < #[trigger] vals@.take(i as int + 1)[b] by {
            if b < i {
                assert(vals@.take(i as int)[a] < vals@.take(i as int)[b]);
            }
        }
        i = i + 1;
    }
    assert forall|a: int, b: int| 0 <= a && b == a + 1 && b < vals@.len() implies #[trigger] vals@[a] < #[trigger] vals@[b] by {
        assert(vals@.take(i as int)[a] < vals@.take(i as int)[b]);
    }
    true
}

/// Sum of a sequence of values, as a mathematical integer.
pub open spec fn seq_sum(s: Seq<i64>) -> int
    decreases s.len(),
{
    if s.len() == 0 {
        0
    } else {
        seq_sum(s.drop_last()) + s.last()
    }
}

/// A predicate over the values of a constraint's variables, given in the
/// order of `Constraint::variables`. `Relation` holds the common ones; a
/// type of the user's own gives any other.
pub trait Predicate: Copy {
    /// The number of values the predicate reads; fewer values cannot be checked.
    spec fn min_len(&self) -> nat;

    /// Whether the values satisfy the predicate.
    spec fn holds(&self, vals: Seq<i64>) -> bool;

    /// The number of values the predicate reads.
    fn values_needed(&self) -> (r: usize)
        ensures
            r == self.min_len(),
    ;

    /// Check the predicate on the values.
    fn evaluate(&self, vals: &[i64]) -> (r: bool)
        requires
            self.min_len() <= vals@.len(),
        ensures
            r == self.holds(vals@),
    ;
}

impl Predicate for Relation {
    open spec fn min_len(&self) -> nat {
        match *self {
            Relation::Equal | Relation::NotEqual | Relation::Less => 2,
            Relation::InRange { .. } => 1,
            Relation::SumAtMost(_) | Relation::SumEquals(_) | Relation::Increasing => 0,
        }
    }

    open spec fn holds(&self, vals: Seq<i64>) -> bool {
        match *self {
            Relation::Equal => vals[0] == vals[1],
            Relation::NotEqual => vals[0] != vals[1],
            Relation::Less => vals[0] < vals[1],
            Relation::InRange { lo, hi } => lo <= vals[0] <= hi,
            Relation::SumAtMost(k) => seq_sum(vals) <= k,
            Relation::SumEquals(k) => seq_sum(vals) == k,
            Relation::Increasing => increasing(vals),
        }
    }

    fn values_needed(&self) -> (r: usize) {
        match *self {
            Relation::Equal | Relation::NotEqual | Relation::Less => 2,
            Relation::InRange { .. } => 1,
            Relation::SumAtMost(_) | Relation::SumEquals(_) | Relation::Increasing => 0,
        }
    }

    fn evaluate(&self, vals: &[i64]) -> (r: bool) {
        match *self {
            Relation::Equal => vals[0] == vals[1],
            Relation::NotEqual => vals[0] != vals[1],
            Relation::Less => vals[0] < vals[1],
            Relation::InRange { lo, hi } => vals[0] >= lo && vals[0] <= hi,
            Relation::SumAtMost(k) => sum_values(vals) <= k as i128,
            Relation::SumEquals(k) => sum_values(vals) == k as i128,
            Relation::Increasing => increasing_values(vals),
        }
    }
}

/// The type that a constraint over `n` variables gets.
pub open spec fn type_for_arity(n: nat) -> ConstraintType {
    if n == 1 {
        ConstraintType::Unary
    } else if n == 2 {
        ConstraintType::Binary
    } else {
        ConstraintType::Nary(n as usize)
    }
}

proof fn lemma_sum_bound(s: Seq<i64>)
    ensures
        -(s.len() as int) * 0x8000_0000_0000_0000 <= seq_sum(s) <= (s.len() as int) * 0x8000_0000_0000_0000,
    decreases s.len(),
{
    if s.len() > 0 {
        lemma_sum_bound(s.drop_last());
    }
}

/// Sum of the values, computed without overflow.
fn sum_values(vals: &[i64]) -> (r: i128)
    ensures
        r == seq_sum(vals@),
{
    let mut acc: i128 = 0;
    let mut i: usize = 0;
    while i < vals.len()
        invariant
            i <= vals@.len(),
            acc == seq_sum(vals@.take(i as int)),
        decreases vals@.len() - i,
    {
        proof {
            assert(vals@.take(i as int + 1).drop_last() =~= vals@.take(i as int));
            lemma_sum_bound(vals@.take(i as int + 1));
            assert(i + 1 <= usize::MAX);
        }
        acc = acc + vals[i] as i128;
        i = i + 1;
    }
    assert(vals@.take(vals@.len() as int) =~= vals@);
    acc
}

/// A constraint over variables in a domain.
#[derive(Debug, Clone)]
pub struct Constraint<R> {
    /// Unique identifier for this constraint.
    pub id: usize,
    /// Type of constraint.
    pub constraint_type: ConstraintType,
    /// Strength in units of `1 / STRENGTH_SCALE` (0 = weak, `STRENGTH_SCALE` = mandatory).
    pub strength: u64,
    /// Variables involved in this constraint.
    pub variables: Vec<usize>,
    /// Domain values available for each variable.
    pub domain: Vec<Vec<i64>>,
    /// The predicate over the values of `variables`, in that order.
    pub relation: R,
}

impl<R: Predicate> Constraint<R> {
    /// Whether `vals` satisfies the constraint's predicate.
    pub open spec fn satisfied_by(self, vals: Seq<i64>) -> bool {
        self.relation.holds(vals)
    }

    /// Create a new constraint; its type follows from the number of variables.
    pub fn new(
        id: usize,
        variables: Vec<usize>,
        domain: Vec<Vec<i64>>,
        strength: u64,
        relation: R,
    ) -> (c: Self)
        ensures
            c.id == id,
            c.variables@ == variables@,
            c.domain@ == domain@,
            c.strength == strength,
            c.relation == relation,
            c.constraint_type == type_for_arity(variables@.len()),
    {
        let n = variables.len();
        let constraint_type = if n == 1 {
            ConstraintType::Unary
        } else if n == 2 {
            ConstraintType::Binary
        } else {
            ConstraintType::Nary(n)
        };
        Constraint { id, constraint_type, strength, variables, domain, relation }
    }

    /// Check if an assignment satisfies this constraint.
    pub fn is_satisfied(&self, assignment: &[i64]) -> (r: bool)
        requires
            self.relation.min_len() <= assignment@.len(),
        ensures
            r == self.satisfied_by(assignment@),
    {
        self.relation.evaluate(assignment)
    }

    /// Get the arity of this constraint.
    pub fn arity(&self) -> (r: usize)
        ensures
            r == self.variables@.len(),
    {
        self.variables.len()
    }

    /// Check if the constraint is mandatory (strength at least 1.0).
    pub fn is_mandatory(&self) -> (r: bool)
        ensures
            r == (self.strength >= STRENGTH_SCALE),
    {
        self.strength >= STRENGTH_SCALE
    }

}

impl Constraint<Relation> {
    /// Create an equality constraint between two variables.
    pub fn equality(id: usize, var_a: usize, var_b: usize, domain: Vec<Vec<i64>>, strength: u64) -> (c: Self)
        ensures
            c.id == id,
            c.variables@ == seq![var_a, var_b],
            c.domain@ == domain@,
            c.strength == strength,
            c.relation == Relation::Equal,
            c.constraint_type == ConstraintType::Binary,
    {
        Self::new(id, vec![var_a, var_b], domain, strength, Relation::Equal)
    }

    /// Create an inequality constraint between two variables.
    pub fn inequality(id: usize, var_a: usize, var_b: usize, domain: Vec<Vec<i64>>, strength: u64) -> (c: Self)
        ensures
            c.id == id,
            c.variables@ == seq![var_a, var_b],
            c.domain@ == domain@,
            c.strength == strength,
            c.relation == Relation::NotEqual,
            c.constraint_type == ConstraintType::Binary,
    {
        Self::new(id, vec![var_a, var_b], domain, strength, Relation::NotEqual)
    }

    /// Create a less-than constraint.
    pub fn less_than(id: usize, var_a: usize, var_b: usize, domain: Vec<Vec<i64>>, strength: u64) -> (c: Self)
        ensures
            c.id == id,
            c.variables@ == seq![var_a, var_b],
            c.domain@ == domain@,
            c.strength == strength,
            c.relation == Relation::Less,
            c.constraint_type == ConstraintType::Binary,
    {
        Self::new(id, vec![var_a, var_b], domain, strength, Relation::Less)
    }

    /// Create a range constraint (unary): variable must be within [lo, hi].
    pub fn range(id: usize, var: usize, domain: Vec<Vec<i64>>, strength: u64, lo: i64, hi: i64) -> (c: Self)
        ensures
            c.id == id,
            c.variables@ == seq![var],
            c.domain@ == domain@,
            c.strength == strength,
            c.relation == (Relation::InRange { lo, hi }),
            c.constraint_type == ConstraintType::Unary,
    {
        Self::new(id, vec![var], domain, strength, Relation::InRange { lo, hi })
    }
}

impl<R: Predicate> Constraint<R> {
    /// A one-line description:
    /// `Constraint(id=.., vars=[..], strength=x.xx, type=..)`, with the
    /// strength as a multiple of `STRENGTH_SCALE` rounded to two decimals.
    pub fn to_string(&self) -> (r: String)
        ensures
            r@ == display_text(*self),
    {
        let (whole, hundredths) = strength_hundredths(self.strength);
        let mut out = String::new();
        proof {
            reveal_strlit("Constraint(id=");
            reveal_strlit(", vars=[");
            reveal_strlit("], strength=");
            reveal_strlit(".");
            reveal_strlit("0");
            reveal_strlit(", type=");
            reveal_strlit(")");
        }
        out.append("Constraint(id=");
        push_decimal(self.id as u64, &mut out);
        out.append(", vars=[");
        push_list(&self.variables, &mut out);
        out.append("], strength=");
        push_decimal(whole, &mut out);
        out.append(".");
        if hundredths < 10 {
            out.append("0");
        }
        push_decimal(hundredths, &mut out);
        out.append(", type=");
        push_type(self.constraint_type, &mut out);
        out.append(")");
        assert(out@ =~= display_text(*self));
        out
    }
}

/// A strength in hundredths of `STRENGTH_SCALE`, ties to even, split into
/// the whole part and the hundredths.
fn strength_hundredths(strength: u64) -> (r: (u64, u64))
    ensures
        r.0 == strength_in_hundredths(strength) / 100,
        r.1 == strength_in_hundredths(strength) % 100,
{
    let q = strength / 10;
    let r = strength % 10;
    let in_hundredths = if r > 5 || (r == 5 && q % 2 == 1) { q + 1 } else { q };
    (in_hundredths / 100, in_hundredths % 100)
}

/// The character of a decimal digit.
pub open spec fn digit_char(d: int) -> char {
    seq!['0', '1', '2', '3', '4', '5', '6', '7', '8', '9'][d]
}

/// The decimal numeral of `n`, without leading zeros.
pub open spec fn decimal(n: nat) -> Seq<char>
    decreases n,
{
    if n < 10 {
        seq![digit_char(n as int)]
    } else {
        decimal(n / 10).push(digit_char((n % 10) as int))
    }
}

/// The numerals of the values, separated by `", "`.
pub open spec fn list_text(vs: Seq<usize>) -> Seq<char>
    decreases vs.len(),
{
    if vs.len() == 0 {
        Seq::empty()
    } else if vs.len() == 1 {
        decimal(vs[0] as nat)
    } else {
        list_text(vs.drop_last()) + seq![',', ' '] + decimal(vs.last() as nat)
    }
}

/// The name of a constraint type, with the arity of an n-ary one.
pub open spec fn type_text(t: ConstraintType) -> Seq<char> {
    match t {
        ConstraintType::Unary => seq!['U', 'n', 'a', 'r', 'y'],
        ConstraintType::Binary => seq!['B', 'i', 'n', 'a', 'r', 'y'],
        ConstraintType::Nary(n) => seq!['N', 'a', 'r', 'y', '('] + decimal(n as nat) + seq![')'],
    }
}

/// The strength in hundredths of `STRENGTH_SCALE`, rounded to the nearest,
/// ties to the even hundredth.
pub open spec fn strength_in_hundredths(strength: u64) -> nat {
    let q = strength / 10;
    let r = strength % 10;
    if r > 5 || (r == 5 && q % 2 == 1) {
        (q + 1) as nat
    } else {
        q as nat
    }
}

/// The hundredths of a strength as two digits.
pub open spec fn two_digits(h: nat) -> Seq<char> {
    if h < 10 {
        seq!['0'] + decimal(h)
    } else {
        decimal(h)
    }
}

/// `Constraint(id=<id>, vars=[<variables>], strength=<x.xx>, type=<type>)`.
pub open spec fn display_text<R: Predicate>(c: Constraint<R>) -> Seq<char> {
    let h = strength_in_hundredths(c.strength);
    seq!['C', 'o', 'n', 's', 't', 'r', 'a', 'i', 'n', 't', '(', 'i', 'd', '='] + decimal(c.id as nat) + seq![
        ',',
        ' ',
        'v',
        'a',
        'r',
        's',
        '=',
        '[',
    ] + list_text(c.variables@) + seq![']', ',', ' ', 's', 't', 'r', 'e', 'n', 'g', 't', 'h', '='] + decimal(h / 100)
        + seq!['.'] + two_digits(h % 100) + seq![',', ' ', 't', 'y', 'p', 'e', '='] + type_text(c.constraint_type)
        + seq![')']
}

/// Append the digit `d`.
fn push_digit(d: u64, out: &mut String)
    requires
        d < 10,
    ensures
        final(out)@ == old(out)@.push(digit_char(d as int)),
{
    proof {
        reveal_strlit("0");
        reveal_strlit("1");
        reveal_strlit("2");
        reveal_strlit("3");
        reveal_strlit("4");
        reveal_strlit("5");
        reveal_strlit("6");
        reveal_strlit("7");
        reveal_strlit("8");
        reveal_strlit("9");
    }
    let ghost before = out@;
    if d == 0 {
        out.append("0");
    } else if d == 1 {
        out.append("1");
    } else if d == 2 {
        out.append("2");
    } else if d == 3 {
        out.append("3");
    } else if d == 4 {
        out.append("4");
    } else if d == 5 {
        out.append("5");
    } else if d == 6 {
        out.append("6");
    } else if d == 7 {
        out.append("7");
    } else if d == 8 {
        out.append("8");
    } else {
        out.append("9");
    }
    assert(out@ =~= before.push(digit_char(d as int)));
}

/// Append the decimal numeral of `n`.
fn push_decimal(n: u64, out: &mut String)
    ensures
        final(out)@ == old(out)@ + decimal(n as nat),
    decreases n,
{
    let ghost before = out@;
    if n >= 10 {
        push_decimal(n / 10, out);
    }
    push_digit(n % 10, out);
    assert(out@ =~= before + decimal(n as nat));
}

/// Append the numerals of the values, separated by `", "`.
fn push_list(vs: &Vec<usize>, out: &mut String)
    ensures
        final(out)@ == old(out)@ + list_text(vs@),
{
    let ghost before = out@;
    let mut i: usize = 0;
    while i < vs.len()
        invariant
            i <= vs@.len(),
            out@ == before + list_text(vs@.take(i as int)),
        decreases vs@.len() - i,
    {
        proof {
            reveal_strlit(", ");
        }
        if i > 0 {
            out.append(", ");
        }
        push_decimal(vs[i] as u64, out);
        proof {
            let t = vs@.take(i as int + 1);
            assert(t.drop_last() =~= vs@.take(i as int));
            if i == 0 {
                assert(list_text(vs@.take(0)) =~= Seq::<char>::empty());
                assert(list_text(t) == decimal(vs@[0] as nat));
            }
            assert(out@ =~= before + list_text(t));
        }
        i = i + 1;
    }
    assert(vs@.take(vs@.len() as int) =~= vs@);
}

/// Append the name of a constraint type.
fn push_type(t: ConstraintType, out: &mut String)
    ensures
        final(out)@ == old(out)@ + type_text(t),
{
    proof {
        reveal_strlit("Unary");
        reveal_strlit("Binary");
        reveal_strlit("Nary(");
        reveal_strlit(")");
    }
    let ghost before = out@;
    match t {
        ConstraintType::Unary => {
            out.append("Unary");
        },
        ConstraintType::Binary => {
            out.append("Binary");
        },
        ConstraintType::Nary(n) => {
            out.append("Nary(");
            push_decimal(n as u64, out);
            out.append(")");
        },
    }
    assert(out@ =~= before + type_text(t));
}

/// A variable in the constraint system.
#[derive(Debug, Clone)]
pub struct Variable {
    /// Variable index.
    pub id: usize,
    /// Current domain of possible values.
    pub domain: Vec<i64>,
    /// Current assignment (if any).
    pub value: Option<i64>,
}

impl Variable {
    /// Create a new variable with the given domain.
    pub fn new(id: usize, domain: Vec<i64>) -> (v: Self)
        ensures
            v.id == id,
            v.domain@ == domain@,
            v.value is None,
    {
        Variable { id, domain, value: None }
    }

    /// Assign a value to this variable.
    pub fn assign(&mut self, value: i64)
        ensures
            final(self).id == old(self).id,
            final(self).domain@ == old(self).domain@,
            final(self).value == Some(value),
    {
        self.value = Some(value);
    }

    /// Unassign this variable.
    pub fn unassign(&mut self)
        ensures
            final(self).id == old(self).id,
            final(self).domain@ == old(self).domain@,
            final(self).value is None,
    {
        self.value = None;
    }

    /// Check if assigned.
    pub fn is_assigned(&self) -> (r: bool)
        ensures
            r == self.value is Some,
    {
        self.value.is_some()
    }

    /// Remove the first occurrence of a value from the domain; report whether
    /// there was one.
    pub fn remove_from_domain(&mut self, val: i64) -> (r: bool)
        ensures
            final(self).id == old(self).id,
            final(self).value == old(self).value,
            r == old(self).domain@.contains(val),
            !r ==> final(self).domain@ == old(self).domain@,
            r ==> exists|i: int|
                0 <= i < old(self).domain@.len() && old(self).domain@[i] == val
                && (forall|j: int| 0 <= j < i ==> old(self).domain@[j] != val)
                && final(self).domain@ == old(self).domain@.remove(i),
    {
        let mut i: usize = 0;
        while i < self.domain.len()
            invariant
                i <= self.domain@.len(),
                self.id == old(self).id,
                self.value == old(self).value,
                self.domain@ == old(self).domain@,
                forall|j: int| 0 <= j < i ==> self.domain@[j] != val,
            decreases self.domain@.len() - i,
        {
            if self.domain[i] == val {
                let ghost before = self.domain@;
                self.domain.remove(i);
                assert(before[i as int] == val);
                return true;
            }
            i = i + 1;
        }
        false
    }

    /// Domain size.
    pub fn domain_size(&self) -> (r: usize)
        ensures
            r == self.domain@.len(),
    {
        self.domain.len()
    }
}

} // verus!
