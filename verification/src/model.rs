use vstd::prelude::*;

verus! {

/// A decision variable of the integer program: the number of boosts that a
/// hero receives (a non-negative integer), or the indicator of a stage (zero
/// or one), named by the round in which the stage ends the fight.
#[derive(Debug, PartialEq, Eq, Clone, Copy)]
pub enum Var {
    Boost(usize),
    Stage(usize),
}

/// One summand `coeff * var` of a linear expression.
#[derive(Debug, PartialEq, Eq, Clone, Copy)]
pub struct Term {
    pub coeff: i64,
    pub var: Var,
}

/// How the sum of a constraint stands to its bound.
#[derive(Debug, PartialEq, Eq, Clone, Copy)]
pub enum Relation {
    AtMost,
    AtLeast,
}

/// The linear constraint `sum of terms  relation  bound`.
#[derive(Debug, PartialEq, Eq)]
pub struct Constraint {
    pub terms: Vec<Term>,
    pub relation: Relation,
    pub bound: i64,
}

/// A constraint as a value of mathematics: its terms as a sequence.
pub struct ConstraintView {
    pub terms: Seq<Term>,
    pub relation: Relation,
    pub bound: i64,
}

impl View for Constraint {
    type V = ConstraintView;

    open spec fn view(&self) -> ConstraintView {
        ConstraintView { terms: self.terms@, relation: self.relation, bound: self.bound }
    }
}

/// A maximisation problem over integer variables: the constraints, and the
/// objective as a sum of terms.
#[derive(Debug, PartialEq, Eq)]
pub struct LinearProgram {
    pub constraints: Vec<Constraint>,
    pub objective: Vec<Term>,
}

/// A program as a value of mathematics: its constraints and the terms of its
/// objective as sequences.
pub struct ProgramView {
    pub constraints: Seq<ConstraintView>,
    pub objective: Seq<Term>,
}

impl View for LinearProgram {
    type V = ProgramView;

    open spec fn view(&self) -> ProgramView {
        ProgramView {
            constraints: Seq::new(self.constraints.len() as nat, |i: int| self.constraints[i]@),
            objective: self.objective@,
        }
    }
}

impl LinearProgram {
    /// A program without constraints and with an empty objective.
    pub fn new() -> (program: LinearProgram)
        ensures
            program@.constraints == Seq::<ConstraintView>::empty(),
            program@.objective == Seq::<Term>::empty(),
    {
        let program = LinearProgram { constraints: Vec::new(), objective: Vec::new() };
        assert(program@.constraints =~= Seq::<ConstraintView>::empty());
        program
    }

    /// Adds one constraint behind those that are there.
    pub fn add_constraint(&mut self, constraint: Constraint)
        ensures
            final(self)@.constraints == old(self)@.constraints.push(constraint@),
            final(self)@.objective == old(self)@.objective,
    {
        self.constraints.push(constraint);
        assert(self@.constraints =~= old(self)@.constraints.push(constraint@));
    }

    /// Replaces the objective.
    pub fn set_objective(&mut self, objective: Vec<Term>)
        ensures
            final(self)@.constraints == old(self)@.constraints,
            final(self)@.objective == objective@,
    {
        self.objective = objective;
        assert(self@.constraints =~= old(self)@.constraints);
    }
}

/// Values for the variables of a program: `boosts[i]` for the boost variable
/// of hero `i`, `stages[t]` for the indicator of the stage of round `t`. A
/// variable without a value counts as zero.
pub struct Valuation {
    pub boosts: Seq<i64>,
    pub stages: Map<usize, i64>,
}

impl Valuation {
    pub open spec fn value(self, var: Var) -> int {
        match var {
            Var::Boost(i) => if i < self.boosts.len() {
                self.boosts[i as int] as int
            } else {
                0
            },
            Var::Stage(turn) => if self.stages.contains_key(turn) {
                self.stages[turn] as int
            } else {
                0
            },
        }
    }

    /// The values are of the kind of their variables: no boost variable is
    /// negative, and every indicator is zero or one.
    pub open spec fn in_domain(self) -> bool {
        &&& forall|i: int| 0 <= i < self.boosts.len() ==> #[trigger] self.boosts[i] >= 0
        &&& forall|turn: usize|
            self.stages.contains_key(turn) ==> #[trigger] self.stages[turn] == 0
                || self.stages[turn] == 1
    }
}

/// The value of the sum of `terms`.
pub open spec fn sum_of(terms: Seq<Term>, values: Valuation) -> int
    decreases terms.len(),
{
    if terms.len() == 0 {
        0
    } else {
        sum_of(terms.drop_last(), values) + terms.last().coeff * values.value(terms.last().var)
    }
}

impl ConstraintView {
    /// The values meet the constraint.
    pub open spec fn holds(self, values: Valuation) -> bool {
        match self.relation {
            Relation::AtMost => sum_of(self.terms, values) <= self.bound,
            Relation::AtLeast => sum_of(self.terms, values) >= self.bound,
        }
    }
}

impl ProgramView {
    /// The values are of the right kind and meet every constraint.
    pub open spec fn feasible(self, values: Valuation) -> bool {
        &&& values.in_domain()
        &&& forall|k: int| 0 <= k < self.constraints.len() ==> (#[trigger] self.constraints[k]).holds(values)
    }
}

/// The decimal digits of `n`, most significant first.
pub open spec fn decimal(n: nat) -> Seq<char>
    decreases n,
{
    if n < 10 {
        seq![(('0' as u8) + n) as char]
    } else {
        decimal(n / 10).push((('0' as u8) + n % 10) as char)
    }
}

/// The label of the variable `name` of number `index`: the name, an
/// underscore, and the number in decimal.
pub open spec fn label_text(name: Seq<char>, index: usize) -> Seq<char> {
    name + seq!['_'] + decimal(index as nat)
}

/// Calls `format!` of std to join a name, an underscore and a number. The
/// contract claims what `Display` documents for `str` and `usize`: the text
/// as it is, and the number in decimal without sign or leading zeros.
#[verifier::external_body]
fn join_label(name: &str, index: usize) -> (label: String)
    ensures
        label@ == label_text(name@, index),
{
    format!("{}_{}", name, index)
}

/// A decision variable as the solver sees it: its number within its family,
/// and the label that it bears in the solver's input and output.
#[derive(Debug, PartialEq, Eq)]
pub struct DynVariable {
    pub index: usize,
    pub label: String,
}

impl DynVariable {
    pub fn new(name: &str, index: usize) -> (variable: DynVariable)
        ensures
            variable.index == index,
            variable.label@ == label_text(name@, index),
    {
        let label = join_label(name, index);
        DynVariable { index, label }
    }
}

/// The values that the solver found: `boosts[i]` for the boost variable of
/// hero `i`, `stages[k]` for the `k`-th stage indicator of the formulation.
#[derive(Debug, PartialEq, Eq)]
pub struct Assignment {
    pub boosts: Vec<i64>,
    pub stages: Vec<i64>,
}

/// What the solver says of a program.
#[derive(Debug, PartialEq, Eq)]
pub enum SolverVerdict {
    Optimal(Assignment),
    Infeasible,
    Error(String),
}

} // verus!
