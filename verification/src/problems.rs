//! Problems and answer validation.
//!
//! A problem carries exactly one [`ProblemContent`]: a free-response
//! question with restrictions on the input and a list of solution
//! predicates, a multiple-choice question, or a checklist. Free-response
//! answers are checked by [`FreeResponseRestriction::check`] (format) and
//! [`FreeResponseSolution::check`] (correctness); multiple-choice and
//! checklist answers are graded structurally against the stored solution.

use vstd::prelude::*;
use crate::decimal::Decimal;
use crate::decimal::i32_ok;
use crate::decimal::u32_ok;
use crate::decimal::numeral_fits;
use crate::decimal::numeral_decimal;
use crate::decimal::spec_le;
use crate::decimal::spec_lt;
use crate::decimal::spec_within;
use crate::decimal::parse_decimal;
use crate::decimal::parse_i32;
use crate::decimal::parse_u32;
use crate::text::append_u64;
use crate::text::decimal_chars;
use crate::text::nat_digits;

verus! {

/// The topic a problem is filed under.
#[derive(Clone, Copy, Debug, PartialEq, Eq, Structural)]
pub enum Topic {
    Math,
    Trivia,
    Logic,
}

/// The kind of content a problem holds.
#[derive(Clone, Copy, Debug, PartialEq, Eq, Structural)]
pub enum ProblemType {
    FreeResponse,
    MultipleChoice,
    Checklist,
}

/// A restriction on the format of a free-response answer. The imaginary
/// kinds are declared but intentionally unsupported: checking them is a
/// defect, not a rejection, and [`FreeResponseRestriction::check`] leaves
/// them out by precondition.
#[derive(Clone, Copy, Debug, PartialEq)]
pub enum FreeResponseRestriction {
    Imaginary,
    Integer,
    Natural,
    MaxCharacterLength(usize),
    RealInRange { start: Option<Decimal>, end: Option<Decimal> },
    ImaginaryInRange { start: Option<Decimal>, end: Option<Decimal> },
}

/// A predicate deciding whether a free-response answer is a solution.
/// `ImaginaryEquals` is declared but intentionally unsupported.
#[derive(Clone, Debug, PartialEq)]
pub enum FreeResponseSolution {
    RealEquals { eq: Decimal, precision: Decimal },
    ImaginaryEquals { eq: Decimal, precision: Decimal },
    TextEquals { eq: String },
}

/// Why an answer failed a restriction. Each variant carries what the
/// user-displayable message needs.
#[derive(Clone, Copy, Debug, PartialEq, Eq)]
pub enum Rejection {
    NotInteger,
    NotNatural,
    TooLong { limit: usize },
    NotReal,
    BelowMinimum { bound: Decimal },
    AboveMaximum { bound: Decimal },
}

impl FreeResponseRestriction {
    /// The numeric parameters of the restriction are representable.
    pub open spec fn wf(self) -> bool {
        match self {
            FreeResponseRestriction::RealInRange { start, end } => {
                &&& (start matches Some(a) ==> a.wf())
                &&& (end matches Some(b) ==> b.wf())
            },
            FreeResponseRestriction::ImaginaryInRange { start, end } => {
                &&& (start matches Some(a) ==> a.wf())
                &&& (end matches Some(b) ==> b.wf())
            },
            _ => true,
        }
    }

    /// The restriction kind has checking support.
    pub open spec fn spec_supported(self) -> bool {
        !(self is Imaginary) && !(self is ImaginaryInRange)
    }

    /// Runtime test for [`FreeResponseRestriction::spec_supported`].
    pub fn supported(&self) -> (r: bool)
        ensures
            r == self.spec_supported(),
    {
        match self {
            FreeResponseRestriction::Imaginary => false,
            FreeResponseRestriction::ImaginaryInRange { .. } => false,
            _ => true,
        }
    }

    /// Runtime test for [`FreeResponseRestriction::wf`].
    pub fn is_wf(&self) -> (r: bool)
        ensures
            r == self.wf(),
    {
        match self {
            FreeResponseRestriction::RealInRange { start, end } => {
                let s_ok = match start {
                    Some(a) => a.is_wf(),
                    None => true,
                };
                let e_ok = match end {
                    Some(b) => b.is_wf(),
                    None => true,
                };
                s_ok && e_ok
            },
            FreeResponseRestriction::ImaginaryInRange { start, end } => {
                let s_ok = match start {
                    Some(a) => a.is_wf(),
                    None => true,
                };
                let e_ok = match end {
                    Some(b) => b.is_wf(),
                    None => true,
                };
                s_ok && e_ok
            },
            _ => true,
        }
    }
}

/// What checking one restriction against one input returns: `Ok` when the
/// input satisfies it, and otherwise exactly which bound or format was
/// violated. Integer and Natural follow base-10 `i32` / `u32` numerals;
/// MaxCharacterLength requires strictly fewer characters than its limit;
/// RealInRange requires a decimal numeral within capacity and inside the
/// given closed bounds, the lower bound checked first.
pub open spec fn spec_check_restriction(r: FreeResponseRestriction, input: Seq<char>) -> Result<
    (),
    Rejection,
>
    recommends
        r.spec_supported(),
{
    match r {
        FreeResponseRestriction::Integer => if i32_ok(input) {
            Ok(())
        } else {
            Err(Rejection::NotInteger)
        },
        FreeResponseRestriction::Natural => if u32_ok(input) {
            Ok(())
        } else {
            Err(Rejection::NotNatural)
        },
        FreeResponseRestriction::MaxCharacterLength(limit) => if input.len() < limit {
            Ok(())
        } else {
            Err(Rejection::TooLong { limit })
        },
        FreeResponseRestriction::RealInRange { start, end } => if !numeral_fits(input) {
            Err(Rejection::NotReal)
        } else {
            let x = numeral_decimal(input);
            if start matches Some(a) && spec_lt(x, a) {
                Err(Rejection::BelowMinimum { bound: start->Some_0 })
            } else if end matches Some(b) && spec_lt(b, x) {
                Err(Rejection::AboveMaximum { bound: end->Some_0 })
            } else {
                Ok(())
            }
        },
        _ => arbitrary(),
    }
}

impl FreeResponseRestriction {
    /// Checks whether `response` satisfies this restriction, returning the
    /// violated bound or format on failure.
    pub fn check(&self, response: String) -> (r: Result<(), Rejection>)
        requires
            self.wf(),
            self.spec_supported(),
        ensures
            r == spec_check_restriction(*self, response@),
    {
        match self {
            FreeResponseRestriction::Integer => {
                match parse_i32(response.as_str()) {
                    Some(_) => Ok(()),
                    None => Err(Rejection::NotInteger),
                }
            },
            FreeResponseRestriction::Natural => {
                match parse_u32(response.as_str()) {
                    Some(_) => Ok(()),
                    None => Err(Rejection::NotNatural),
                }
            },
            FreeResponseRestriction::MaxCharacterLength(limit) => {
                let n = response.as_str().unicode_len();
                if n < *limit {
                    Ok(())
                } else {
                    Err(Rejection::TooLong { limit: *limit })
                }
            },
            FreeResponseRestriction::RealInRange { start, end } => {
                match parse_decimal(response.as_str()) {
                    None => Err(Rejection::NotReal),
                    Some(x) => {
                        let low_fail = match start {
                            Some(a) => x.lt(a),
                            None => false,
                        };
                        if low_fail {
                            return Err(
                                Rejection::BelowMinimum {
                                    bound: match start {
                                        Some(a) => *a,
                                        None => unreached(),
                                    },
                                },
                            );
                        }
                        let high_fail = match end {
                            Some(b) => b.lt(&x),
                            None => false,
                        };
                        if high_fail {
                            return Err(
                                Rejection::AboveMaximum {
                                    bound: match end {
                                        Some(b) => *b,
                                        None => unreached(),
                                    },
                                },
                            );
                        }
                        Ok(())
                    },
                }
            },
            FreeResponseRestriction::Imaginary => unreached(),
            FreeResponseRestriction::ImaginaryInRange { .. } => unreached(),
        }
    }
}

/// Law: for a range restriction with both bounds present, an input that
/// parses as a decimal passes exactly when its value lies in the closed
/// interval between the bounds.
pub proof fn lemma_range_check_iff(a: Decimal, b: Decimal, input: Seq<char>)
    requires
        numeral_fits(input),
    ensures
        spec_check_restriction(
            FreeResponseRestriction::RealInRange { start: Some(a), end: Some(b) },
            input,
        ) is Ok <==> spec_le(a, numeral_decimal(input)) && spec_le(numeral_decimal(input), b),
{
}

/// The user-displayable text of each rejection, quoting the violated
/// parameter.
pub open spec fn rejection_message(r: Rejection) -> Seq<char> {
    match r {
        Rejection::NotInteger => ("Input must a valid integer")@,
        Rejection::NotNatural => ("Input must a natural number")@,
        Rejection::TooLong { limit } => ("Input must be ")@ + nat_digits(limit as int) + (
        " characters or less")@,
        Rejection::NotReal => ("Input must be a real number")@,
        Rejection::BelowMinimum { bound } => ("Input must be greater than ")@ + decimal_chars(
            bound,
        ),
        Rejection::AboveMaximum { bound } => ("Input must be less than ")@ + decimal_chars(bound),
    }
}

impl Rejection {
    /// A bound quoted by the rejection is representable.
    pub open spec fn wf(self) -> bool {
        match self {
            Rejection::BelowMinimum { bound } => bound.wf(),
            Rejection::AboveMaximum { bound } => bound.wf(),
            _ => true,
        }
    }

    /// Builds the user-displayable message for this rejection.
    pub fn message(&self) -> (r: String)
        requires
            self.wf(),
        ensures
            r@ == rejection_message(*self),
    {
        match self {
            Rejection::NotInteger => String::from_str("Input must a valid integer"),
            Rejection::NotNatural => String::from_str("Input must a natural number"),
            Rejection::TooLong { limit } => {
                let mut out = String::from_str("Input must be ");
                append_u64(&mut out, *limit as u64);
                out.append(" characters or less");
                out
            },
            Rejection::NotReal => String::from_str("Input must be a real number"),
            Rejection::BelowMinimum { bound } => {
                let mut out = String::from_str("Input must be greater than ");
                let t = bound.to_text();
                out.append(t.as_str());
                out
            },
            Rejection::AboveMaximum { bound } => {
                let mut out = String::from_str("Input must be less than ");
                let t = bound.to_text();
                out.append(t.as_str());
                out
            },
        }
    }
}

impl FreeResponseSolution {
    /// The numeric parameters of the solution predicate are representable.
    pub open spec fn wf(self) -> bool {
        match self {
            FreeResponseSolution::RealEquals { eq, precision } => eq.wf() && precision.wf(),
            FreeResponseSolution::ImaginaryEquals { eq, precision } => eq.wf() && precision.wf(),
            FreeResponseSolution::TextEquals { .. } => true,
        }
    }

    /// The solution kind has checking support.
    pub open spec fn spec_supported(self) -> bool {
        !(self is ImaginaryEquals)
    }

    /// Runtime test for [`FreeResponseSolution::spec_supported`].
    pub fn supported(&self) -> (r: bool)
        ensures
            r == self.spec_supported(),
    {
        match self {
            FreeResponseSolution::ImaginaryEquals { .. } => false,
            _ => true,
        }
    }
}

/// Whether `input` is accepted by the solution predicate: for
/// `RealEquals`, the input is a decimal numeral within capacity whose
/// value is strictly closer to `eq` than `precision`; for `TextEquals`,
/// the input equals the stored text exactly, case-sensitive, untrimmed.
pub open spec fn spec_check_solution(sol: FreeResponseSolution, input: Seq<char>) -> bool
    recommends
        sol.spec_supported(),
{
    match sol {
        FreeResponseSolution::RealEquals { eq, precision } => numeral_fits(input) && spec_within(
            numeral_decimal(input),
            eq,
            precision,
        ),
        FreeResponseSolution::TextEquals { eq } => input == eq@,
        FreeResponseSolution::ImaginaryEquals { .. } => arbitrary(),
    }
}

impl FreeResponseSolution {
    /// Checks whether `response` is accepted by this solution predicate.
    pub fn check(&self, response: String) -> (r: bool)
        requires
            self.wf(),
            self.spec_supported(),
        ensures
            r == spec_check_solution(*self, response@),
    {
        match self {
            FreeResponseSolution::RealEquals { eq, precision } => {
                match parse_decimal(response.as_str()) {
                    Some(x) => x.within(eq, precision),
                    None => false,
                }
            },
            FreeResponseSolution::TextEquals { eq } => response.eq(eq),
            FreeResponseSolution::ImaginaryEquals { .. } => unreached(),
        }
    }
}

/// The verdict of a restriction list on an input: the first failing
/// restriction's rejection, in list order, or `Ok` when all pass.
pub open spec fn spec_check_restrictions(
    rs: Seq<FreeResponseRestriction>,
    input: Seq<char>,
) -> Result<(), Rejection>
    decreases rs.len(),
{
    if rs.len() == 0 {
        Ok(())
    } else {
        match spec_check_restriction(rs[0], input) {
            Err(e) => Err(e),
            Ok(u) => spec_check_restrictions(rs.drop_first(), input),
        }
    }
}

/// Applies each restriction to `response` in order, surfacing the first
/// failure and not evaluating the restrictions after it.
pub fn check_restrictions(restrictions: &Vec<FreeResponseRestriction>, response: &String) -> (r:
    Result<(), Rejection>)
    requires
        forall|i: int|
            0 <= i < restrictions@.len() ==> (#[trigger] restrictions@[i]).wf()
                && restrictions@[i].spec_supported(),
    ensures
        r == spec_check_restrictions(restrictions@, response@),
{
    let ghost rs = restrictions@;
    proof {
        assert(rs.skip(0) =~= rs);
    }
    let n = restrictions.len();
    let mut i: usize = 0;
    while i < n
        invariant
            0 <= i <= n == rs.len(),
            rs == restrictions@,
            forall|k: int| 0 <= k < rs.len() ==> (#[trigger] rs[k]).wf() && rs[k].spec_supported(),
            spec_check_restrictions(rs, response@) == spec_check_restrictions(
                rs.skip(i as int),
                response@,
            ),
        decreases n - i,
    {
        let verdict = restrictions[i].check(response.clone());
        proof {
            assert(rs.skip(i as int)[0] == rs[i as int]);
            assert(rs.skip(i as int).drop_first() =~= rs.skip(i + 1));
        }
        if let Err(e) = verdict {
            return Err(e);
        }
        i = i + 1;
    }
    proof {
        assert(rs.skip(n as int) =~= Seq::<FreeResponseRestriction>::empty());
    }
    Ok(())
}

/// Every restriction in the list is of a supported kind.
pub fn restrictions_supported(restrictions: &Vec<FreeResponseRestriction>) -> (r: bool)
    ensures
        r == forall|i: int|
            0 <= i < restrictions@.len() ==> (#[trigger] restrictions@[i]).spec_supported(),
{
    let n = restrictions.len();
    let mut i: usize = 0;
    while i < n
        invariant
            0 <= i <= n == restrictions@.len(),
            forall|k: int| 0 <= k < i ==> (#[trigger] restrictions@[k]).spec_supported(),
        decreases n - i,
    {
        if !restrictions[i].supported() {
            proof {
                assert(!restrictions@[i as int].spec_supported());
            }
            return false;
        }
        i = i + 1;
    }
    true
}

/// Every solution predicate in the list is of a supported kind.
pub fn solutions_supported(solutions: &Vec<FreeResponseSolution>) -> (r: bool)
    ensures
        r == forall|i: int|
            0 <= i < solutions@.len() ==> (#[trigger] solutions@[i]).spec_supported(),
{
    let n = solutions.len();
    let mut i: usize = 0;
    while i < n
        invariant
            0 <= i <= n == solutions@.len(),
            forall|k: int| 0 <= k < i ==> (#[trigger] solutions@[k]).spec_supported(),
        decreases n - i,
    {
        if !solutions[i].supported() {
            proof {
                assert(!solutions@[i as int].spec_supported());
            }
            return false;
        }
        i = i + 1;
    }
    true
}

/// The input is accepted by some solution predicate in the list.
pub open spec fn spec_check_solutions(sols: Seq<FreeResponseSolution>, input: Seq<char>) -> bool {
    exists|i: int| 0 <= i < sols.len() && spec_check_solution(sols[i], input)
}

/// Checks `response` against each solution predicate: the answer is a
/// solution exactly when at least one predicate accepts it.
pub fn check_solutions(solutions: &Vec<FreeResponseSolution>, response: &String) -> (r: bool)
    requires
        forall|i: int|
            0 <= i < solutions@.len() ==> (#[trigger] solutions@[i]).wf()
                && solutions@[i].spec_supported(),
    ensures
        r == spec_check_solutions(solutions@, response@),
{
    let n = solutions.len();
    let mut i: usize = 0;
    while i < n
        invariant
            0 <= i <= n == solutions@.len(),
            forall|k: int|
                0 <= k < solutions@.len() ==> (#[trigger] solutions@[k]).wf()
                    && solutions@[k].spec_supported(),
            forall|k: int| 0 <= k < i ==> !spec_check_solution(#[trigger] solutions@[k], response@),
        decreases n - i,
    {
        if solutions[i].check(response.clone()) {
            proof {
                assert(spec_check_solution(solutions@[i as int], response@));
            }
            return true;
        }
        i = i + 1;
    }
    false
}

/// A multiple-choice answer is correct exactly when the selected option
/// index equals the stored solution index.
pub fn multiple_choice_correct(solution: usize, selected: usize) -> (r: bool)
    ensures
        r == (selected == solution),
{
    selected == solution
}

/// Whether `v` holds `x`.
fn contains_index(v: &Vec<usize>, x: usize) -> (r: bool)
    ensures
        r == v@.contains(x),
{
    let n = v.len();
    let mut i: usize = 0;
    while i < n
        invariant
            0 <= i <= n == v@.len(),
            forall|k: int| 0 <= k < i ==> v@[k] != x,
        decreases n - i,
    {
        if v[i] == x {
            return true;
        }
        i = i + 1;
    }
    false
}

/// A checklist answer is correct exactly when the selected index set
/// equals the stored solution index set: a proper subset or superset of
/// the solution is not accepted.
pub fn checklist_correct(solution: &Vec<usize>, selected: &Vec<usize>) -> (r: bool)
    ensures
        r == (selected@.to_set() == solution@.to_set()),
{
    let n_sel = selected.len();
    let mut i: usize = 0;
    while i < n_sel
        invariant
            0 <= i <= n_sel == selected@.len(),
            forall|k: int| 0 <= k < i ==> solution@.contains(#[trigger] selected@[k]),
        decreases n_sel - i,
    {
        if !contains_index(solution, selected[i]) {
            proof {
                assert(selected@.to_set().contains(selected@[i as int]));
                assert(!solution@.to_set().contains(selected@[i as int]));
            }
            return false;
        }
        i = i + 1;
    }
    let n_sol = solution.len();
    let mut j: usize = 0;
    while j < n_sol
        invariant
            0 <= j <= n_sol == solution@.len(),
            forall|k: int| 0 <= k < selected@.len() ==> solution@.contains(#[trigger] selected@[k]),
            forall|k: int| 0 <= k < j ==> selected@.contains(#[trigger] solution@[k]),
        decreases n_sol - j,
    {
        if !contains_index(selected, solution[j]) {
            proof {
                assert(solution@.to_set().contains(solution@[j as int]));
                assert(!selected@.to_set().contains(solution@[j as int]));
            }
            return false;
        }
        j = j + 1;
    }
    proof {
        assert(selected@.to_set() =~= solution@.to_set());
    }
    true
}

/// The content of a problem: what is asked and what counts as a correct
/// answer.
#[derive(Clone, Debug)]
pub enum ProblemContent {
    FreeResponse {
        restrictions: Vec<FreeResponseRestriction>,
        solution: Vec<FreeResponseSolution>,
    },
    MultipleChoice { options: Vec<String>, solution: usize },
    Checklist { options: Vec<String>, solution: Vec<usize> },
}

impl ProblemContent {
    /// Structural invariants of problem content: a multiple-choice
    /// solution indexes an option; checklist solution indices all index
    /// options and hold no duplicates; free-response parameters are
    /// representable.
    pub open spec fn wf(self) -> bool {
        match self {
            ProblemContent::FreeResponse { restrictions, solution } => {
                &&& forall|i: int|
                    0 <= i < restrictions@.len() ==> (#[trigger] restrictions@[i]).wf()
                &&& forall|i: int| 0 <= i < solution@.len() ==> (#[trigger] solution@[i]).wf()
            },
            ProblemContent::MultipleChoice { options, solution } => solution < options@.len(),
            ProblemContent::Checklist { options, solution } => {
                &&& forall|i: int| 0 <= i < solution@.len() ==> (#[trigger] solution@[i])
                    < options@.len()
                &&& solution@.no_duplicates()
            },
        }
    }

    /// The kind of this content.
    pub open spec fn spec_get_type(self) -> ProblemType {
        match self {
            ProblemContent::FreeResponse { .. } => ProblemType::FreeResponse,
            ProblemContent::MultipleChoice { .. } => ProblemType::MultipleChoice,
            ProblemContent::Checklist { .. } => ProblemType::Checklist,
        }
    }

    /// Returns the kind of this content.
    pub fn get_type(&self) -> (t: ProblemType)
        ensures
            t == self.spec_get_type(),
    {
        match self {
            ProblemContent::FreeResponse { .. } => ProblemType::FreeResponse,
            ProblemContent::MultipleChoice { .. } => ProblemType::MultipleChoice,
            ProblemContent::Checklist { .. } => ProblemType::Checklist,
        }
    }

    /// Runtime test for [`ProblemContent::wf`].
    #[verifier::loop_isolation(false)]
    pub fn is_wf(&self) -> (r: bool)
        ensures
            r == self.wf(),
    {
        match self {
            ProblemContent::FreeResponse { restrictions, solution } => {
                let nr = restrictions.len();
                let mut i: usize = 0;
                while i < nr
                    invariant
                        0 <= i <= nr == restrictions@.len(),
                        forall|k: int| 0 <= k < i ==> (#[trigger] restrictions@[k]).wf(),
                    decreases nr - i,
                {
                    if !restrictions[i].is_wf() {
                        proof {
                            assert(!restrictions@[i as int].wf());
                        }
                        return false;
                    }
                    i = i + 1;
                }
                let ns = solution.len();
                let mut j: usize = 0;
                while j < ns
                    invariant
                        0 <= j <= ns == solution@.len(),
                        forall|k: int| 0 <= k < j ==> (#[trigger] solution@[k]).wf(),
                    decreases ns - j,
                {
                    let sol_wf = match &solution[j] {
                        FreeResponseSolution::RealEquals { eq, precision } => {
                            eq.is_wf() && precision.is_wf()
                        },
                        FreeResponseSolution::ImaginaryEquals { eq, precision } => {
                            eq.is_wf() && precision.is_wf()
                        },
                        FreeResponseSolution::TextEquals { .. } => true,
                    };
                    if !sol_wf {
                        proof {
                            assert(!solution@[j as int].wf());
                        }
                        return false;
                    }
                    j = j + 1;
                }
                true
            },
            ProblemContent::MultipleChoice { options, solution } => *solution < options.len(),
            ProblemContent::Checklist { options, solution } => {
                let n = solution.len();
                let mut i: usize = 0;
                while i < n
                    invariant
                        0 <= i <= n == solution@.len(),
                        forall|k: int| 0 <= k < i ==> (#[trigger] solution@[k]) < options@.len(),
                        forall|k1: int, k2: int|
                            0 <= k1 < i && 0 <= k2 < i && k1 != k2 ==> solution@[k1]
                                != solution@[k2],
                    decreases n - i,
                {
                    if solution[i] >= options.len() {
                        proof {
                            assert(solution@[i as int] >= options@.len());
                        }
                        return false;
                    }
                    let mut j: usize = 0;
                    while j < i
                        invariant
                            0 <= j <= i < n == solution@.len(),
                            forall|k: int| 0 <= k < j ==> solution@[k] != solution@[i as int],
                        decreases i - j,
                    {
                        if solution[j] == solution[i] {
                            proof {
                                assert(solution@[j as int] == solution@[i as int]);
                                assert(!solution@.no_duplicates());
                            }
                            return false;
                        }
                        j = j + 1;
                    }
                    i = i + 1;
                }
                true
            },
        }
    }
}

/// A stored problem.
#[derive(Clone, Debug)]
pub struct Problem {
    pub id: i32,
    pub owner_id: i32,
    pub recommendations: i32,
    pub topic: Topic,
    pub tags: Vec<String>,
    pub prompt: String,
    pub content: ProblemContent,
}

impl Problem {
    /// A valid problem record: the recommendation counter is non-negative
    /// and the content invariants hold.
    pub open spec fn wf(self) -> bool {
        self.recommendations >= 0 && self.content.wf()
    }
}

/// A problem not yet stored, as submitted for creation.
#[derive(Clone, Debug)]
pub struct NewProblem {
    pub owner_id: i32,
    pub topic: Topic,
    pub tags: Vec<String>,
    pub prompt: String,
    pub content: ProblemContent,
}

} // verus!
