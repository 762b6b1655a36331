//! Checks that an aggregate's layout hints ask for the C layout and nothing
//! else, which the expand/split engine relies on.
use vstd::prelude::*;

verus! {

/// A layout hint of a `repr` attribute.
#[derive(Debug, Clone, Copy, PartialEq, Eq, Structural)]
pub enum ReprHint {
    /// The C layout.
    C,
    /// Any other hint (`packed`, `align(..)`, `transparent`, ...).
    Other,
}

/// One problem found among the hints.
#[derive(Debug, Clone, Copy, PartialEq, Eq, Structural)]
pub enum Problem {
    /// No hint asks for the C layout.
    MissingReprC,
    /// The hint at this position asks for another layout.
    OtherHint(usize),
}

/// The problems found, in the order they were found.
#[derive(Debug, PartialEq, Eq)]
pub struct CheckError {
    problems: Vec<Problem>,
}

impl View for CheckError {
    type V = Seq<Problem>;

    closed spec fn view(&self) -> Seq<Problem> {
        self.problems@
    }
}

impl CheckError {
    /// The problems found.
    pub fn problems(&self) -> (r: &Vec<Problem>)
        ensures
            r@ == self@,
    {
        &self.problems
    }

    fn single(problem: Problem) -> (r: CheckError)
        ensures
            r@ == seq![problem],
    {
        let mut problems = Vec::new();
        problems.push(problem);
        proof {
            assert(problems@ =~= seq![problem]);
        }
        CheckError { problems }
    }
}

/// Outcome of a check: the problems found, if any.
pub type CheckResult = Result<(), CheckError>;

/// Problems of an outcome.
pub open spec fn problems_of(r: CheckResult) -> Seq<Problem> {
    match r {
        Ok(_) => Seq::empty(),
        Err(e) => e@,
    }
}

/// Like [`Result::and`], but when both fail the problems of `later` follow
/// those of `earlier`.
pub fn combine(earlier: CheckResult, later: CheckResult) -> (r: CheckResult)
    ensures
        r is Ok <==> earlier is Ok && later is Ok,
        problems_of(r) == problems_of(earlier) + problems_of(later),
{
    match (earlier, later) {
        (Ok(_), result) => {
            proof {
                assert(Seq::<Problem>::empty() + problems_of(result) =~= problems_of(result));
            }
            result
        },
        (error, Ok(_)) => {
            proof {
                assert(problems_of(error) + Seq::<Problem>::empty() =~= problems_of(error));
            }
            error
        },
        (Err(old), Err(new)) => {
            let mut problems = old.problems;
            let mut rest = new.problems;
            problems.append(&mut rest);
            Err(CheckError { problems })
        },
    }
}

/// Whether a C layout hint has been seen.
#[derive(Debug, Clone, Copy, PartialEq, Eq, Structural)]
pub enum Status {
    /// No C hint seen yet.
    Missing,
    /// At least one C hint seen.
    Found,
}

impl Status {
    /// `Found` when either is.
    pub fn or(self, other: Status) -> (r: Status)
        ensures
            (r == Status::Found) <==> (self == Status::Found || other == Status::Found),
    {
        match (self, other) {
            (Status::Missing, Status::Missing) => Status::Missing,
            (_, _) => Status::Found,
        }
    }

    /// `Ok` when found; a missing C hint is a problem.
    pub fn into_result(self) -> (r: CheckResult)
        ensures
            r is Ok <==> self == Status::Found,
            problems_of(r) == if self == Status::Found {
                Seq::<Problem>::empty()
            } else {
                seq![Problem::MissingReprC]
            },
    {
        match self {
            Status::Found => Ok(()),
            Status::Missing => Err(CheckError::single(Problem::MissingReprC)),
        }
    }
}

impl core::ops::BitOr for Status {
    type Output = Status;

    fn bitor(self, other: Status) -> (r: Status)
        ensures
            (r == Status::Found) <==> (self == Status::Found || other == Status::Found),
    {
        self.or(other)
    }
}

impl vstd::std_specs::ops::BitOrSpecImpl for Status {
    open spec fn obeys_bitor_spec() -> bool {
        true
    }

    open spec fn bitor_req(self, rhs: Status) -> bool {
        true
    }

    open spec fn bitor_spec(self, rhs: Status) -> Status {
        self.or_spec(rhs)
    }
}

/// What a check has seen so far: whether a C hint was found, and the
/// problems with other hints.
#[derive(Debug, PartialEq, Eq)]
pub struct ReprResult {
    repr_c: Status,
    others: CheckResult,
}

impl ReprResult {
    pub closed spec fn spec_status(&self) -> Status {
        self.repr_c
    }

    pub closed spec fn spec_problems(&self) -> Seq<Problem> {
        problems_of(self.others)
    }

    /// No other hint has been seen.
    pub closed spec fn spec_clean(&self) -> bool {
        self.others is Ok
    }

    /// Nothing seen yet.
    pub fn missing() -> (r: ReprResult)
        ensures
            r.spec_status() == Status::Missing,
            r.spec_problems() == Seq::<Problem>::empty(),
            r.spec_clean(),
    {
        ReprResult { repr_c: Status::Missing, others: Ok(()) }
    }

    /// A C hint seen.
    pub fn found() -> (r: ReprResult)
        ensures
            r.spec_status() == Status::Found,
            r.spec_problems() == Seq::<Problem>::empty(),
            r.spec_clean(),
    {
        ReprResult { repr_c: Status::Found, others: Ok(()) }
    }

    /// Another hint seen at position `at`.
    pub fn other(at: usize) -> (r: ReprResult)
        ensures
            r.spec_status() == Status::Missing,
            r.spec_problems() == seq![Problem::OtherHint(at)],
            !r.spec_clean(),
    {
        ReprResult { repr_c: Status::Missing, others: Err(CheckError::single(Problem::OtherHint(at))) }
    }

    /// What seeing `hint` at position `at` gives.
    pub fn from_hint(hint: ReprHint, at: usize) -> (r: ReprResult)
        ensures
            r.spec_status() == (if hint == ReprHint::C {
                Status::Found
            } else {
                Status::Missing
            }),
            r.spec_problems() == (if hint == ReprHint::C {
                Seq::<Problem>::empty()
            } else {
                seq![Problem::OtherHint(at)]
            }),
            r.spec_clean() == (hint == ReprHint::C),
    {
        match hint {
            ReprHint::C => ReprResult::found(),
            ReprHint::Other => ReprResult::other(at),
        }
    }

    /// Both results together: found when either found, with the problems
    /// of both, in order.
    pub fn combine(self, other: ReprResult) -> (r: ReprResult)
        ensures
            r.spec_status() == self.spec_status().or_spec(other.spec_status()),
            r.spec_problems() == self.spec_problems() + other.spec_problems(),
            r.spec_clean() == (self.spec_clean() && other.spec_clean()),
    {
        ReprResult { repr_c: self.repr_c.or(other.repr_c), others: combine(self.others, other.others) }
    }

    /// The outcome: a missing C hint first, then the problems with other
    /// hints.
    pub fn into_result(self) -> (r: CheckResult)
        ensures
            r is Ok <==> self.spec_status() == Status::Found && self.spec_clean(),
            problems_of(r) == (if self.spec_status() == Status::Found {
                Seq::<Problem>::empty()
            } else {
                seq![Problem::MissingReprC]
            }) + self.spec_problems(),
    {
        combine(self.repr_c.into_result(), self.others)
    }
}

impl Status {
    pub open spec fn or_spec(self, other: Status) -> Status {
        if self == Status::Found || other == Status::Found {
            Status::Found
        } else {
            Status::Missing
        }
    }
}

/// Problems with the hints that are not C, with their positions, in order.
pub open spec fn other_problems(hints: Seq<ReprHint>) -> Seq<Problem>
    decreases hints.len(),
{
    if hints.len() == 0 {
        Seq::empty()
    } else {
        other_problems(hints.drop_last()) + if hints.last() == ReprHint::C {
            Seq::<Problem>::empty()
        } else {
            seq![Problem::OtherHint((hints.len() - 1) as usize)]
        }
    }
}

/// Checks a list of layout hints: `Ok` exactly when at least one asks for
/// the C layout and none asks for another. Otherwise the problems are a
/// missing C hint (first, if so), then each other hint with its position.
pub fn check_hints(hints: &[ReprHint]) -> (r: CheckResult)
    ensures
        r is Ok <==> hints@.contains(ReprHint::C) && other_problems(hints@).len() == 0,
        problems_of(r) == (if hints@.contains(ReprHint::C) {
            Seq::<Problem>::empty()
        } else {
            seq![Problem::MissingReprC]
        }) + other_problems(hints@),
{
    let mut acc = ReprResult::missing();
    let mut i: usize = 0;
    proof {
        assert(hints@.take(0) =~= Seq::<ReprHint>::empty());
    }
    while i < hints.len()
        invariant
            i <= hints@.len(),
            acc.spec_status() == (if hints@.take(i as int).contains(ReprHint::C) {
                Status::Found
            } else {
                Status::Missing
            }),
            acc.spec_problems() == other_problems(hints@.take(i as int)),
            acc.spec_clean() <==> other_problems(hints@.take(i as int)).len() == 0,
        decreases hints@.len() - i,
    {
        proof {
            assert(hints@.take(i + 1).drop_last() =~= hints@.take(i as int));
            assert(hints@.take(i + 1).last() == hints@[i as int]);
            assert(hints@.take(i + 1).contains(ReprHint::C) <==> (hints@.take(i as int).contains(ReprHint::C)
                || hints@[i as int] == ReprHint::C)) by {
                if hints@[i as int] == ReprHint::C {
                    assert(hints@.take(i + 1)[i as int] == ReprHint::C);
                }
                if hints@.take(i as int).contains(ReprHint::C) {
                    let k = choose|k: int| 0 <= k < i && hints@.take(i as int)[k] == ReprHint::C;
                    assert(hints@.take(i + 1)[k] == ReprHint::C);
                }
            }
        }
        acc = acc.combine(ReprResult::from_hint(hints[i], i));
        i += 1;
    }
    proof {
        assert(hints@.take(hints@.len() as int) =~= hints@);
    }
    acc.into_result()
}

} // verus!
