use dsrs::check::{check_hints, combine, CheckResult, Problem, ReprHint, ReprResult, Status};
use dsrs::check::Status::{Found, Missing};

#[test]
fn basic_cmp() {
    assert_eq!(ReprResult::missing(), ReprResult::missing());
    assert_eq!(ReprResult::found(), ReprResult::found());
    assert_ne!(ReprResult::missing(), ReprResult::found());
}

#[allow(clippy::eq_op)]
#[test]
fn bitor() {
    assert_eq!(Missing | Missing, Missing);
    assert_eq!(Missing | Found, Found);
    assert_eq!(Found | Missing, Found);
    assert_eq!(Found | Found, Found);
}

#[test]
fn result() {
    assert!(Missing.into_result().is_err());
    assert!(Found.into_result().is_ok());
}

fn problems(r: &CheckResult) -> Vec<Problem> {
    match r {
        Ok(()) => Vec::new(),
        Err(e) => e.problems().clone(),
    }
}

#[test]
fn status_or_matches_bitor() {
    for a in [Missing, Found] {
        for b in [Missing, Found] {
            assert_eq!(a.or(b), a | b);
        }
    }
    assert_eq!(problems(&Status::Missing.into_result()), vec![Problem::MissingReprC]);
}

#[test]
fn combine_keeps_problems_in_order() {
    let first = ReprResult::other(1).into_result();
    let second = ReprResult::other(4).into_result();
    assert_eq!(problems(&combine(Ok(()), Ok(()))), vec![]);
    assert!(combine(Ok(()), Ok(())).is_ok());
    assert_eq!(
        problems(&combine(Ok(()), ReprResult::other(2).into_result())),
        vec![Problem::MissingReprC, Problem::OtherHint(2)]
    );
    assert_eq!(
        problems(&combine(first, second)),
        vec![
            Problem::MissingReprC,
            Problem::OtherHint(1),
            Problem::MissingReprC,
            Problem::OtherHint(4)
        ]
    );
}

#[test]
fn repr_result_combine() {
    let r = ReprResult::found().combine(ReprResult::missing());
    assert_eq!(r, ReprResult::found());
    assert!(r.into_result().is_ok());
    let r = ReprResult::missing().combine(ReprResult::other(3));
    assert_eq!(
        problems(&r.into_result()),
        vec![Problem::MissingReprC, Problem::OtherHint(3)]
    );
    assert_eq!(ReprResult::from_hint(ReprHint::C, 0), ReprResult::found());
    assert_eq!(ReprResult::from_hint(ReprHint::Other, 5), ReprResult::other(5));
}

#[test]
fn hints_checked() {
    assert!(check_hints(&[ReprHint::C]).is_ok());
    assert!(check_hints(&[ReprHint::C, ReprHint::C, ReprHint::C]).is_ok());
    assert_eq!(problems(&check_hints(&[])), vec![Problem::MissingReprC]);
    assert_eq!(
        problems(&check_hints(&[ReprHint::C, ReprHint::Other])),
        vec![Problem::OtherHint(1)]
    );
    assert_eq!(
        problems(&check_hints(&[ReprHint::Other, ReprHint::Other])),
        vec![Problem::MissingReprC, Problem::OtherHint(0), Problem::OtherHint(1)]
    );
}
