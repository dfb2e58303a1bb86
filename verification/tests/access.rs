#![allow(dead_code)]

use zwirn::access::{direct_result, flatten, AccessPolicy, DirectAccess, PolicyFailure};

#[derive(Debug, Eq, PartialEq)]
struct BodyError(&'static str);

#[derive(Debug, Eq, PartialEq)]
struct PolicyError;

struct RefusingAccess;

impl AccessPolicy for RefusingAccess {
    type Error = PolicyError;

    fn read<S, R, B: FnOnce(&mut S) -> R>(
        &mut self,
        _named_path: &str,
        _state: &mut S,
        _body: B,
    ) -> Result<R, Self::Error> {
        Err(PolicyError)
    }

    fn write<S, R, B: FnOnce(&mut S) -> R>(
        &mut self,
        _named_path: &str,
        _state: &mut S,
        _body: B,
    ) -> Result<R, Self::Error> {
        Err(PolicyError)
    }
}

#[test]
fn direct_access_invokes_a_successful_body_once_and_returns_its_value() {
    let mut calls = 0;
    let mut access = DirectAccess;

    let result = access
        .read("named", &mut calls, |calls: &mut i32| {
            *calls += 1;
            42
        })
        .unwrap();

    assert_eq!(calls, 1);
    assert_eq!(result, 42);
}

#[test]
fn policy_refusal_is_distinct_from_body_failure_and_does_not_invoke_the_body() {
    let mut calls = 0;
    let mut access = RefusingAccess;

    let refused = flatten(access.read("named", &mut calls, |calls: &mut i32| {
        *calls += 1;
        Err::<(), _>(BodyError("body failed"))
    }));

    assert_eq!(calls, 0);
    assert!(matches!(refused, Err(PolicyFailure::Access(PolicyError))));

    let mut direct = DirectAccess;
    let body_failure = flatten(direct.read("named", &mut calls, |_: &mut i32| {
        Err::<(), _>(BodyError("body failed"))
    }));
    assert!(matches!(
        body_failure,
        Err(PolicyFailure::Operation(BodyError("body failed")))
    ));
}

#[test]
fn direct_results_unwrap_values_and_operation_failures() {
    let ok: Result<u8, PolicyFailure<std::convert::Infallible, BodyError>> = Ok(7);
    assert_eq!(direct_result(ok), Ok(7));
    let failed: Result<u8, PolicyFailure<std::convert::Infallible, BodyError>> =
        Err(PolicyFailure::Operation(BodyError("x")));
    assert_eq!(direct_result(failed), Err(BodyError("x")));
}

#[test]
fn policy_failures_map_only_their_own_side() {
    let access: PolicyFailure<u8, &str> = PolicyFailure::Access(2);
    assert!(matches!(access.map_access(|a| a * 10), PolicyFailure::Access(20)));
    let operation: PolicyFailure<u8, &str> = PolicyFailure::Operation("op");
    assert!(matches!(operation.map_access(|a| a * 10), PolicyFailure::Operation("op")));
    let operation: PolicyFailure<u8, &str> = PolicyFailure::Operation("op");
    assert!(matches!(operation.map_operation(|o| o.len()), PolicyFailure::Operation(2)));
}
