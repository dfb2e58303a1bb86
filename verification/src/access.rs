//! The policy boundary around complete named filesystem accesses.
//!
//! A policy either refuses an access before its body runs, or runs the body
//! and hands back exactly what the body returned.

use vstd::prelude::*;
use std::convert::Infallible;

verus! {

/// The kind of complete filesystem access being coordinated.
#[derive(Clone, Copy, Debug, PartialEq, Eq, Structural)]
pub enum AccessKind {
    Read,
    Write,
}

impl AccessKind {
    /// The word used for this access in messages.
    pub fn as_str(self) -> (r: &'static str)
        ensures
            r@ == (match self {
                AccessKind::Read => "read"@,
                AccessKind::Write => "write"@,
            }),
    {
        match self {
            AccessKind::Read => "read",
            AccessKind::Write => "write",
        }
    }
}

/// Why a coordinated access failed before its filesystem body ran.
#[derive(Debug, PartialEq, Eq)]
pub enum CoordinationFailure {
    PathNotRepresentable,
    PathResolution { message: String },
    Refused { domain: String, code: i64, message: String },
    AccessorPathChanged,
}

/// One coordinated access that failed before its filesystem body ran.
#[derive(Debug, PartialEq, Eq)]
pub struct CoordinatedAccessFailure {
    kind: AccessKind,
    path: String,
    reason: CoordinationFailure,
}

impl CoordinatedAccessFailure {
    pub closed spec fn spec_kind(&self) -> AccessKind {
        self.kind
    }

    pub closed spec fn spec_path(&self) -> Seq<char> {
        self.path@
    }

    pub closed spec fn spec_reason(&self) -> CoordinationFailure {
        self.reason
    }

    pub fn new(kind: AccessKind, path: String, reason: CoordinationFailure) -> (r: Self)
        ensures
            r.spec_kind() == kind,
            r.spec_path() == path@,
            r.spec_reason() == reason,
    {
        CoordinatedAccessFailure { kind, path, reason }
    }

    pub fn kind(&self) -> (r: AccessKind)
        ensures
            r == self.spec_kind(),
    {
        self.kind
    }

    pub fn path(&self) -> (r: &str)
        ensures
            r@ == self.spec_path(),
    {
        self.path.as_str()
    }

    pub fn reason(&self) -> (r: &CoordinationFailure)
        ensures
            *r == self.spec_reason(),
    {
        &self.reason
    }
}

/// Statically dispatched access policy for one complete named read or write.
///
/// The outer result reports failure to establish policy access, before `body`
/// runs: the state is then left as it was. Its successful value is the value
/// returned by `body`, which ran once on the state it works on.
pub trait AccessPolicy {
    type Error;

    fn read<S, R, B: FnOnce(&mut S) -> R>(&mut self, named_path: &str, state: &mut S, body: B) -> (r: Result<R, Self::Error>)
        requires
            forall|s: &mut S| #[trigger] body.requires((s,)),
        ensures
            r matches Ok(v) ==> exists|m: &mut S| *m == *old(state) && *final(m) == *final(state) && body.ensures((m,), v),
            r is Err ==> *final(state) == *old(state),
    ;

    fn write<S, R, B: FnOnce(&mut S) -> R>(&mut self, named_path: &str, state: &mut S, body: B) -> (r: Result<R, Self::Error>)
        requires
            forall|s: &mut S| #[trigger] body.requires((s,)),
        ensures
            r matches Ok(v) ==> exists|m: &mut S| *m == *old(state) && *final(m) == *final(state) && body.ensures((m,), v),
            r is Err ==> *final(state) == *old(state),
    ;
}

/// Direct, synchronous access: every body runs.
#[derive(Clone, Copy, Debug, Default)]
pub struct DirectAccess;

/// Each body runs once on the state it was given: the result is what the
/// body returned, and the state is left as the body left it.
impl AccessPolicy for DirectAccess {
    type Error = Infallible;

    fn read<S, R, B: FnOnce(&mut S) -> R>(&mut self, named_path: &str, state: &mut S, body: B) -> (r: Result<R, Self::Error>)
        ensures
            r is Ok,
            r matches Ok(v) && exists|m: &mut S| *m == *old(state) && *final(m) == *final(state) && body.ensures((m,), v),
    {
        let v = body(state);
        Ok(v)
    }

    fn write<S, R, B: FnOnce(&mut S) -> R>(&mut self, named_path: &str, state: &mut S, body: B) -> (r: Result<R, Self::Error>)
        ensures
            r is Ok,
            r matches Ok(v) && exists|m: &mut S| *m == *old(state) && *final(m) == *final(state) && body.ensures((m,), v),
    {
        let v = body(state);
        Ok(v)
    }
}

/// A policy-aware operation outcome: the policy refused the access, or the
/// operation itself failed.
#[derive(Debug)]
pub enum PolicyFailure<A, O> {
    Access(A),
    Operation(O),
}

impl<A, O> PolicyFailure<A, O> {
    /// Maps a refused access; an operation failure passes through unchanged.
    pub fn map_access<U, M: FnOnce(A) -> U>(self, map: M) -> (r: PolicyFailure<U, O>)
        requires
            self matches PolicyFailure::Access(a) ==> map.requires((a,)),
        ensures
            match self {
                PolicyFailure::Access(a) => r matches PolicyFailure::Access(u) && map.ensures((a,), u),
                PolicyFailure::Operation(o) => r == PolicyFailure::<U, O>::Operation(o),
            },
    {
        match self {
            PolicyFailure::Access(error) => PolicyFailure::Access(map(error)),
            PolicyFailure::Operation(error) => PolicyFailure::Operation(error),
        }
    }

    /// Maps an operation failure; a refused access passes through unchanged.
    pub fn map_operation<U, M: FnOnce(O) -> U>(self, map: M) -> (r: PolicyFailure<A, U>)
        requires
            self matches PolicyFailure::Operation(o) ==> map.requires((o,)),
        ensures
            match self {
                PolicyFailure::Access(a) => r == PolicyFailure::<A, U>::Access(a),
                PolicyFailure::Operation(o) => r matches PolicyFailure::Operation(u) && map.ensures(
                    (o,),
                    u,
                ),
            },
    {
        match self {
            PolicyFailure::Access(error) => PolicyFailure::Access(error),
            PolicyFailure::Operation(error) => PolicyFailure::Operation(map(error)),
        }
    }
}

/// Separates a refused access from a failed body.
pub fn flatten<T, A, B>(result: Result<Result<T, B>, A>) -> (r: Result<T, PolicyFailure<A, B>>)
    ensures
        match result {
            Err(a) => r == Err::<T, PolicyFailure<A, B>>(PolicyFailure::Access(a)),
            Ok(Err(b)) => r == Err::<T, PolicyFailure<A, B>>(PolicyFailure::Operation(b)),
            Ok(Ok(t)) => r == Ok::<T, PolicyFailure<A, B>>(t),
        },
{
    match result {
        Err(a) => Err(PolicyFailure::Access(a)),
        Ok(Err(b)) => Err(PolicyFailure::Operation(b)),
        Ok(Ok(t)) => Ok(t),
    }
}

/// Unwraps the outcome of direct access, which never refuses.
pub fn direct_result<T, E>(result: Result<T, PolicyFailure<Infallible, E>>) -> (r: Result<T, E>)
    requires
        !(result matches Err(PolicyFailure::Access(_))),
    ensures
        match result {
            Ok(t) => r == Ok::<T, E>(t),
            Err(PolicyFailure::Operation(e)) => r == Err::<T, E>(e),
            Err(PolicyFailure::Access(_)) => true,
        },
{
    match result {
        Ok(value) => Ok(value),
        Err(PolicyFailure::Operation(error)) => Err(error),
        Err(PolicyFailure::Access(_)) => vstd::pervasive::unreached(),
    }
}


} // verus!
