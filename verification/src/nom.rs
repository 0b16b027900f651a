//! Classifying parse results.
//!
//! A streaming parser distinguishes a run that failed from one that merely
//! ran out of input and could still succeed on more. `ParseErr` carries that
//! split, and the two adapters below turn such a result into the shape a
//! caller wants: the streaming one reads "more input needed" as an absent
//! value, the complete one treats it as a failure like any other.

use vstd::prelude::*;

verus! {

/// How a parse run fails: more input could still make it succeed
/// (`Incomplete`), it failed where an alternative may be tried (`Error`), or
/// it failed for good (`Failure`).
pub enum ParseErr<E> {
    Incomplete,
    Error(E),
    Failure(E),
}

/// Adapts the result of a streaming parse: a parsed value comes back as
/// present, exhausted input as absent — not an error — and both failure
/// variants surface their payload as the error.
pub fn streaming_context<T, E>(r: Result<T, ParseErr<E>>) -> (out: Result<Option<T>, E>)
    ensures
        match r {
            Ok(v) => out == Ok::<Option<T>, E>(Some(v)),
            Err(ParseErr::Incomplete) => out == Ok::<Option<T>, E>(None::<T>),
            Err(ParseErr::Error(e)) => out == Err::<Option<T>, E>(e),
            Err(ParseErr::Failure(e)) => out == Err::<Option<T>, E>(e),
        },
{
    match r {
        Ok(v) => Ok(Some(v)),
        Err(ParseErr::Incomplete) => Ok(None),
        Err(ParseErr::Error(e)) => Err(e),
        Err(ParseErr::Failure(e)) => Err(e),
    }
}

/// Adapts the result of a parse over complete input: a parsed value comes
/// back unchanged, and every failure is an error — exhausted input carries no
/// payload, so it surfaces as the empty error.
pub fn complete_context<T, E>(r: Result<T, ParseErr<E>>) -> (out: Result<T, Option<E>>)
    ensures
        match r {
            Ok(v) => out == Ok::<T, Option<E>>(v),
            Err(ParseErr::Incomplete) => out == Err::<T, Option<E>>(None::<E>),
            Err(ParseErr::Error(e)) => out == Err::<T, Option<E>>(Some(e)),
            Err(ParseErr::Failure(e)) => out == Err::<T, Option<E>>(Some(e)),
        },
{
    match r {
        Ok(v) => Ok(v),
        Err(ParseErr::Incomplete) => Err(None),
        Err(ParseErr::Error(e)) => Err(Some(e)),
        Err(ParseErr::Failure(e)) => Err(Some(e)),
    }
}

} // verus!
