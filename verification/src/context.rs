//! The function invocation context: the per-call bundle every built-in
//! receives, and the narrow callback interface through which a built-in
//! re-enters the evaluator to invoke a user-supplied function.

use vstd::prelude::*;
use crate::pool::{ValuePool, Value};

verus! {

/// Source position, threaded through for error attribution only; it carries
/// no behavior in this core.
#[derive(Clone, Copy, PartialEq, Eq, Structural, Debug)]
pub struct Position {
    pub line: u32,
    pub column: u32,
}

/// Token for the active lexical frame.  Opaque to this core: only the
/// evaluator resolves it to a scope chain during re-entrant calls.
#[derive(Clone, Copy, PartialEq, Eq, Structural, Debug)]
pub struct Frame {
    pub id: usize,
}

/// Failures a built-in can raise or propagate.
#[derive(Clone, Copy, PartialEq, Eq, Structural, Debug)]
pub enum Error {
    /// A value of the wrong kind reached a built-in's boundary.
    InvalidArgumentKind,
    /// A failure raised inside the evaluator during a re-entrant call,
    /// attributed to a source position.
    EvaluationFailed(Position),
}

/// The evaluator, seen from the built-in library: applying a function-kind
/// value to a packed argument array, synchronously, on the same call stack.
/// The call may recursively invoke built-ins, including the caller itself.
///
/// The contract every implementation owes the built-ins is the arena
/// discipline of this core: the arena stays well-formed, existing nodes keep
/// the values they denote (shared containers are never mutated), and a node
/// no container holds stays that way — the evaluator may store only handles
/// it was handed, which are always already held by a container.  Nothing is
/// promised about the result's value or about success: a failure from user
/// code propagates unchanged.
pub trait Evaluator {
    fn apply_function(
        &self,
        position: Position,
        pool: &mut ValuePool,
        input: Value,
        proc: Value,
        args: Value,
        frame: &Frame,
    ) -> (r: Result<Value, Error>)
        requires
            old(pool).wf(),
            input.index < old(pool).vals().len(),
            proc.index < old(pool).vals().len(),
            args.index < old(pool).vals().len(),
        ensures
            final(pool).wf(),
            final(pool).extends(*old(pool)),
            forall|h: int|
                0 <= h < old(pool).vals().len() && old(pool).unreferenced(h)
                    ==> final(pool).unreferenced(h),
            r matches Ok(v) ==> v.index < final(pool).vals().len(),
    ;
}

/// An evaluator that refuses every re-entrant call: for hosts that run the
/// built-ins over plain data and allow no user-supplied functions.  It also
/// witnesses that the `Evaluator` contract is implementable.
pub struct RejectingEvaluator {}

impl Evaluator for RejectingEvaluator {
    fn apply_function(
        &self,
        position: Position,
        pool: &mut ValuePool,
        input: Value,
        proc: Value,
        args: Value,
        frame: &Frame,
    ) -> (r: Result<Value, Error>)
        ensures
            r == Err::<Value, Error>(Error::EvaluationFailed(position)),
    {
        Err(Error::EvaluationFailed(position))
    }
}

/// The per-call bundle handed to every built-in: the source position for
/// diagnostics, the implicit `$` input of the surrounding expression, the
/// active lexical frame, and the evaluator callback.
pub struct FunctionContext<'a, E> {
    pub position: Position,
    pub input: Value,
    pub frame: Frame,
    pub evaluator: &'a E,
}

impl<'a, E: Evaluator> FunctionContext<'a, E> {
    /// Invoke `proc` (a lambda or native function) on the argument array
    /// `args` in the current frame.  This is the only re-entry point from a
    /// built-in back into the evaluator.
    pub fn evaluate_function(&self, pool: &mut ValuePool, proc: Value, args: Value) -> (r: Result<
        Value,
        Error,
    >)
        requires
            old(pool).wf(),
            self.input.index < old(pool).vals().len(),
            proc.index < old(pool).vals().len(),
            args.index < old(pool).vals().len(),
        ensures
            final(pool).wf(),
            final(pool).extends(*old(pool)),
            forall|h: int|
                0 <= h < old(pool).vals().len() && old(pool).unreferenced(h)
                    ==> final(pool).unreferenced(h),
            r matches Ok(v) ==> v.index < final(pool).vals().len(),
    {
        self.evaluator.apply_function(self.position, pool, self.input, proc, args, &self.frame)
    }
}

} // verus!
