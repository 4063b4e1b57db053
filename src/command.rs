//! Commands accepted by the engine, and the decisions taken on them before
//! any dataflow is built.
use vstd::prelude::*;
use crate::datum::Value;
use crate::manager::Time;
use crate::query::Query;

verus! {

/// A signed multiplicity change.
pub type Diff = i64;

/// Commands accepted by the system.
#[derive(Debug)]
pub enum Command {
    /// Installs the query and publishes its arrangements.
    Query(Query),
    /// Advances all inputs and traces to the time, and advances computation.
    AdvanceTime(Time),
    /// Creates a named input of an arity, with initial tuples at time zero.
    CreateInput(String, usize, Vec<Vec<Value>>),
    /// Introduces updates `(tuple, time, diff)` to a named input.
    UpdateInput(String, Vec<(Vec<Value>, Time, Diff)>),
    /// Closes a named input.
    CloseInput(String),
    /// Attaches a logging source: address, flavor, number, granularity, name.
    SourceLogging(String, String, usize, u64, String),
    /// Terminates the system.
    Shutdown,
}

impl From<Query> for Command {
    fn from(query: Query) -> (r: Command) {
        Command::Query(query)
    }
}

impl vstd::std_specs::convert::FromSpecImpl<Query> for Command {
    open spec fn obeys_from_spec() -> bool {
        true
    }

    open spec fn from_spec(query: Query) -> Command {
        Command::Query(query)
    }
}

/// Why an input could not be created.
#[derive(Clone, Copy, Debug, PartialEq, Eq, Structural)]
pub enum InputError {
    /// The initial tuple at this position does not have the input's arity.
    ArityMismatch(usize),
}

/// Checks that every initial tuple of a new input has `arity` columns; the
/// first tuple that does not is reported.
pub fn check_initial(arity: usize, initial: &Vec<Vec<Value>>) -> (r: Result<(), InputError>)
    ensures
        match r {
            Ok(()) => forall|i: int| 0 <= i < initial@.len() ==> (#[trigger] initial@[i])@.len() == arity,
            Err(InputError::ArityMismatch(i)) => i < initial@.len() && initial@[i as int]@.len() != arity
                && forall|j: int| 0 <= j < i ==> (#[trigger] initial@[j])@.len() == arity,
        },
{
    let mut i: usize = 0;
    while i < initial.len()
        invariant
            i <= initial@.len(),
            forall|j: int| 0 <= j < i ==> (#[trigger] initial@[j])@.len() == arity,
        decreases initial@.len() - i,
    {
        if initial[i].len() != arity {
            return Err(InputError::ArityMismatch(i));
        }
        i = i + 1;
    }
    Ok(())
}

} // verus!
