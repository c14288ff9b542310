use vstd::prelude::*;

verus! {

/// How loud a discarded failure is reported, from the quietest to the loudest.
#[derive(Clone, Copy, Debug, PartialEq, Eq, Structural, PartialOrd, Ord, Hash)]
pub enum Level {
    Trace,
    Debug,
    Info,
    Warn,
    Error,
}

} // verus!
