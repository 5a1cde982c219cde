use vstd::prelude::*;

verus! {

/// What the process runs.
#[derive(Debug, Clone, Copy, PartialEq, Eq)]
pub enum ExecutionMode {
    Api,
    Worker,
}

/// The command line: the execution mode ("api" by default).
#[derive(Debug)]
pub struct Mode {
    pub execution_mode: ExecutionMode,
}

} // verus!
