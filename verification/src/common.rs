//! Types shared by the maze engine and its front ends: errors, jobs, solve methods.

use vstd::prelude::*;
use vstd::string::*;
use crate::maze::Dimensions;

verus! {

/// What went wrong in an operation of the maze engine.
#[derive(Clone, Copy, PartialEq, Eq, Structural, Debug)]
pub enum ErrorKind {
    /// A neighbour lookup fell off the grid.
    InvalidPosition,
    /// The set of directions did not hold a direction that had to be in it.
    InvalidDirectionHandling,
    /// A cell that is not a wall was about to be carved.
    DigConflict,
    /// The topology walk was asked for before a start cell exists.
    StartNotFound,
    /// Reading or writing persisted text failed.
    Io,
    /// Persisted text does not follow the format.
    Parse,
    /// The lock that guards the shared grid could not be taken.
    LockFailure,
    /// Width or height is outside the accepted bounds.
    InvalidDimensions,
    /// A bounded working list of the solver is full.
    CapacityExceeded,
    /// An error that is described by its message only.
    General,
}

/// An error of the maze engine: its kind and a message for the user.
#[derive(Debug)]
pub struct AppError {
    pub kind: ErrorKind,
    pub details: String,
}

impl AppError {
    /// An error of kind `General` with the given message.
    pub fn new(msg: &str) -> (e: AppError)
        ensures
            e.kind == ErrorKind::General,
            e.details@ == msg@,
    {
        AppError { kind: ErrorKind::General, details: String::from_str(msg) }
    }

    /// An error of the given kind with the given message.
    pub fn with_kind(kind: ErrorKind, msg: &str) -> (e: AppError)
        ensures
            e.kind == kind,
            e.details@ == msg@,
    {
        AppError { kind, details: String::from_str(msg) }
    }

    /// The message, without decoration.
    pub fn description(&self) -> (s: &str)
        ensures
            s@ == self.details@,
    {
        self.details.as_str()
    }

    /// The message as it is shown to the user: `Error: ` followed by the details.
    pub fn message(&self) -> (s: String)
        ensures
            s@ == "Error: "@ + self.details@,
    {
        let mut s = String::from_str("Error: ");
        s.append(self.details.as_str());
        s
    }
}

/// The ways to solve a maze.
#[derive(Clone, Copy, PartialEq, Eq, Structural, Debug)]
pub enum SolveMethod {
    /// Build the topology graph, then search the grid for the route.
    GraphOnly,
    /// Build the topology graph and prune its dead-end branches, then
    /// search the grid for the route.
    GraphElimination,
    /// Search the grid for the route, without a graph.
    AStar,
}

/// What a front end asks of the control logic.
#[derive(Clone, Copy, PartialEq, Eq, Structural, Debug)]
pub enum Job {
    /// Make a new maze of the given size.
    GenerateMaze(Dimensions),
    /// Solve the maze that is there.
    SolveMaze(SolveMethod),
    /// Stop taking jobs.
    Quit,
}

/// What the control logic asks of a front end. The requests to show and to
/// save speak of the one grid that control and front end share.
#[derive(Debug)]
pub enum UIRequest {
    ShowError(String),
    ShowInfo(String),
    ShowMaze,
    SaveMaze,
    Quit,
}

/// True when the two strings hold the same characters.
pub fn str_equals(a: &str, b: &str) -> (same: bool)
    ensures
        same == (a@ == b@),
{
    let n: usize = a.unicode_len();
    if n != b.unicode_len() {
        return false;
    }
    let mut i: usize = 0;
    while i < n
        invariant
            i <= n,
            n == a@.len(),
            n == b@.len(),
            forall|j: int| 0 <= j < i ==> a@[j] == b@[j],
        decreases n - i,
    {
        if a.get_char(i) != b.get_char(i) {
            return false;
        }
        i += 1;
    }
    assert(a@ =~= b@);
    true
}

impl SolveMethod {
    /// The name by which the method is chosen on the command line.
    pub fn name(&self) -> (s: &'static str)
        ensures
            s@ == Self::spec_name(*self),
    {
        match self {
            SolveMethod::GraphOnly => "GraphOnly",
            SolveMethod::GraphElimination => "GraphElimination",
            SolveMethod::AStar => "AStar",
        }
    }

    pub open spec fn spec_name(method: SolveMethod) -> Seq<char> {
        match method {
            SolveMethod::GraphOnly => "GraphOnly"@,
            SolveMethod::GraphElimination => "GraphElimination"@,
            SolveMethod::AStar => "AStar"@,
        }
    }

    /// The method with the given name, if there is one.
    pub fn from_name(name: &str) -> (m: Option<SolveMethod>)
        ensures
            match m {
                Some(method) => name@ == Self::spec_name(method),
                None => forall|method: SolveMethod| name@ != Self::spec_name(method),
            },
    {
        if str_equals(name, "GraphOnly") {
            Some(SolveMethod::GraphOnly)
        } else if str_equals(name, "GraphElimination") {
            Some(SolveMethod::GraphElimination)
        } else if str_equals(name, "AStar") {
            Some(SolveMethod::AStar)
        } else {
            None
        }
    }
}

} // verus!
