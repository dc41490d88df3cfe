use mazetool::common::{str_equals, AppError, ErrorKind, Job, SolveMethod, UIRequest};
use mazetool::maze::Dimensions;

#[test]
fn new_error_holds_the_message() {
    let error = AppError::new("something broke");
    assert_eq!(error.kind, ErrorKind::General);
    assert_eq!(error.details, "something broke");
    assert_eq!(error.description(), "something broke");
    assert_eq!(error.message(), "Error: something broke");
}

#[test]
fn error_with_kind() {
    let error = AppError::with_kind(ErrorKind::LockFailure, "poisoned");
    assert_eq!(error.kind, ErrorKind::LockFailure);
    assert_eq!(error.details, "poisoned");
    assert_eq!(error.message(), "Error: poisoned");
    let empty = AppError::with_kind(ErrorKind::Io, "");
    assert_eq!(empty.kind, ErrorKind::Io);
    assert_eq!(empty.message(), "Error: ");
}

#[test]
fn strings_compare_by_their_characters() {
    assert!(str_equals("", ""));
    assert!(str_equals("AStar", "AStar"));
    assert!(!str_equals("AStar", "AStar "));
    assert!(!str_equals("AStar", "astar"));
    assert!(!str_equals("█", "#"));
    assert!(str_equals("█S E", "█S E"));
}

#[test]
fn solve_methods_have_names() {
    assert_eq!(SolveMethod::GraphOnly.name(), "GraphOnly");
    assert_eq!(SolveMethod::GraphElimination.name(), "GraphElimination");
    assert_eq!(SolveMethod::AStar.name(), "AStar");
    for method in [SolveMethod::GraphOnly, SolveMethod::GraphElimination, SolveMethod::AStar] {
        assert_eq!(SolveMethod::from_name(method.name()), Some(method));
    }
}

#[test]
fn unknown_solve_methods_are_turned_down() {
    for name in ["", "astar", "Graph", "GraphOnly ", "Dijkstra", "_AStar"] {
        assert_eq!(SolveMethod::from_name(name), None);
    }
}

#[test]
fn jobs_and_requests_carry_their_values() {
    let job = Job::GenerateMaze(Dimensions { width: 19, height: 21 });
    assert_eq!(job, Job::GenerateMaze(Dimensions { width: 19, height: 21 }));
    assert_ne!(job, Job::Quit);
    assert_ne!(Job::SolveMaze(SolveMethod::AStar), Job::SolveMaze(SolveMethod::GraphOnly));
    let request = UIRequest::ShowError(String::from("no"));
    assert!(matches!(request, UIRequest::ShowError(text) if text == "no"));
}
