use vstd::prelude::*;

use crate::domain::SolverPlan;
use crate::error::AppError;
use crate::protocol::Request;
use crate::scheduling::{request_sized, solved_as, PreparedProblem};
use crate::validation::{days_ascending, reports, request_fault, request_valid, validate_request};

verus! {

/// Prepares a validated request and builds the plan for the solver.
pub fn solve(request: &Request) -> (r: Result<(PreparedProblem, SolverPlan), AppError>)
    requires
        request_valid(*request),
        request_sized(*request),
    ensures
        solved_as(*request, r),
{
    crate::scheduling::solve(request)
}

/// Validates a request and, when it is valid, prepares it and builds the
/// plan for the solver: the first failing check is reported as it is.
pub fn plan_request(request: &Request) -> (r: Result<(PreparedProblem, SolverPlan), AppError>)
    requires
        request_sized(*request),
        days_ascending(request.settings),
    ensures
        !request_valid(*request) ==> reports(r, request_fault(*request)),
        request_valid(*request) ==> solved_as(*request, r),
{
    match validate_request(request) {
        Err(e) => Err(e),
        Ok(()) => solve(request),
    }
}

} // verus!
