# calendar_solver

The scheduling adapter of a calendar planner, verified with Verus. One JSON
request (the current time, settings, events, tasks and dependencies) goes in;
one JSON response with a proposal, or an error, comes out. Exit status `0`
means a response was produced, `2` a malformed or invalid request, `1` an
internal or solver failure.

## Layout

- `src/` is the verified library.
  - `validation` checks a request and reports the first failing check;
    `has_cycle` decides whether the dependencies form a DAG.
  - `time` builds the planning horizon from local midnights, reads clocks and
    weekdays, and decides availability.
  - `recurrence` expands events, recurring ones through rrule, into busy
    intervals sorted by start and id.
  - `scheduling` lays out the slots, orders the inbox, finds each task's
    candidate slots and penalties, builds the solver's plan, and turns a
    solved plan into the proposal.
  - `domain` holds the solver's model and scores a plan exactly as the
    solver's constraints do.
  - `solve` is the entry point: `plan_request` validates and prepares;
    `scheduling::finish` makes the proposal from the solver's assignment.
  - `order`, `text`, `error`, `model`, `protocol` support the above.
- `tests/` exercises the library from outside.
- `app/` is the program: it reads stdin, parses JSON, runs SolverForge on the
  plan (each constraint calls the library's predicate), and writes the
  response.

Calls into chrono, chrono-tz, rrule and uuid stand behind small trusted
wrappers in `src/`, each with a contract that states what the crate does;
everything else in `src/` is proved.
