pub mod domain;
pub mod error;
pub mod model;
pub mod order;
pub mod protocol;
pub mod recurrence;
pub mod scheduling;
pub mod solve;
pub mod text;
pub mod time;
pub mod validation;
