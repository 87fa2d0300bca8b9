use vstd::prelude::*;
use vstd::string::StringExecFns;

verus! {

/// The four families of failure that the adapter reports.
#[derive(Clone, Copy, Debug, PartialEq, Eq, Structural)]
pub enum ErrorKind {
    Protocol,
    Validation,
    Recurrence,
    Internal,
}

/// An error of the adapter: a machine code, the request field it concerns,
/// and a human-readable message.
#[derive(Debug)]
pub enum AppError {
    Protocol { code: String, path: String, message: String },
    Validation { code: String, path: String, message: String },
    Recurrence { code: String, path: String, message: String },
    Internal(String),
}

impl AppError {
    pub open spec fn kind(&self) -> ErrorKind {
        match self {
            AppError::Protocol { .. } => ErrorKind::Protocol,
            AppError::Validation { .. } => ErrorKind::Validation,
            AppError::Recurrence { .. } => ErrorKind::Recurrence,
            AppError::Internal(_) => ErrorKind::Internal,
        }
    }

    /// The code an error is reported under.
    pub open spec fn code_view(&self) -> Seq<char> {
        match self {
            AppError::Protocol { code, .. } => code@,
            AppError::Validation { code, .. } => code@,
            AppError::Recurrence { code, .. } => code@,
            AppError::Internal(_) => "internal_error"@,
        }
    }

    /// The field path an error is reported under.
    pub open spec fn path_view(&self) -> Seq<char> {
        match self {
            AppError::Protocol { path, .. } => path@,
            AppError::Validation { path, .. } => path@,
            AppError::Recurrence { path, .. } => path@,
            AppError::Internal(_) => Seq::empty(),
        }
    }

    /// The message an error carries.
    pub open spec fn message_view(&self) -> Seq<char> {
        match self {
            AppError::Protocol { message, .. } => message@,
            AppError::Validation { message, .. } => message@,
            AppError::Recurrence { message, .. } => message@,
            AppError::Internal(message) => message@,
        }
    }

    /// The error is of kind `kind` with the given code, path and message.
    pub open spec fn is(&self, kind: ErrorKind, code: Seq<char>, path: Seq<char>, message: Seq<char>) -> bool {
        &&& self.kind() == kind
        &&& kind != ErrorKind::Internal ==> self.code_view() == code && self.path_view() == path
        &&& self.message_view() == message
    }

    pub fn code(&self) -> (r: &str)
        ensures
            r@ == self.code_view(),
    {
        match self {
            AppError::Protocol { code, .. } => code.as_str(),
            AppError::Validation { code, .. } => code.as_str(),
            AppError::Recurrence { code, .. } => code.as_str(),
            AppError::Internal(_) => "internal_error",
        }
    }

    pub fn path(&self) -> (r: &str)
        ensures
            r@ == self.path_view(),
    {
        match self {
            AppError::Protocol { path, .. } => path.as_str(),
            AppError::Validation { path, .. } => path.as_str(),
            AppError::Recurrence { path, .. } => path.as_str(),
            AppError::Internal(_) => {
                proof {
                    reveal_strlit("");
                }
                ""
            },
        }
    }

    pub fn message(&self) -> (r: String)
        ensures
            r@ == self.message_view(),
    {
        match self {
            AppError::Protocol { message, .. } => message.clone(),
            AppError::Validation { message, .. } => message.clone(),
            AppError::Recurrence { message, .. } => message.clone(),
            AppError::Internal(message) => message.clone(),
        }
    }

    pub fn protocol(code: &str, path: &str, message: &str) -> (r: AppError)
        ensures
            r.is(ErrorKind::Protocol, code@, path@, message@),
    {
        AppError::Protocol {
            code: String::from_str(code),
            path: String::from_str(path),
            message: String::from_str(message),
        }
    }

    pub fn validation(code: &str, path: &str, message: &str) -> (r: AppError)
        ensures
            r.is(ErrorKind::Validation, code@, path@, message@),
    {
        AppError::Validation {
            code: String::from_str(code),
            path: String::from_str(path),
            message: String::from_str(message),
        }
    }

    pub fn recurrence(code: &str, path: &str, message: &str) -> (r: AppError)
        ensures
            r.is(ErrorKind::Recurrence, code@, path@, message@),
    {
        AppError::Recurrence {
            code: String::from_str(code),
            path: String::from_str(path),
            message: String::from_str(message),
        }
    }

    pub fn internal(message: &str) -> (r: AppError)
        ensures
            r.is(ErrorKind::Internal, Seq::empty(), Seq::empty(), message@),
    {
        AppError::Internal(String::from_str(message))
    }

    /// The process exit status for this error: 2 for a request the caller
    /// must fix, 1 for a failure of the adapter itself.
    pub fn exit_code(&self) -> (r: i32)
        ensures
            r == (if self.kind() == ErrorKind::Internal { 1i32 } else { 2i32 }),
    {
        match self {
            AppError::Internal(_) => 1,
            _ => 2,
        }
    }
}

/// `r` is an error of kind `kind` with the given code, path and message.
pub open spec fn fails_with<T>(
    r: Result<T, AppError>,
    kind: ErrorKind,
    code: Seq<char>,
    path: Seq<char>,
    message: Seq<char>,
) -> bool {
    r matches Err(e) && e.is(kind, code, path, message)
}

/// An error as it is written on the wire.
#[derive(Debug)]
pub struct WireError {
    pub code: String,
    pub field_path: String,
    pub message: String,
}

impl WireError {
    pub fn from(error: &AppError) -> (r: WireError)
        ensures
            r.code@ == error.code_view(),
            r.field_path@ == error.path_view(),
            r.message@ == error.message_view(),
    {
        WireError {
            code: String::from_str(error.code()),
            field_path: String::from_str(error.path()),
            message: error.message(),
        }
    }
}

} // verus!
