//! The application-level error and the process exit code each kind maps to.

use vstd::prelude::*;

verus! {

/// Application-level error with a process exit code.
#[derive(Debug)]
pub enum AppError {
    /// Usage / validation of arguments or input (bad selector, parse error, bad flag combo).
    Usage(String),
    /// Result-diff verification failed (internal consistency or `git apply --check`).
    Verify(String),
    /// I/O error reading stdin or writing stdout.
    Io(String),
    /// Unexpected internal error: no code path of the library builds it, but it keeps a
    /// distinct exit-code slot for invariant violations should one arise.
    Internal(String),
}

/// Mathematical view of an [`AppError`].
pub enum AppErr {
    Usage(Seq<char>),
    Verify(Seq<char>),
    Io(Seq<char>),
    Internal(Seq<char>),
}

impl View for AppError {
    type V = AppErr;

    open spec fn view(&self) -> AppErr {
        match self {
            AppError::Usage(m) => AppErr::Usage(m@),
            AppError::Verify(m) => AppErr::Verify(m@),
            AppError::Io(m) => AppErr::Io(m@),
            AppError::Internal(m) => AppErr::Internal(m@),
        }
    }
}

/// The exit code each kind of error ends the process with.
pub open spec fn exit_code_spec(e: AppError) -> u8 {
    match e {
        AppError::Usage(_) => 2,
        AppError::Verify(_) => 70,
        AppError::Internal(_) => 70,
        AppError::Io(_) => 74,
    }
}

/// The text an error carries, whatever its kind.
pub open spec fn app_msg(e: AppError) -> Seq<char> {
    match e {
        AppError::Usage(m) => m@,
        AppError::Verify(m) => m@,
        AppError::Io(m) => m@,
        AppError::Internal(m) => m@,
    }
}

impl AppError {
    /// The process exit code for this error: 2 for usage, 70 for a failed verification or an
    /// internal error, 74 for I/O.
    pub fn exit_code(&self) -> (r: u8)
        ensures
            r == exit_code_spec(*self),
    {
        match self {
            AppError::Usage(_) => 2,
            AppError::Internal(_) | AppError::Verify(_) => 70,
            AppError::Io(_) => 74,
        }
    }

    /// The message shown for the error: the text it carries.
    pub fn message(&self) -> (r: String)
        ensures
            r@ == app_msg(*self),
    {
        match self {
            AppError::Usage(m) => m.clone(),
            AppError::Verify(m) => m.clone(),
            AppError::Io(m) => m.clone(),
            AppError::Internal(m) => m.clone(),
        }
    }
}

} // verus!
