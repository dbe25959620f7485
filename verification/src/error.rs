//! How a command fails.

use vstd::prelude::*;

verus! {

/// Why a command stopped.
#[derive(Clone, Debug, PartialEq, Eq)]
pub enum AppError {
    /// The user asked for something that cannot be done as asked.
    Usage(String),
    /// Something outside the program went wrong.
    Runtime(String),
    /// The reason has been printed already; only the exit code is left.
    Exit(i32),
}

/// What an error stands for.
pub enum Failure {
    Usage(Seq<char>),
    Runtime(Seq<char>),
    Exit(int),
}

impl View for AppError {
    type V = Failure;

    open spec fn view(&self) -> Failure {
        match self {
            AppError::Usage(message) => Failure::Usage(message@),
            AppError::Runtime(message) => Failure::Runtime(message@),
            AppError::Exit(code) => Failure::Exit(*code as int),
        }
    }
}

/// What is printed of a failure.
pub open spec fn message(failure: Failure) -> Seq<char> {
    match failure {
        Failure::Usage(message) => message,
        Failure::Runtime(message) => message,
        Failure::Exit(_) => Seq::empty(),
    }
}

/// The exit code of a failure: 2 where the user has to ask differently, and 1
/// where something else went wrong.
pub open spec fn exit_code(failure: Failure) -> int {
    match failure {
        Failure::Usage(_) => 2,
        Failure::Runtime(_) => 1,
        Failure::Exit(code) => code,
    }
}

/// What a result stands for.
pub open spec fn viewed<T: View>(result: Result<T, AppError>) -> Result<T::V, Failure> {
    match result {
        Ok(value) => Ok(value@),
        Err(error) => Err(error@),
    }
}

/// What a result that may hold no string stands for.
pub open spec fn viewed_optional(result: Result<Option<String>, AppError>) -> Result<
    Option<Seq<char>>,
    Failure,
> {
    match result {
        Ok(Some(value)) => Ok(Some(value@)),
        Ok(None) => Ok(None),
        Err(error) => Err(error@),
    }
}

/// What a result that holds a list of strings stands for.
pub open spec fn viewed_list(result: Result<Vec<String>, AppError>) -> Result<
    Seq<Seq<char>>,
    Failure,
> {
    match result {
        Ok(value) => Ok(crate::list::texts(value@)),
        Err(error) => Err(error@),
    }
}

impl AppError {
    /// What is printed of the error.
    pub fn message(&self) -> (r: String)
        ensures
            r@ == message(self@),
    {
        match self {
            AppError::Usage(message) => message.as_str().to_owned(),
            AppError::Runtime(message) => message.as_str().to_owned(),
            AppError::Exit(_) => String::new(),
        }
    }

    /// The exit code of the program.
    pub fn exit_code(&self) -> (r: i32)
        ensures
            r == exit_code(self@),
    {
        match self {
            AppError::Usage(_) => 2,
            AppError::Runtime(_) => 1,
            AppError::Exit(code) => *code,
        }
    }
}

} // verus!
