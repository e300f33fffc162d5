//! Errors of the settings client.
use vstd::prelude::*;

verus! {

/// Why a device refused a write.
#[derive(Clone, Copy, Debug, PartialEq, Eq, Structural)]
pub enum WriteError {
    ValueRejected,
    SettingRejected,
    ParseFailed,
    ReadOnly,
    ModifyDisabled,
    ServiceFailed,
    Timeout,
    Unknown,
}

/// The error that a status code of a write reply stands for.
pub open spec fn write_error_of(n: u8) -> WriteError {
    match n {
        1 => WriteError::ValueRejected,
        2 => WriteError::SettingRejected,
        3 => WriteError::ParseFailed,
        4 => WriteError::ReadOnly,
        5 => WriteError::ModifyDisabled,
        6 => WriteError::ServiceFailed,
        7 => WriteError::Timeout,
        _ => WriteError::Unknown,
    }
}

impl From<u8> for WriteError {
    fn from(n: u8) -> (r: Self)
        ensures
            r == write_error_of(n),
    {
        match n {
            1 => WriteError::ValueRejected,
            2 => WriteError::SettingRejected,
            3 => WriteError::ParseFailed,
            4 => WriteError::ReadOnly,
            5 => WriteError::ModifyDisabled,
            6 => WriteError::ServiceFailed,
            7 => WriteError::Timeout,
            _ => WriteError::Unknown,
        }
    }
}

impl vstd::std_specs::convert::FromSpecImpl<u8> for WriteError {
    open spec fn obeys_from_spec() -> bool {
        true
    }

    open spec fn from_spec(n: u8) -> Self {
        write_error_of(n)
    }
}

/// How a write error is described.
pub open spec fn write_error_text(e: WriteError) -> Seq<char> {
    match e {
        WriteError::ValueRejected => "setting value invalid"@,
        WriteError::SettingRejected => "setting does not exist"@,
        WriteError::ParseFailed => "could not parse setting value "@,
        WriteError::ReadOnly => "setting is read only"@,
        WriteError::ModifyDisabled => "setting is not modifiable"@,
        WriteError::ServiceFailed => "system failure during setting"@,
        WriteError::Timeout => "request wasn't replied in time"@,
        WriteError::Unknown => "unknown settings write response"@,
    }
}

impl WriteError {
    /// The description of the error.
    pub fn to_string(&self) -> (r: String)
        ensures
            r@ == write_error_text(*self),
    {
        let s = match self {
            WriteError::ValueRejected => "setting value invalid",
            WriteError::SettingRejected => "setting does not exist",
            WriteError::ParseFailed => "could not parse setting value ",
            WriteError::ReadOnly => "setting is read only",
            WriteError::ModifyDisabled => "setting is not modifiable",
            WriteError::ServiceFailed => "system failure during setting",
            WriteError::Timeout => "request wasn't replied in time",
            WriteError::Unknown => "unknown settings write response",
        };
        s.to_owned()
    }
}

/// Errors of the settings client. A failure to send a message is kept as
/// the text the sender gave.
#[derive(Debug)]
pub enum Error {
    SenderError(String),
    WriteError(WriteError),
    ParseError,
    TimedOut,
    Canceled,
}

pub enum ErrorView {
    SenderError(Seq<char>),
    WriteError(WriteError),
    ParseError,
    TimedOut,
    Canceled,
}

impl View for Error {
    type V = ErrorView;

    open spec fn view(&self) -> ErrorView {
        match self {
            Error::SenderError(s) => ErrorView::SenderError(s@),
            Error::WriteError(e) => ErrorView::WriteError(*e),
            Error::ParseError => ErrorView::ParseError,
            Error::TimedOut => ErrorView::TimedOut,
            Error::Canceled => ErrorView::Canceled,
        }
    }
}

impl From<WriteError> for Error {
    fn from(e: WriteError) -> (r: Self)
        ensures
            r == Error::WriteError(e),
    {
        Error::WriteError(e)
    }
}

impl vstd::std_specs::convert::FromSpecImpl<WriteError> for Error {
    open spec fn obeys_from_spec() -> bool {
        true
    }

    open spec fn from_spec(e: WriteError) -> Self {
        Error::WriteError(e)
    }
}

/// How an error is described.
pub open spec fn error_text(e: ErrorView) -> Seq<char> {
    match e {
        ErrorView::SenderError(s) => s,
        ErrorView::WriteError(w) => write_error_text(w),
        ErrorView::ParseError => "failed to parse setting"@,
        ErrorView::TimedOut => "timed out"@,
        ErrorView::Canceled => "canceled"@,
    }
}

impl Error {
    /// The description of the error.
    pub fn to_string(&self) -> (r: String)
        ensures
            r@ == error_text(self@),
    {
        match self {
            Error::SenderError(s) => s.clone(),
            Error::WriteError(e) => e.to_string(),
            Error::ParseError => "failed to parse setting".to_owned(),
            Error::TimedOut => "timed out".to_owned(),
            Error::Canceled => "canceled".to_owned(),
        }
    }
}

} // verus!
