use vstd::prelude::*;

verus! {

/// OS-style status codes.
#[derive(Copy, Clone, PartialEq, Eq, Structural, PartialOrd, Ord, Debug)]
pub enum Status {
    Success,
    InvalidArgument,
    OutOfMemory,
    NotSupported,
    NotFound,
    IoError,
    Busy,
    Timeout,
    Unknown,
}

/// Result type used at subsystem boundaries.
pub type KResult<T> = Result<T, Status>;

/// The numeric value of each status code at an ABI boundary.
pub open spec fn status_code(s: Status) -> i32 {
    match s {
        Status::Success => 0,
        Status::InvalidArgument => 1,
        Status::OutOfMemory => 2,
        Status::NotSupported => 3,
        Status::NotFound => 4,
        Status::IoError => 5,
        Status::Busy => 6,
        Status::Timeout => 7,
        Status::Unknown => 255,
    }
}

/// Codes tell statuses apart: distinct statuses have distinct codes, and a code is 0
/// exactly for `Success`.
pub proof fn lemma_status_codes_distinct(a: Status, b: Status)
    ensures
        status_code(a) == status_code(b) ==> a == b,
        status_code(a) == 0 <==> a == Status::Success,
{
}

impl Status {
    /// `true` exactly for `Status::Success`.
    pub fn is_ok(self) -> (r: bool)
        ensures
            r == (self == Status::Success),
    {
        matches!(self, Status::Success)
    }

    /// The numeric code of the status (`Success` is 0, `Unknown` is 255).
    pub fn code(self) -> (r: i32)
        ensures
            r == status_code(self),
    {
        match self {
            Status::Success => 0,
            Status::InvalidArgument => 1,
            Status::OutOfMemory => 2,
            Status::NotSupported => 3,
            Status::NotFound => 4,
            Status::IoError => 5,
            Status::Busy => 6,
            Status::Timeout => 7,
            Status::Unknown => 255,
        }
    }
}

/// Conversion of a success flag into a status code.
pub trait IntoStatus: Sized {
    fn into_status(self, err: Status) -> Status;
}

impl IntoStatus for bool {
    /// `Status::Success` when `self` holds, otherwise `err`.
    fn into_status(self, err: Status) -> (r: Status)
        ensures
            r == (if self { Status::Success } else { err }),
    {
        if self {
            Status::Success
        } else {
            err
        }
    }
}

/// Conversion of an optional value into a `KResult`.
pub trait OptionIntoStatus<T>: Sized {
    fn ok_or_status(self, err: Status) -> KResult<T>;
}

impl<T> OptionIntoStatus<T> for Option<T> {
    /// `Ok(v)` for `Some(v)`, `Err(err)` for `None`.
    fn ok_or_status(self, err: Status) -> (r: KResult<T>)
        ensures
            r == (match self {
                Some(v) => Ok::<T, Status>(v),
                None => Err::<T, Status>(err),
            }),
    {
        match self {
            Some(v) => Ok(v),
            None => Err(err),
        }
    }
}

} // verus!
