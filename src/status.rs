use vstd::prelude::*;

use crate::abi::AbiFault;

verus! {

/// Two-valued outcome of a guest's record handler and of a sink write.
#[derive(Clone, Copy, Debug, PartialEq, Eq, Structural)]
pub enum Status {
    Success,
    Error,
}

impl Status {
    /// The discriminant that stands for this status at the guest boundary.
    pub open spec fn code_spec(self) -> i32 {
        match self {
            Status::Success => 0,
            Status::Error => 1,
        }
    }

    pub fn code(self) -> (r: i32)
        ensures
            r == self.code_spec(),
    {
        match self {
            Status::Success => 0,
            Status::Error => 1,
        }
    }

    /// Reads a discriminant returned by the guest; anything but 0 or 1 is
    /// an invalid variant.
    pub fn from_code(c: i32) -> (r: Result<Status, AbiFault>)
        ensures
            c == 0 ==> r == Ok::<Status, AbiFault>(Status::Success),
            c == 1 ==> r == Ok::<Status, AbiFault>(Status::Error),
            c != 0 && c != 1 ==> r == Err::<Status, AbiFault>(AbiFault::InvalidVariant),
            r matches Ok(s) ==> s.code_spec() == c,
    {
        if c == 0 {
            Ok(Status::Success)
        } else if c == 1 {
            Ok(Status::Error)
        } else {
            Err(AbiFault::InvalidVariant)
        }
    }

    pub open spec fn of_call_spec(outcome: Result<i32, ()>) -> Status {
        match outcome {
            Ok(c) => if c == 0 {
                Status::Success
            } else {
                Status::Error
            },
            Err(_) => Status::Error,
        }
    }

    /// The status reported to the dispatcher for one guest call: a trap, an
    /// ABI violation or an invalid discriminant are all reported as `Error`.
    pub fn of_call(outcome: Result<i32, ()>) -> (r: Status)
        ensures
            r == Self::of_call_spec(outcome),
    {
        match outcome {
            Ok(c) => match Status::from_code(c) {
                Ok(s) => s,
                Err(_) => Status::Error,
            },
            Err(_) => Status::Error,
        }
    }
}

} // verus!
