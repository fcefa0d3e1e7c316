//! Passing a result on, under an optional rule that a failure stops the
//! program.

use vstd::prelude::*;

verus! {

/// Whether a setting asks for the strict rule: it does if it is there and
/// reads `1`.
pub open spec fn asks_for_strict(setting: Option<Seq<char>>) -> bool {
    setting == Some(seq!['1'])
}

/// Tells from the value of the setting whether the strict rule is on.
pub fn strict_setting(setting: Option<&str>) -> (strict: bool)
    ensures
        strict == asks_for_strict(
            match setting {
                Some(text) => Some(text@),
                None => None,
            },
        ),
{
    broadcast use vstd::string::is_ascii_spec_bytes;

    match setting {
        Some(text) => {
            if !text.is_ascii() {
                return false;
            }
            let bytes = text.as_bytes();
            if bytes.len() == 1 && bytes[0] == 0x31 {
                assert(text@ =~= seq!['1']);
                true
            } else {
                false
            }
        },
        None => false,
    }
}

/// A value that may stand for a failure and is passed on as it is. Under the
/// strict rule a failure is not passed on: the caller stops before.
pub trait Report: Sized {
    type Returns;

    /// Whether the value stands for a failure.
    spec fn failed(&self) -> bool;

    /// Whether `returned` is this value.
    spec fn same(&self, returned: &Self::Returns) -> bool;

    fn report(self, strict: bool) -> (returned: Self::Returns)
        requires
            !(strict && self.failed()),
        ensures
            self.same(&returned),
    ;
}

impl<T, E> Report for Result<T, E> {
    type Returns = Result<T, E>;

    open spec fn failed(&self) -> bool {
        self is Err
    }

    open spec fn same(&self, returned: &Result<T, E>) -> bool {
        *returned == *self
    }

    fn report(self, strict: bool) -> (returned: Result<T, E>) {
        match self {
            Ok(value) => Ok(value),
            Err(e) => Err(e),
        }
    }
}

impl<T> Report for Option<T> {
    type Returns = Option<T>;

    open spec fn failed(&self) -> bool {
        self is None
    }

    open spec fn same(&self, returned: &Option<T>) -> bool {
        *returned == *self
    }

    fn report(self, strict: bool) -> (returned: Option<T>) {
        match self {
            Some(value) => Some(value),
            None => None,
        }
    }
}

} // verus!
