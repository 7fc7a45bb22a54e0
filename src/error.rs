//! The two ways an operation on a `PackedFreelist` can fail.

use vstd::prelude::*;
use vstd::string::StringExecFns;

use crate::ids::AllocationID;

verus! {

/// An insertion found the container full.
#[derive(Debug)]
pub struct AllocationError {
    /// The index that the insertion would have needed: one more than the
    /// number of live values.
    pub allocation_index: u16,
}

/// A removal was given an id that refers to no live value.
#[derive(Debug)]
pub struct NotFound {
    /// The id that was given.
    pub id: AllocationID,
}

/// The digit characters, by value.
pub open spec fn digit_char(d: nat) -> char {
    seq!['0', '1', '2', '3', '4', '5', '6', '7', '8', '9'][d as int]
}

/// `n` written in decimal, without sign or leading zeros.
pub open spec fn decimal(n: nat) -> Seq<char>
    decreases n,
{
    if n < 10 {
        seq![digit_char(n)]
    } else {
        decimal(n / 10).push(digit_char(n % 10))
    }
}

/// Relies on `ToString::to_string` through `u32`'s `Display`, which writes
/// the number in decimal with no sign and no leading zeros.
#[verifier::external_body]
fn decimal_string(n: u32) -> (r: String)
    ensures
        r@ == decimal(n as nat),
{
    n.to_string()
}

impl AllocationError {
    /// The index that the failed insertion would have needed.
    pub fn allocation_index(&self) -> (r: u16)
        ensures
            r == self.allocation_index,
    {
        self.allocation_index
    }

    /// A description of the failure for people.
    pub fn message(&self) -> (r: String)
        ensures
            r@ == "Failed to acquire allocation with index "@ + decimal(
                self.allocation_index as nat,
            ),
    {
        let mut text = String::from_str("Failed to acquire allocation with index ");
        let digits = decimal_string(self.allocation_index as u32);
        text.append(digits.as_str());
        text
    }
}

impl NotFound {
    /// The id that refers to no live value.
    pub fn id(&self) -> (r: AllocationID)
        ensures
            r == self.id,
    {
        self.id
    }

    /// A description of the failure for people.
    pub fn message(&self) -> (r: String)
        ensures
            r@ == "No live value with id "@ + decimal(self.id as nat),
    {
        let mut text = String::from_str("No live value with id ");
        let digits = decimal_string(self.id);
        text.append(digits.as_str());
        text
    }
}

} // verus!
