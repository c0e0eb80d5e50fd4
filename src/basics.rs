//! Small stand-alone helpers: an `Option`-returning check and the interface
//! shared by vehicles.
use vstd::prelude::*;

verus! {

/// `Some(n)` for `n` below 10, `None` otherwise.
pub fn example(n: i32) -> (r: Option<i32>)
    ensures
        n < 10 ==> r == Some(n),
        n >= 10 ==> r == None::<i32>,
{
    if n < 10 {
        return Some(n);
    }
    None
}

/// Behaviour shared by every vehicle.
pub trait Vehicle {
    /// Tells what the vehicle is.
    fn describe(&self);

    /// Sets the vehicle in motion.
    fn drive(&self);
}

} // verus!
