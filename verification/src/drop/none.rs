use vstd::prelude::*;
use super::DropScheduler;

verus! {

/// The lossless link: no packet is ever dropped.
#[derive(Debug)]
pub struct NoDropScheduler {}

impl DropScheduler for NoDropScheduler {
    fn should_drop(&mut self) -> (b: bool)
        ensures
            !b,
    {
        false
    }
}

} // verus!
