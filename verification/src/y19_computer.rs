//! What a run of an Intcode program leaves behind: the number of steps, the
//! final memory image and the values it wrote out.

use vstd::prelude::*;

verus! {

/// The computer that runs Intcode programs; it keeps no state between runs.
pub struct IntCodeComputer {}

impl IntCodeComputer {
    pub fn new() -> (res: Self) {
        IntCodeComputer {}
    }
}

/// The outcome of one run of a program.
pub struct ExecutionResult {
    step_count: usize,
    image: Vec<i32>,
    outputs: Vec<i32>,
}

impl ExecutionResult {
    pub closed spec fn step_count_spec(&self) -> usize {
        self.step_count
    }

    pub closed spec fn image_spec(&self) -> Seq<i32> {
        self.image@
    }

    pub closed spec fn outputs_spec(&self) -> Seq<i32> {
        self.outputs@
    }

    pub(crate) fn new(step_count: usize, image: Vec<i32>, outputs: Vec<i32>) -> (res: ExecutionResult)
        ensures
            res.step_count_spec() == step_count,
            res.image_spec() == image@,
            res.outputs_spec() == outputs@,
    {
        ExecutionResult { step_count, image, outputs }
    }

    /// How many instructions ran.
    pub fn step_count(&self) -> (res: usize)
        ensures
            res == self.step_count_spec(),
    {
        self.step_count
    }

    /// The memory as the program left it.
    pub fn image(&self) -> (res: &[i32])
        ensures
            res@ == self.image_spec(),
    {
        self.image.as_slice()
    }

    /// The values the program wrote out, in order.
    pub fn outputs(&self) -> (res: &[i32])
        ensures
            res@ == self.outputs_spec(),
    {
        self.outputs.as_slice()
    }
}

} // verus!
