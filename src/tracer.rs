//! An observer of execution steps: the engine reports each step and the
//! tracer records it with the gas left before it.
use vstd::prelude::*;

verus! {

/// Gas charged for a transaction before its first step.
pub const BASE_TX_GAS: u64 = 21000;

/// One recorded execution step.
pub struct ExecutionStep {
    pub pc: usize,
    pub op: String,
    pub gas: u64,
    pub gas_cost: u64,
    pub stack: Vec<Vec<u8>>,
    pub memory: Vec<u8>,
}

/// The steps recorded so far and the gas left.
pub struct Tracer {
    steps: Vec<ExecutionStep>,
    gas: u64,
}

impl Tracer {
    pub closed spec fn spec_steps(&self) -> Seq<ExecutionStep> {
        self.steps@
    }

    pub closed spec fn spec_gas(&self) -> u64 {
        self.gas
    }

    /// A tracer for a call with `gas_limit`; the base transaction cost is
    /// taken up front (none is left when the limit is below it).
    pub fn new(gas_limit: u64) -> (r: Tracer)
        ensures
            r.spec_steps() == Seq::<ExecutionStep>::empty(),
            r.spec_gas() == if gas_limit >= BASE_TX_GAS { gas_limit - BASE_TX_GAS } else { 0 },
    {
        let gas = if gas_limit >= BASE_TX_GAS { gas_limit - BASE_TX_GAS } else { 0 };
        Tracer { steps: Vec::new(), gas }
    }

    /// Records a step with the gas left before it, then charges its cost
    /// (down to zero at most).
    pub fn on_step(&mut self, pc: usize, op: String, gas_cost: u64, stack: Vec<Vec<u8>>, memory: Vec<u8>)
        ensures
            final(self).spec_steps() == old(self).spec_steps().push(
                ExecutionStep { pc, op, gas: old(self).spec_gas(), gas_cost, stack, memory },
            ),
            final(self).spec_gas() == if old(self).spec_gas() >= gas_cost {
                old(self).spec_gas() - gas_cost
            } else {
                0
            },
    {
        let gas = self.gas;
        self.steps.push(ExecutionStep { pc, op, gas, gas_cost, stack, memory });
        self.gas = if gas >= gas_cost { gas - gas_cost } else { 0 };
    }

    pub fn gas_left(&self) -> (r: u64)
        ensures
            r == self.spec_gas(),
    {
        self.gas
    }

    /// The recorded steps, in order.
    pub fn into_steps(self) -> (r: Vec<ExecutionStep>)
        ensures
            r@ == self.spec_steps(),
    {
        self.steps
    }
}

} // verus!
