//! The scan: how its inputs and outputs stand to those of its body, and
//! how it runs.

use vstd::prelude::*;
use crate::tensor::Tensor;

pub mod lir;

verus! {

/// Where the state of a scan starts from.
#[derive(Debug, PartialEq, Eq)]
pub enum StateInitializer {
    /// From this input of the scan.
    FromInput(usize),
    /// From this value.
    Value(Tensor),
}

/// What an input of the body of a scan is.
#[derive(Debug, PartialEq, Eq)]
pub enum InputMapping<C> {
    /// An input of the scan, whole at each turn.
    Full { slot: usize },
    /// The state, as the previous turn left it.
    State { initializer: StateInitializer },
    /// An input of the scan, cut along `axis` in chunks of `chunk`, one at
    /// each turn.
    Scan { slot: usize, axis: usize, chunk: C },
}

impl<C: Copy> InputMapping<C> {
    /// Where the state starts from, for a state.
    pub fn as_state(&self) -> (r: Option<&StateInitializer>)
        ensures
            match r {
                Some(i) => *self matches InputMapping::State { initializer } && *i == initializer,
                None => !(self is State),
            },
    {
        match self {
            InputMapping::State { initializer } => Some(initializer),
            _ => None,
        }
    }

    /// The slot, the axis and the chunk, for a scanned input.
    pub fn as_scan(&self) -> (r: Option<(usize, usize, C)>)
        ensures
            r == (match *self {
                InputMapping::Scan { slot, axis, chunk } => Some((slot, axis, chunk)),
                _ => None,
            }),
    {
        match self {
            InputMapping::Scan { slot, axis, chunk } => Some((*slot, *axis, *chunk)),
            _ => None,
        }
    }

    /// Whether the input is none of the scan: a state that starts from a
    /// value.
    pub fn invisible(&self) -> (r: bool)
        ensures
            r == (*self matches InputMapping::State { initializer } && initializer is Value),
    {
        match self {
            InputMapping::State { initializer } => match initializer {
                StateInitializer::Value(_) => true,
                _ => false,
            },
            _ => false,
        }
    }

    /// The input of the scan that this input of the body comes from, if it
    /// comes from one.
    pub fn slot(&self) -> (r: Option<usize>)
        ensures
            r == (match *self {
                InputMapping::Full { slot } => Some(slot),
                InputMapping::Scan { slot, axis, chunk } => Some(slot),
                InputMapping::State { initializer } => match initializer {
                    StateInitializer::FromInput(slot) => Some(slot),
                    StateInitializer::Value(_) => None,
                },
            }),
    {
        match self {
            InputMapping::Full { slot } => Some(*slot),
            InputMapping::Scan { slot, .. } => Some(*slot),
            InputMapping::State { initializer } => match initializer {
                StateInitializer::FromInput(slot) => Some(*slot),
                _ => None,
            },
        }
    }
}

/// What becomes of an output of the body of a scan.
#[derive(Debug, PartialEq, Eq)]
pub struct OutputMapping<C, F> {
    /// The output of the scan that gathers it over all turns.
    pub full_slot: Option<usize>,
    pub axis: usize,
    pub chunk: C,
    pub full_dim_hint: Option<F>,
    /// The output of the scan that is its value at the last turn.
    pub last_value_slot: Option<usize>,
    /// Whether it is the state for the next turn.
    pub state: bool,
}

impl<C, F> OutputMapping<C, F> {
    /// Whether the output is none of the scan.
    pub fn invisible(&self) -> (r: bool)
        ensures
            r == (self.full_slot.is_none() && self.last_value_slot.is_none()),
    {
        self.full_slot.is_none() && self.last_value_slot.is_none()
    }
}

/// The number of turns of a scan over `len` elements in chunks of `chunk`.
pub fn iterations(len: usize, chunk: usize) -> (r: usize)
    requires
        chunk > 0,
    ensures
        r == (len + chunk - 1) / (chunk as int),
{
    let whole = len / chunk;
    let rest = len % chunk;
    proof {
        vstd::arithmetic::div_mod::lemma_fundamental_div_mod(len as int, chunk as int);
        let q = (len as int) / (chunk as int);
        assert(chunk * q == q * chunk) by (nonlinear_arith);
        if rest == 0 {
            vstd::arithmetic::div_mod::lemma_fundamental_div_mod_converse_div(
                len + chunk - 1,
                chunk as int,
                q,
                chunk - 1,
            );
        } else {
            assert(len + chunk - 1 == (q + 1) * chunk + (rest - 1)) by (nonlinear_arith)
                requires
                    len == chunk * q + rest,
            ;
            vstd::arithmetic::div_mod::lemma_fundamental_div_mod_converse_div(
                len + chunk - 1,
                chunk as int,
                q + 1,
                rest - 1,
            );
            assert(whole < usize::MAX) by {
                assert(chunk * q >= q) by (nonlinear_arith)
                    requires
                        chunk >= 1,
                        q >= 0,
                ;
            }
        }
    }
    if rest == 0 {
        whole
    } else {
        whole + 1
    }
}

} // verus!
