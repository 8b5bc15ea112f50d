//! A configuration with the analytic security level that it was solved for.

use crate::bits::Bits;
use vstd::prelude::*;

verus! {

/// A solved configuration and its analytic floor.
#[derive(Clone, Copy, Debug)]
pub struct Solved<C> {
    pub config: C,
    pub analytic: Bits,
}

impl<C> Solved<C> {
    /// A configuration with its floor.
    pub fn new(config: C, analytic: Bits) -> (r: Self)
        ensures
            r.config == config,
            r.analytic == analytic,
    {
        Solved { config, analytic }
    }

    /// The analytic floor.
    pub fn analytic(&self) -> (r: Bits)
        ensures
            r == self.analytic,
    {
        self.analytic
    }

    /// The configuration.
    pub fn config(&self) -> (r: &C)
        ensures
            *r == self.config,
    {
        &self.config
    }

    /// The configuration alone.
    pub fn into_config(self) -> (r: C)
        ensures
            r == self.config,
    {
        self.config
    }
}

} // verus!
