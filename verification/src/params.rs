//! The tunable physical parameters of the simulation.
//!
//! The six coefficients are fixed-point values scaled by
//! [`crate::fixed::SCALE`]: a stored value of `1_000_000` means `1.0` in
//! coordinate units. An external control surface may change any of them
//! between ticks through the setters; each tick reads whatever values are
//! current.

use crate::fixed::{COEFF_LIMIT, DIAMETER_LIMIT};
use vstd::prelude::*;

verus! {

/// The six tunables of the force simulation, all scaled by
/// [`crate::fixed::SCALE`].
#[derive(Clone, Copy, Debug, PartialEq, Eq, Structural)]
pub struct Parameters {
    /// Repulsion coefficient applied between every pair of distinct nodes.
    pub repulsion: u64,
    /// Attraction coefficient applied along every edge.
    pub attraction: u64,
    /// Centering coefficient of the soft quadratic pull toward the origin.
    pub center: u64,
    /// Ideal-distance constant scaling both attraction and repulsion.
    pub k: u64,
    /// Maximum per-tick displacement magnitude, in scaled coordinate units.
    pub max_step: u64,
    /// Maximum layout diameter, in scaled coordinate units.
    pub max_diameter: u64,
}

/// The parameter values the simulation starts from.
pub open spec fn default_parameters() -> Parameters {
    Parameters {
        repulsion: 300_000_000u64,
        attraction: 10_000u64,
        center: 10u64,
        k: 198_164_000u64,
        max_step: 10_000_000u64,
        max_diameter: 30_000_000_000u64,
    }
}

impl Parameters {
    /// Bounds under which every tick computation stays inside machine
    /// integers. Values outside them are the caller's to clamp before
    /// injection.
    pub open spec fn wf(&self) -> bool {
        &&& self.repulsion <= COEFF_LIMIT
        &&& self.attraction <= COEFF_LIMIT
        &&& self.center <= COEFF_LIMIT
        &&& 1 <= self.k <= COEFF_LIMIT
        &&& self.max_step <= COEFF_LIMIT
        &&& self.max_diameter <= DIAMETER_LIMIT
    }

    /// Fresh parameters holding the default coefficients.
    pub fn new() -> (p: Parameters)
        ensures
            p == default_parameters(),
            p.wf(),
    {
        Parameters {
            repulsion: 300_000_000,
            attraction: 10_000,
            center: 10,
            k: 198_164_000,
            max_step: 10_000_000,
            max_diameter: 30_000_000_000,
        }
    }

    /// Current repulsion coefficient.
    pub fn get_repulsion(&self) -> (v: u64)
        ensures
            v == self.repulsion,
    {
        self.repulsion
    }

    /// Current attraction coefficient.
    pub fn get_attraction(&self) -> (v: u64)
        ensures
            v == self.attraction,
    {
        self.attraction
    }

    /// Current centering coefficient.
    pub fn get_center(&self) -> (v: u64)
        ensures
            v == self.center,
    {
        self.center
    }

    /// Current ideal-distance constant.
    pub fn get_k(&self) -> (v: u64)
        ensures
            v == self.k,
    {
        self.k
    }

    /// Current maximum per-tick step.
    pub fn get_max_step(&self) -> (v: u64)
        ensures
            v == self.max_step,
    {
        self.max_step
    }

    /// Current maximum layout diameter.
    pub fn get_max_diameter(&self) -> (v: u64)
        ensures
            v == self.max_diameter,
    {
        self.max_diameter
    }

    /// Replace the repulsion coefficient.
    pub fn set_repulsion(&mut self, v: u64)
        requires
            old(self).wf(),
            v <= COEFF_LIMIT,
        ensures
            final(self).wf(),
            *final(self) == (Parameters { repulsion: v, ..*old(self) }),
    {
        self.repulsion = v;
    }

    /// Replace the attraction coefficient.
    pub fn set_attraction(&mut self, v: u64)
        requires
            old(self).wf(),
            v <= COEFF_LIMIT,
        ensures
            final(self).wf(),
            *final(self) == (Parameters { attraction: v, ..*old(self) }),
    {
        self.attraction = v;
    }

    /// Replace the centering coefficient.
    pub fn set_center(&mut self, v: u64)
        requires
            old(self).wf(),
            v <= COEFF_LIMIT,
        ensures
            final(self).wf(),
            *final(self) == (Parameters { center: v, ..*old(self) }),
    {
        self.center = v;
    }

    /// Replace the ideal-distance constant.
    pub fn set_k(&mut self, v: u64)
        requires
            old(self).wf(),
            1 <= v <= COEFF_LIMIT,
        ensures
            final(self).wf(),
            *final(self) == (Parameters { k: v, ..*old(self) }),
    {
        self.k = v;
    }

    /// Replace the maximum per-tick step.
    pub fn set_max_step(&mut self, v: u64)
        requires
            old(self).wf(),
            v <= COEFF_LIMIT,
        ensures
            final(self).wf(),
            *final(self) == (Parameters { max_step: v, ..*old(self) }),
    {
        self.max_step = v;
    }

    /// Replace the maximum layout diameter.
    pub fn set_max_diameter(&mut self, v: u64)
        requires
            old(self).wf(),
            v <= DIAMETER_LIMIT,
        ensures
            final(self).wf(),
            *final(self) == (Parameters { max_diameter: v, ..*old(self) }),
    {
        self.max_diameter = v;
    }
}

impl Default for Parameters {
    /// The default coefficients the simulation starts from.
    fn default() -> (p: Parameters)
        ensures
            p == default_parameters(),
            p.wf(),
    {
        Parameters::new()
    }
}

} // verus!
