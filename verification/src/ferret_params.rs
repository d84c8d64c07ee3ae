//! Parameter sets of the Ferret correlated-OT extension.

use vstd::prelude::*;

verus! {

/// Primal LPN parameters: the main and the bootstrapping instance.
#[derive(Clone, Copy, Debug, PartialEq, Eq, Structural)]
pub struct PrimalLpnParameter {
    pub n: i64,
    pub t: i64,
    pub k: i64,
    pub log_bin_sz: i64,
    pub n_pre: i64,
    pub t_pre: i64,
    pub k_pre: i64,
    pub log_bin_sz_pre: i64,
}

impl PrimalLpnParameter {
    /// A parameter set with the given fields.
    pub fn new(
        n: i64,
        t: i64,
        k: i64,
        log_bin_sz: i64,
        n_pre: i64,
        t_pre: i64,
        k_pre: i64,
        log_bin_sz_pre: i64,
    ) -> (p: PrimalLpnParameter)
        ensures
            p == (PrimalLpnParameter { n, t, k, log_bin_sz, n_pre, t_pre, k_pre, log_bin_sz_pre }),
    {
        PrimalLpnParameter { n, t, k, log_bin_sz, n_pre, t_pre, k_pre, log_bin_sz_pre }
    }
}

/// The parameter set with bins of `2^13` leaves.
pub fn ferret_b13() -> (p: PrimalLpnParameter)
    ensures
        p == ferret_b13_spec(),
{
    PrimalLpnParameter::new(10_485_760, 1_280, 452_000, 13, 470_016, 918, 32_768, 9)
}

/// The parameter set with bins of `2^12` leaves.
pub fn ferret_b12() -> (p: PrimalLpnParameter)
    ensures
        p == ferret_b12_spec(),
{
    PrimalLpnParameter::new(10_268_672, 2_507, 238_000, 12, 268_800, 1_050, 17_384, 8)
}

/// The parameter set with bins of `2^11` leaves.
pub fn ferret_b11() -> (p: PrimalLpnParameter)
    ensures
        p == ferret_b11_spec(),
{
    PrimalLpnParameter::new(10_180_608, 4_971, 124_000, 11, 178_944, 699, 17_384, 8)
}

/// A parameter preset together with the density of the LPN sampler.
#[derive(Clone, Copy, Debug, PartialEq, Eq, Structural)]
pub struct FerretConfig {
    pub params: PrimalLpnParameter,
    /// Density parameter for the LPN sampler.
    pub density: usize,
}

/// The preset with bins of `2^13` leaves and density 10.
pub fn ferret_config_b13() -> (c: FerretConfig)
    ensures
        c.params == ferret_b13_spec(),
        c.density == 10,
{
    FerretConfig { params: ferret_b13(), density: 10 }
}

/// The preset with bins of `2^12` leaves and density 10.
pub fn ferret_config_b12() -> (c: FerretConfig)
    ensures
        c.params == ferret_b12_spec(),
        c.density == 10,
{
    FerretConfig { params: ferret_b12(), density: 10 }
}

/// The preset with bins of `2^11` leaves and density 10.
pub fn ferret_config_b11() -> (c: FerretConfig)
    ensures
        c.params == ferret_b11_spec(),
        c.density == 10,
{
    FerretConfig { params: ferret_b11(), density: 10 }
}

/// The `2^13` parameter set.
pub open spec fn ferret_b13_spec() -> PrimalLpnParameter {
    PrimalLpnParameter {
        n: 10_485_760, t: 1_280, k: 452_000, log_bin_sz: 13,
        n_pre: 470_016, t_pre: 918, k_pre: 32_768, log_bin_sz_pre: 9,
    }
}

/// The `2^12` parameter set.
pub open spec fn ferret_b12_spec() -> PrimalLpnParameter {
    PrimalLpnParameter {
        n: 10_268_672, t: 2_507, k: 238_000, log_bin_sz: 12,
        n_pre: 268_800, t_pre: 1_050, k_pre: 17_384, log_bin_sz_pre: 8,
    }
}

/// The `2^11` parameter set.
pub open spec fn ferret_b11_spec() -> PrimalLpnParameter {
    PrimalLpnParameter {
        n: 10_180_608, t: 4_971, k: 124_000, log_bin_sz: 11,
        n_pre: 178_944, t_pre: 699, k_pre: 17_384, log_bin_sz_pre: 8,
    }
}

} // verus!
