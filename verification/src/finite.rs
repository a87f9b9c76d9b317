//! Scan policy shared by all reducer kernels.

use vstd::prelude::*;

verus! {

/// How a kernel treats non-finite values during a scan.
#[derive(Clone, Copy, Debug, PartialEq, Eq, Structural)]
pub enum ScanPolicy {
    /// Include every value; NaN/inf follow the plain NumPy-style reducers.
    AllValues,
    /// Caller guarantees all values are finite.
    AllFinite,
    /// Skip NaN, keep inf - `np.nanmean` parity.
    SkipNan,
    /// Skip NaN and inf - finite-only (`ignore_inf=True`).
    SkipNonFinite,
}

/// The policy that a boundary code names: 0, 1, 2 and 3 in declaration order.
pub open spec fn policy_of_code(code: u8) -> ScanPolicy
    recommends
        code < 4,
{
    if code == 0 {
        ScanPolicy::AllValues
    } else if code == 1 {
        ScanPolicy::AllFinite
    } else if code == 2 {
        ScanPolicy::SkipNan
    } else {
        ScanPolicy::SkipNonFinite
    }
}

impl ScanPolicy {
    /// Policy code used at the Python boundary (`reducers._core`).
    ///
    /// Codes other than 0..=3 are a caller error (they panic at the boundary).
    pub fn from_code(code: u8) -> (p: Self)
        requires
            code < 4,
        ensures
            p == policy_of_code(code),
    {
        match code {
            0 => ScanPolicy::AllValues,
            1 => ScanPolicy::AllFinite,
            2 => ScanPolicy::SkipNan,
            _ => ScanPolicy::SkipNonFinite,
        }
    }
}

/// Each policy has exactly one code: codes 0 to 3 name the four policies, and
/// distinct codes name distinct policies.
pub proof fn lemma_policy_codes_bijective(p: ScanPolicy)
    ensures
        exists|c: u8| c < 4 && #[trigger] policy_of_code(c) == p,
        forall|a: u8, b: u8| a < 4 && b < 4 && policy_of_code(a) == policy_of_code(b) ==> a == b,
{
    match p {
        ScanPolicy::AllValues => assert(policy_of_code(0) == p),
        ScanPolicy::AllFinite => assert(policy_of_code(1) == p),
        ScanPolicy::SkipNan => assert(policy_of_code(2) == p),
        ScanPolicy::SkipNonFinite => assert(policy_of_code(3) == p),
    }
}

} // verus!
