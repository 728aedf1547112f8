//! The depth bound of the walk.

use vstd::prelude::*;
use vstd::arithmetic::div_mod::lemma_fundamental_div_mod_converse;

verus! {

/// The depth bound that stands for "no bound": the walk descends as far as
/// the tree goes.
pub const UNBOUNDED: usize = usize::MAX;

/// The bound that a requested depth stands for. No request is no bound. A
/// request within the range of `usize` is the bound itself; any other is
/// taken modulo that range, so that a negative one lands near the top of
/// it, where it bounds no walk that a tree can give.
pub open spec fn depth_limit_of(requested: Option<i64>) -> int {
    match requested {
        None => usize::MAX as int,
        Some(d) => if 0 <= d <= usize::MAX {
            d as int
        } else {
            (d as int) % (usize::MAX as int + 1)
        },
    }
}

/// A negative request that is not below the range of `usize` turned
/// negative stands for the bound that lies as far below the top of the
/// range: -1 for the largest bound, -2 for the one before it.
pub proof fn lemma_negative_depth_wraps(d: i64)
    requires
        -(usize::MAX as int) - 1 <= d < 0,
    ensures
        depth_limit_of(Some(d)) == usize::MAX as int + 1 + d,
{
    let span = usize::MAX as int + 1;
    lemma_fundamental_div_mod_converse(d as int, span, -1, span + d);
}

/// Turns the optional depth request of the command line into the bound
/// handed to the walk.
pub fn depth_limit(requested: Option<i64>) -> (limit: usize)
    ensures
        limit as int == depth_limit_of(requested),
{
    match requested {
        None => UNBOUNDED,
        Some(d) => {
            let span: u128 = usize::MAX as u128 + 1;
            if d >= 0 {
                let rest: u128 = (d as u128) % span;
                proof {
                    if d <= usize::MAX {
                        lemma_fundamental_div_mod_converse(d as int, span as int, 0, d as int);
                    }
                }
                rest as usize
            } else {
                let below: u128 = (-(d as i128)) as u128;
                let laps: u128 = below / span;
                let rest: u128 = below % span;
                if rest == 0 {
                    proof {
                        lemma_fundamental_div_mod_converse(
                            d as int,
                            span as int,
                            -(laps as int),
                            0,
                        );
                    }
                    0
                } else {
                    proof {
                        lemma_fundamental_div_mod_converse(
                            d as int,
                            span as int,
                            -(laps as int) - 1,
                            (span - rest) as int,
                        );
                    }
                    (span - rest) as usize
                }
            }
        }
    }
}

} // verus!
