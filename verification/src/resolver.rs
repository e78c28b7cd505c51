//! Translation of a caller-supplied ordinal position into a concrete row
//! identifier, as the fetch and delete routes apply it.
//!
//! The two routes share a guard (`i < count`) but resolve differently: the
//! fetch route folds the ordinal modulo the current count, while the delete
//! route substitutes the count itself. The asymmetry is part of the observed
//! route behaviour and is preserved here as stated.

use vstd::prelude::*;
use vstd::string::StringExecFns;
use crate::codec::dec_seq;
use crate::codec::u64_to_dec;

verus! {

/// Resolution rule of the fetch-by-position route: `i % count` when the
/// ordinal lies below the current count, otherwise the ordinal itself,
/// treated as a direct identifier.
pub fn resolve_fetch_position(i: usize, count: usize) -> (n: i32)
    requires
        i <= i32::MAX as usize,
    ensures
        n == if i < count {
            (i as int) % (count as int)
        } else {
            i as int
        },
{
    if i < count {
        proof {
            vstd::arithmetic::div_mod::lemma_small_mod(i as nat, count as nat);
        }
        (i % count) as i32
    } else {
        i as i32
    }
}

/// Resolution rule of the delete-by-position route: the current count when
/// the ordinal lies below it, otherwise the ordinal itself.
pub fn resolve_delete_position(i: usize, count: usize) -> (n: i32)
    requires
        i <= i32::MAX as usize,
        count <= i32::MAX as usize,
    ensures
        n == if i < count {
            count as int
        } else {
            i as int
        },
{
    if i < count {
        count as i32
    } else {
        i as i32
    }
}

/// The body the delete route answers with for resolved identifier `n` and
/// deleted-row count `r`.
pub open spec fn report_seq(n: int, r: int) -> Seq<char> {
    if r == 0 {
        "no record "@ + dec_seq(n as nat) + " (reported deletion of "@ + dec_seq(r as nat)
            + " records)"@
    } else {
        "deleted "@ + dec_seq(n as nat)
    }
}

/// Renders the delete route's answer: `deleted <n>` when at least one row
/// went, else the no-record report with the count that was observed.
pub fn removal_report(n: i32, r: usize) -> (t: String)
    requires
        n >= 0,
    ensures
        t@ == report_seq(n as int, r as int),
{
    let n_dec = u64_to_dec(n as u64);
    if r == 0 {
        let mut t = String::from_str("no record ");
        t.append(n_dec.as_str());
        t.append(" (reported deletion of ");
        let r_dec = u64_to_dec(r as u64);
        t.append(r_dec.as_str());
        t.append(" records)");
        t
    } else {
        let mut t = String::from_str("deleted ");
        t.append(n_dec.as_str());
        t
    }
}

} // verus!
