//! Navigation state of the dashboard that sits on top of the gateway.

use vstd::prelude::*;

verus! {

/// The main tabs of the dashboard.
#[derive(Clone, Copy, Debug, PartialEq, Eq, Structural)]
pub enum Tab {
    Agent,
    Systems,
    Fleet,
}

/// `a` modulo `m`, taken in `0..m`.
pub open spec fn wrap(a: int, m: int) -> int {
    a % m
}

/// The selection in a list of `count` entries after moving it by `delta`:
/// nothing when the list is empty, the first entry when nothing was
/// selected, else the selection moved by `delta` with wrap-around. Indices
/// and counts are first capped at the largest `i32`.
pub open spec fn moved(count: nat, selected: Option<nat>, delta: int) -> Option<nat> {
    if count == 0 {
        None
    } else {
        match selected {
            None => Some(0),
            Some(s) => {
                let s1 = if s > i32::MAX {
                    i32::MAX as int
                } else {
                    s as int
                };
                let c1 = if count > i32::MAX {
                    i32::MAX as int
                } else {
                    count as int
                };
                Some(wrap(s1 + delta, c1) as nat)
            },
        }
    }
}

/// Moves a list selection by `delta` entries, wrapping around at either end.
pub fn list_move(count: usize, selected: Option<usize>, delta: i32) -> (r: Option<usize>)
    ensures
        match r {
            Some(i) => moved(count as nat, opt_index(selected), delta as int) == Some(i as nat),
            None => moved(count as nat, opt_index(selected), delta as int) is None,
        },
{
    if count == 0 {
        return None;
    }
    match selected {
        None => Some(0),
        Some(s) => {
            let s1: i64 = if s > i32::MAX as usize {
                i32::MAX as i64
            } else {
                s as i64
            };
            let c1: i64 = if count > i32::MAX as usize {
                i32::MAX as i64
            } else {
                count as i64
            };
            let a: i64 = s1 + delta as i64;
            // shift by a multiple of the count so that the remainder is taken of a non-negative number
            let b: i64 = a + c1 * 2147483648;
            let w: u64 = b as u64 % c1 as u64;
            proof {
                vstd::arithmetic::div_mod::lemma_mod_multiples_vanish(
                    2147483648,
                    a as int,
                    c1 as int,
                );
            }
            assert(w == wrap(s1 + delta, c1 as int));
            Some(w as usize)
        },
    }
}

/// An optional index as an optional natural number.
pub open spec fn opt_index(o: Option<usize>) -> Option<nat> {
    match o {
        Some(v) => Some(v as nat),
        None => None,
    }
}

} // verus!
