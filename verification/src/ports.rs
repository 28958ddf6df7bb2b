//! Port inventory policy: which enumerated MIDI ports the client offers
//! to the operator. Ports whose names carry a well-known virtual-loopback
//! signature are excluded, so the client's own output is never picked up
//! as an input (a feedback loop).

use vstd::prelude::*;

use crate::text::{contains_seq, str_contains};

verus! {

/// A port name the client accepts: one that does not contain the
/// virtual-loopback signature.
pub open spec fn is_valid_port_name(name: Seq<char>) -> bool {
    !contains_seq(name, "Traktor Virtual Output"@)
}

/// Does this port name belong in the filtered lists?
pub fn check_valid_port(port_name: String) -> (r: bool)
    ensures
        r == is_valid_port_name(port_name@),
{
    !str_contains(port_name.as_str(), "Traktor Virtual Output")
}

/// Positions of the acceptable names in an enumerated port list, in
/// order: the filtered list the operator's indices refer to.
pub fn filter_port_indices(names: &Vec<String>) -> (r: Vec<usize>)
    ensures
        forall|j: int|
            0 <= j < r@.len() ==> #[trigger] r@[j] < names@.len() && is_valid_port_name(
                names@[r@[j] as int]@,
            ),
        forall|j: int, k: int| 0 <= j < k < r@.len() ==> r@[j] < r@[k],
        forall|i: int|
            0 <= i < names@.len() && is_valid_port_name(#[trigger] names@[i]@) ==> exists|j: int|
                0 <= j < r@.len() && r@[j] == i,
{
    let n = names.len();
    let mut r: Vec<usize> = Vec::new();
    let mut i: usize = 0;
    while i < n
        invariant
            i <= n,
            n == names@.len(),
            forall|j: int|
                0 <= j < r@.len() ==> #[trigger] r@[j] < i && is_valid_port_name(
                    names@[r@[j] as int]@,
                ),
            forall|j: int, k: int| 0 <= j < k < r@.len() ==> r@[j] < r@[k],
            forall|m: int|
                0 <= m < i && is_valid_port_name(#[trigger] names@[m]@) ==> exists|j: int|
                    0 <= j < r@.len() && r@[j] == m,
        decreases n - i,
    {
        let ghost old_r = r@;
        let keep = check_valid_port(names[i].clone());
        if keep {
            r.push(i);
        }
        proof {
            assert forall|m: int|
                0 <= m < i + 1 && is_valid_port_name(#[trigger] names@[m]@) implies exists|j: int|
                0 <= j < r@.len() && r@[j] == m by {
                if m < i {
                    let j = choose|j: int| 0 <= j < old_r.len() && old_r[j] == m;
                    assert(r@[j] == m);
                } else {
                    assert(keep);
                    assert(r@[r@.len() - 1] == m);
                }
            }
        }
        i = i + 1;
    }
    r
}

} // verus!
