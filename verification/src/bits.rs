//! Rendering an index as a fixed-width binary string.

use crate::text::push_char;
use vstd::prelude::*;

verus! {

/// The low `size` binary digits of `i`, most significant first: the last
/// character is the lowest bit.
pub open spec fn bit_string(i: nat, size: nat) -> Seq<char>
    decreases size,
{
    if size == 0 {
        Seq::empty()
    } else {
        bit_string(i / 2, (size - 1) as nat).push(
            if i % 2 == 0 {
                '0'
            } else {
                '1'
            },
        )
    }
}

/// Render the low `size` binary digits of `i`, most significant first.
pub fn index_to_bitstring(i: usize, size: usize) -> (r: String)
    ensures
        r@ == bit_string(i as nat, size as nat),
    decreases size,
{
    if size == 0 {
        let r = String::new();
        r
    } else {
        let mut r = index_to_bitstring(i / 2, size - 1);
        let bit = if i % 2 == 0 {
            '0'
        } else {
            '1'
        };
        push_char(&mut r, bit);
        r
    }
}

} // verus!
