//! Spreadsheet-style column labels as ASCII letters: 0 -> "A", 25 -> "Z",
//! 26 -> "AA", 27 -> "AB", ... (bijective base-26 numeration).

use vstd::prelude::*;

verus! {

/// The label of column `n`: the most significant letter first, each letter in
/// `b'A' ..= b'Z'`, the last letter taken from `n % 26` and the rest from the
/// label of `n / 26 - 1`.
pub open spec fn spec_column_label(n: int) -> Seq<u8>
    decreases n,
{
    if n < 26 {
        seq![(65 + (if n >= 0 { n } else { 0 })) as u8]
    } else {
        spec_column_label(n / 26 - 1).push((65 + n % 26) as u8)
    }
}

/// The ASCII letters of column `n`'s label.
pub fn name_from_number(n: usize) -> (r: Vec<u8>)
    ensures
        r@ == spec_column_label(n as int),
        r@.len() >= 1,
    decreases n,
{
    let i: usize = n % 26;
    let ch: u8 = 65 + (i as u8);
    if n / 26 > 0 {
        let mut r = name_from_number(n / 26 - 1);
        r.push(ch);
        r
    } else {
        let mut r: Vec<u8> = Vec::new();
        r.push(ch);
        proof {
            assert(r@ =~= spec_column_label(n as int));
        }
        r
    }
}

} // verus!
