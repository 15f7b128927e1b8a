//! Word-granularity bit algorithms: realignment of a packed bit stream and
//! extraction of maximal runs of set bits.

pub mod re_align;
pub mod set_ranges;
