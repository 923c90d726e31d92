//! Conversions between stored text and the text the user writes.
use crate::markdown::spec_inline;
use vstd::prelude::*;

verus! {

/// Markdown reduced to its plain inline text (for titles); see `markdown::inline`.
pub fn inline(text: &str) -> (r: String)
    ensures
        r@ == spec_inline(text@),
{
    crate::markdown::inline(text)
}

} // verus!
