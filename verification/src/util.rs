//! Lists of integers as text.

use crate::text::{
    bracketed, join_texts, list_separator, push_char, push_signed, signed_decimal, text_views,
};
use vstd::prelude::*;
use vstd::string::StringExecFns;

verus! {

/// The integers in square brackets, with a comma and a space between each
/// two.
pub fn iterable_to_str(items: &Vec<i16>) -> (r: String)
    ensures
        r@ == bracketed(items@),
{
    let ghost texts = Seq::new(items@.len(), |i: int| signed_decimal(items@[i] as int));
    let mut parts: Vec<String> = Vec::new();
    let mut i: usize = 0;
    while i < items.len()
        invariant
            i <= items.len(),
            texts == Seq::new(items@.len(), |k: int| signed_decimal(items@[k] as int)),
            parts@.len() == i,
            forall|k: int| 0 <= k < i ==> (#[trigger] parts@[k])@ == texts[k],
        decreases items.len() - i,
    {
        let mut part = String::new();
        push_signed(&mut part, items[i]);
        assert(part@ =~= texts[i as int]);
        parts.push(part);
        i = i + 1;
    }
    assert(text_views(parts@) =~= texts);
    proof {
        reveal_strlit(", ");
        assert(", "@ =~= list_separator());
    }
    let body = join_texts(&parts, ", ");
    let mut r = String::new();
    push_char(&mut r, '[');
    r.append(body.as_str());
    push_char(&mut r, ']');
    assert(r@ =~= bracketed(items@));
    r
}

} // verus!
