use vstd::prelude::*;

verus! {

/// The suffix for a count in a message: none for one, "s" otherwise.
pub fn plural(n: u64) -> (r: &'static str)
    ensures
        n == 1 ==> r@ == ""@,
        n != 1 ==> r@ == "s"@,
{
    if n == 1 {
        ""
    } else {
        "s"
    }
}

} // verus!
