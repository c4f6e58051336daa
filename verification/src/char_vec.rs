//! Facts about vectors of characters.
use vstd::prelude::*;

verus! {

/// A `Vec<char>` has its plain view as deep view.
pub broadcast proof fn lemma_char_vec_deep_view(v: Vec<char>)
    ensures
        #[trigger] v.deep_view() == v@,
{
    assert(v.deep_view() =~= v@);
}

} // verus!
