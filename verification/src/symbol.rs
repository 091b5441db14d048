use vstd::prelude::*;

verus! {

/// One unit of a key: the trie addresses its nodes by sequences of symbols.
///
/// `eq_symbol` is the executable equality test the index walks with; it must
/// agree with mathematical equality on the type.
pub trait Symbol: Sized + Copy {
    fn eq_symbol(&self, other: &Self) -> (r: bool)
        ensures
            r <==> self == other,
    ;
}

impl Symbol for char {
    fn eq_symbol(&self, other: &Self) -> (r: bool) {
        *self == *other
    }
}

} // verus!
