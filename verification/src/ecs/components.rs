use vstd::prelude::*;

verus! {

broadcast use vstd::string::group_string_axioms;

/// A plain string label used to look entities up ("player", "enemy", "wall").
pub struct Tag(pub String);

impl Tag {
    /// Builds a tag holding a copy of `s`.
    pub fn new(s: &str) -> (t: Self)
        ensures
            t.0@ == s@,
    {
        Tag(s.to_string())
    }
}

} // verus!
