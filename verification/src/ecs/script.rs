use vstd::prelude::*;

verus! {

/// The scripts attached to one entity, plus whether their start hook has run.
/// One entity may carry several scripts at once.
pub struct ScriptComponent<S> {
    pub scripts: Vec<S>,
    started: bool,
}

impl<S> ScriptComponent<S> {
    /// The attached scripts, in the order in which they were added.
    pub closed spec fn scripts_seq(&self) -> Seq<S> {
        self.scripts@
    }

    /// Whether the start hooks have run.
    pub closed spec fn started_spec(&self) -> bool {
        self.started
    }

    pub fn new() -> (sc: Self)
        ensures
            sc.scripts_seq() == Seq::<S>::empty(),
            !sc.started_spec(),
    {
        ScriptComponent { scripts: Vec::new(), started: false }
    }

    /// Appends a script; it runs after the ones already attached.
    pub fn add(&mut self, script: S)
        ensures
            final(self).scripts_seq() == old(self).scripts_seq().push(script),
            final(self).started_spec() == old(self).started_spec(),
    {
        self.scripts.push(script);
    }

    pub fn is_started(&self) -> (b: bool)
        ensures
            b == self.started_spec(),
    {
        self.started
    }

    /// Records that the start hooks have run; they never run again.
    pub fn mark_started(&mut self)
        ensures
            final(self).scripts_seq() == old(self).scripts_seq(),
            final(self).started_spec(),
    {
        self.started = true;
    }
}

impl<S> Default for ScriptComponent<S> {
    fn default() -> (sc: Self)
        ensures
            sc.scripts_seq() == Seq::<S>::empty(),
            !sc.started_spec(),
    {
        Self::new()
    }
}

} // verus!
