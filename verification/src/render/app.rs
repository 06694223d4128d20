use vstd::prelude::*;

verus! {

broadcast use vstd::string::group_string_axioms;

/// Window settings for starting the engine.
pub struct AppConfig {
    pub title: String,
    pub width: u32,
    pub height: u32,
}

impl Default for AppConfig {
    /// A 1280×720 window titled "Brass Engine".
    fn default() -> (c: Self)
        ensures
            c.title@ == "Brass Engine"@,
            c.width == 1280,
            c.height == 720,
    {
        AppConfig { title: "Brass Engine".to_string(), width: 1280, height: 720 }
    }
}

} // verus!
