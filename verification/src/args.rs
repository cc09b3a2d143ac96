//! The program's arguments.
use vstd::prelude::*;

verus! {

/// What the program is started with: the directory of the scene to show.
#[derive(Clone, Debug)]
pub struct EruptraceArgs {
    scene_path: String,
}

impl EruptraceArgs {
    /// The path of the scene directory.
    pub closed spec fn path(&self) -> Seq<char> {
        self.scene_path@
    }

    /// The arguments for the scene directory `scene_path`.
    pub fn new(scene_path: String) -> (args: EruptraceArgs)
        ensures
            args.path() == scene_path@,
    {
        EruptraceArgs { scene_path }
    }

    /// The path of the scene directory.
    pub fn scene_path(&self) -> (p: &str)
        ensures
            p@ == self.path(),
    {
        self.scene_path.as_str()
    }
}

} // verus!
