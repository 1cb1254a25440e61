//! A planning data model and its constructors: planned directories and
//! copies, the direction, manifests and planners. `plan2` and `plan3` do
//! the planning.

use vstd::prelude::*;

use crate::manifest::ManifestFile;

verus! {

/// A planned directory: the destination prefix and the items under it.
#[derive(Debug, PartialEq)]
pub struct Dir {
    pub dst: String,
    pub items: Vec<Item>,
}

/// A planned copy from `src` to `dst`.
#[derive(Debug, PartialEq)]
pub struct Leaf {
    pub src: String,
    pub dst: String,
}

/// A planned item.
#[derive(Debug, PartialEq)]
pub enum Item {
    Dir(Dir),
    Leaf(Leaf),
}

/// Which way copies go.
#[derive(Clone, Copy, Debug, PartialEq, Eq, Structural)]
pub enum Direction {
    Put,
    Get,
}

/// A parsed manifest and where it was found.
pub struct Manifest {
    location: String,
    file: ManifestFile,
}

impl Manifest {
    pub closed spec fn location(self) -> Seq<char> {
        self.location@
    }

    pub closed spec fn file(self) -> ManifestFile {
        self.file
    }

    pub fn new(location: &str, file: ManifestFile) -> (manifest: Self)
        ensures
            manifest.location() == location@,
            manifest.file() == file,
    {
        Manifest { location: String::from_str(location), file }
    }
}

/// A planner for one direction.
pub struct Planner {
    direction: Direction,
}

impl Planner {
    pub closed spec fn direction(self) -> Direction {
        self.direction
    }

    pub fn new(direction: Direction) -> (planner: Self)
        ensures
            planner.direction() == direction,
    {
        Planner { direction }
    }
}

} // verus!
