//! The values that travel through the comparison pipeline.
use vstd::prelude::*;

verus! {

/// Which of the two compared roots an item comes from.
#[derive(Clone, Copy, PartialEq, Eq, Structural, Debug)]
pub enum DirSide {
    Left,
    Right,
}

/// The name of a side, as it appears in the result files.
pub open spec fn side_name(s: DirSide) -> Seq<char> {
    match s {
        DirSide::Left => "left"@,
        DirSide::Right => "right"@,
    }
}

impl DirSide {
    /// The name of the side: `left` or `right`.
    pub fn as_str(&self) -> (r: &'static str)
        ensures
            r@ == side_name(*self),
            vstd::string::is_ascii(r),
    {
        match self {
            DirSide::Left => {
                proof {
                    reveal_strlit("left");
                }
                "left"
            },
            DirSide::Right => {
                proof {
                    reveal_strlit("right");
                }
                "right"
            },
        }
    }

    /// The other side.
    pub fn other(&self) -> (r: DirSide)
        ensures
            r != *self,
    {
        match self {
            DirSide::Left => DirSide::Right,
            DirSide::Right => DirSide::Left,
        }
    }
}

/// A file to hash: its side and its path, as a sequence of path components
/// (each the component's bytes), starting with the side's root.
pub struct HashTask {
    pub side: DirSide,
    pub path: Vec<Vec<u8>>,
}

/// The digest of one file, as produced by a hashing worker.
pub struct HashResult {
    pub side: DirSide,
    pub path: Vec<Vec<u8>>,
    pub hash: Vec<u8>,
}

/// An element of the job stream read by the hashing workers: a file to
/// hash, or the marker that tells one worker that no more files will come.
pub enum Job {
    Task(HashTask),
    End,
}

/// An element of the result stream read by the merger: a digest, or the
/// marker with which one worker announces that it has finished.
pub enum WorkerEvent {
    Record(HashResult),
    WorkerDone,
}

} // verus!
