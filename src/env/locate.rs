//! Finding the project's `.env` file: the walk upward from a starting
//! directory, decided over what is known of each directory on the way.
use vstd::prelude::*;

verus! {

/// Name of the secrets file.
pub const ENV_FILENAME: &'static str = ".env";

/// Name of the version-control marker that bounds a project.
pub const VCS_MARKER: &'static str = ".git";

/// What is known of one directory on the walk upward.
#[derive(Debug, Clone, Copy, PartialEq, Eq, Structural)]
pub struct DirProbe {
    /// The directory holds the secrets file.
    pub has_env_file: bool,
    /// The directory holds the version-control marker.
    pub has_vcs_marker: bool,
    /// The directory is the user's home directory.
    pub is_home: bool,
}

/// Where the walk over `chain` (the start, then each parent up to the root)
/// finds the file, looking from position `i` on: the first directory that
/// holds it, unless a directory before it holds the marker or is home.
pub open spec fn located_from(chain: Seq<DirProbe>, i: int) -> Option<int>
    decreases chain.len() - i,
{
    if i < 0 || i >= chain.len() {
        None
    } else if chain[i].has_env_file {
        Some(i)
    } else if chain[i].has_vcs_marker || chain[i].is_home {
        None
    } else {
        located_from(chain, i + 1)
    }
}

/// Position in `chain` of the directory whose secrets file is used: the walk
/// stops at the first directory that holds the file, and gives up at a
/// directory with the version-control marker, at home, or past the root.
pub fn find_env_file(chain: &Vec<DirProbe>) -> (r: Option<usize>)
    ensures
        match r {
            Some(i) => located_from(chain@, 0) == Some(i as int),
            None => located_from(chain@, 0) is None,
        },
{
    let mut i: usize = 0;
    while i < chain.len()
        invariant
            i <= chain@.len(),
            located_from(chain@, 0) == located_from(chain@, i as int),
        decreases chain@.len() - i,
    {
        let p = chain[i];
        if p.has_env_file {
            return Some(i);
        }
        if p.has_vcs_marker || p.is_home {
            return None;
        }
        i = i + 1;
    }
    None
}

/// The file found is in a directory that holds it, and every directory
/// passed on the way is inside the project and not home.
pub proof fn lemma_found_within_project(chain: Seq<DirProbe>, i: int, j: int)
    requires
        located_from(chain, i) == Some(j),
        0 <= i,
    ensures
        i <= j < chain.len(),
        chain[j].has_env_file,
        forall|k: int| i <= k < j ==> !(#[trigger] chain[k]).has_vcs_marker && !chain[k].is_home
            && !chain[k].has_env_file,
    decreases chain.len() - i,
{
    if !chain[i].has_env_file {
        lemma_found_within_project(chain, i + 1, j);
    }
}

} // verus!
