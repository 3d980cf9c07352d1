//! Files under paths that cannot leave their root.

use crate::path::SyncPath;
use vstd::prelude::*;

verus! {

/// A path that stays inside the directory that it is taken from.
#[derive(Debug, PartialEq, Eq, Hash)]
pub struct RelativePath(SyncPath);

impl View for RelativePath {
    type V = Seq<crate::path::Name>;

    closed spec fn view(&self) -> Seq<crate::path::Name> {
        self.0@
    }
}

impl RelativePath {
    #[verifier::type_invariant]
    spec fn stays_inside(self) -> bool {
        !crate::fs::apply::escapes(self.0@)
    }

    /// The relative path `path`, unless it is absolute or climbs.
    pub fn new(path: SyncPath) -> (relative: Option<Self>)
        ensures
            if crate::fs::apply::escapes(path@) {
                relative is None
            } else {
                relative matches Some(found) && found@ == path@
            },
    {
        if path.is_absolute() || path.has_parent_component() {
            return None;
        }
        Some(RelativePath(path))
    }

    pub fn as_path(&self) -> (path: &SyncPath)
        ensures
            path@ == self@,
            !crate::fs::apply::escapes(path@),
    {
        proof {
            use_type_invariant(self);
        }
        &self.0
    }
}

impl Clone for RelativePath {
    fn clone(&self) -> (copy: Self)
        ensures
            copy@ == self@,
    {
        proof {
            use_type_invariant(self);
        }
        RelativePath(self.0.clone())
    }
}

/// What is known of a file.
#[derive(Debug, Clone, Copy, PartialEq, Eq)]
pub struct FileMetadata {
    pub len: u64,
    pub modified_unix_secs: Option<u64>,
    pub permissions: Option<u32>,
}

/// A file and where it stands.
#[derive(Debug, Clone, PartialEq, Eq)]
pub struct FileEntry {
    pub path: RelativePath,
    pub metadata: FileMetadata,
}

/// The files under a root.
#[derive(Debug, Clone, PartialEq, Eq)]
pub struct Manifest {
    pub entries: Vec<FileEntry>,
}

impl Default for Manifest {
    fn default() -> (manifest: Self)
        ensures
            manifest.entries@ == Seq::<FileEntry>::empty(),
    {
        Manifest { entries: Vec::new() }
    }
}

} // verus!
