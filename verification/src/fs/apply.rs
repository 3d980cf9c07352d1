//! Where under a destination a change may land.

use crate::error::ApplyError;
use crate::path::SyncPath;
use vstd::prelude::*;

verus! {

/// Whether a relative path could lead out of the directory that it is taken from.
pub open spec fn escapes(relative_path: Seq<crate::path::Name>) -> bool {
    crate::path::is_absolute_path(relative_path) || crate::path::climbs(relative_path)
}

/// The path that `relative_path` names under `root`. A path that is absolute or
/// climbs is refused.
pub fn validate_destination(root: &SyncPath, relative_path: &SyncPath) -> (path: Result<
    SyncPath,
    ApplyError,
>)
    ensures
        if escapes(relative_path@) {
            path matches Err(ApplyError::PathEscape { path: refused }) && refused@
                == relative_path@
        } else {
            path matches Ok(found) && found@ == crate::path::joined(root@, relative_path@)
        },
{
    if relative_path.is_absolute() || relative_path.has_parent_component() {
        return Err(ApplyError::PathEscape { path: relative_path.clone() });
    }
    Ok(root.join(relative_path))
}

/// A path that is not refused stays under the root: it begins with the root, and
/// goes on without climbing.
pub proof fn lemma_validated_paths_stay_inside(
    root: Seq<crate::path::Name>,
    relative_path: Seq<crate::path::Name>,
)
    requires
        !escapes(relative_path),
    ensures
        ({
            let path = crate::path::joined(root, relative_path);
            &&& crate::path::begins_with(path, root)
            &&& !crate::path::climbs(path.skip(root.len() as int))
        }),
{
    let path = crate::path::joined(root, relative_path);
    let rest = path.skip(root.len() as int);
    assert(path.take(root.len() as int) =~= root);
    assert forall|i: int| 0 <= i < rest.len() implies #[trigger] rest[i]
        != crate::path::Name::ParentDir by {
        if path =~= root + relative_path {
            assert(rest[i] == relative_path[i]);
        } else {
            assert(rest[i] == relative_path[i + 1]);
        }
    }
}

/// Only a path that is absolute, or has a `..` part, is refused.
pub proof fn lemma_only_escaping_paths_are_refused(relative_path: Seq<crate::path::Name>)
    ensures
        escapes(relative_path) <==> (relative_path.len() > 0 && relative_path[0]
            == crate::path::Name::RootDir) || relative_path.contains(crate::path::Name::ParentDir),
{
    if crate::path::climbs(relative_path) {
        let i = choose|i: int|
            0 <= i < relative_path.len() && #[trigger] relative_path[i]
                == crate::path::Name::ParentDir;
        assert(relative_path[i] == crate::path::Name::ParentDir);
    }
}

} // verus!
