//! The mapping between a path under the root and its place under a
//! destination directory.

use crate::path::{model_of, Path, PathModel};
use vstd::prelude::*;

verus! {

/// Where `path` goes when the tree under `root` is mirrored under `target`:
/// the leading `root` is taken off and the rest is joined onto `target`. A
/// path that does not start with `root` is joined as it is.
pub open spec fn to_destination(root: PathModel, target: PathModel, path: PathModel) -> PathModel {
    match path.strip_prefix(root) {
        Some(rest) => target.join(rest),
        None => target.join(path),
    }
}

/// Where `path`, a path under `target`, came from: the leading `target` is
/// taken off and the rest is joined onto `root`. There is no such place for a
/// path that does not start with `target`.
pub open spec fn to_source(root: PathModel, target: PathModel, path: PathModel) -> Option<
    PathModel,
> {
    match path.strip_prefix(target) {
        Some(rest) => Some(root.join(rest)),
        None => None,
    }
}

/// The place of `path` under `target`.
pub fn root_path_to_target_path(root: &Path, target: &Path, path: &Path) -> (r: Path)
    ensures
        r@ == to_destination(root@, target@, path@),
{
    match path.strip_prefix(root) {
        Some(rest) => target.join(&rest),
        None => target.join(path),
    }
}

/// The place under `root` that `path`, a path under `target`, stands for.
pub fn target_path_to_root_path(root: &Path, target: &Path, path: &Path) -> (r: Option<Path>)
    ensures
        model_of(r) == to_source(root@, target@, path@),
{
    match path.strip_prefix(target) {
        Some(rest) => Some(root.join(&rest)),
        None => None,
    }
}

/// Mapping a path under `root` to its destination and back gives the path
/// again.
pub proof fn lemma_source_of_destination(root: PathModel, target: PathModel, path: PathModel)
    requires
        path.starts_with(root),
    ensures
        to_source(root, target, to_destination(root, target, path)) == Some(path),
{
    let rest = path.parts.skip(root.parts.len() as int);
    let there = to_destination(root, target, path);
    assert(there.parts.skip(target.parts.len() as int) == rest);
    assert(root.parts + rest == path.parts);
}

/// Mapping a path under `target` to its source and on to its destination
/// gives the path again.
pub proof fn lemma_destination_of_source(root: PathModel, target: PathModel, path: PathModel)
    requires
        path.starts_with(target),
    ensures
        to_source(root, target, path) matches Some(source) && to_destination(root, target, source)
            == path,
{
    let rest = path.parts.skip(target.parts.len() as int);
    let source = root.join(PathModel::relative(rest));
    assert(source.parts.skip(root.parts.len() as int) == rest);
    assert(target.parts + rest == path.parts);
}

} // verus!
