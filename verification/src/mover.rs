//! The moves of a run: where each path found by the walk goes, and which
//! directories have to be there before it can go.

use crate::generation::{find_target_path_number, generation_name, generation_name_of,
    latest_generation};
use crate::keep::{rebase, rebase_under};
use crate::listing::{entry_models, DirEntry, EntryModel};
use crate::path::{model_of, models, Path, PathModel};
use crate::rebase::{root_path_to_target_path, target_path_to_root_path, to_destination, to_source};
use vstd::prelude::*;

verus! {

/// The permission bits of a created directory whose source directory cannot
/// be asked: all rights for the owner, none for anyone else.
pub const FALLBACK_MODE: u32 = 0o700;

/// The value of a directory to create.
pub struct ParentModel {
    pub target: PathModel,
    pub source: Option<PathModel>,
}

/// A directory on the way to a destination, and the directory under the root
/// that it mirrors, if it mirrors one.
#[derive(Debug)]
pub struct ParentDir {
    pub target: Path,
    pub source: Option<Path>,
}

impl View for ParentDir {
    type V = ParentModel;

    open spec fn view(&self) -> ParentModel {
        ParentModel { target: self.target@, source: model_of(self.source) }
    }
}

/// The values of a list of directories to create.
pub open spec fn parent_models(parents: Seq<ParentDir>) -> Seq<ParentModel> {
    parents.map_values(|p: ParentDir| p@)
}

/// The ancestors of the destination of `path`, from the outermost down to
/// the directory that will hold the destination, each with the directory
/// under `root` that it mirrors.
pub open spec fn target_parents(root: PathModel, target: PathModel, path: PathModel) -> Seq<
    ParentModel,
> {
    match to_destination(root, target, path).parent() {
        Some(dir) => Seq::new(
            dir.parts.len() + 1,
            |i: int|
                ParentModel {
                    target: dir.truncate(i),
                    source: to_source(root, target, dir.truncate(i)),
                },
        ),
        None => Seq::empty(),
    }
}

/// The permission bits with which a directory on the way is created: `None`
/// if it exists, the bits of the source directory if it mirrors one whose
/// bits could be read, and the fallback bits otherwise.
pub open spec fn creation_mode_of(parent: ParentModel, exists: bool, source_mode: Option<u32>)
    -> Option<u32> {
    if exists {
        None
    } else if parent.source.is_some() && source_mode.is_some() {
        source_mode
    } else {
        Some(FALLBACK_MODE)
    }
}

impl ParentDir {
    /// Decides whether the directory is created, and with which permission
    /// bits. `exists` says whether it is there already, `source_mode` holds
    /// the permission bits of the source directory if they could be read.
    pub fn creation_mode(&self, exists: bool, source_mode: Option<u32>) -> (r: Option<u32>)
        ensures
            r == creation_mode_of(self@, exists, source_mode),
    {
        if exists {
            None
        } else if self.source.is_some() && source_mode.is_some() {
            source_mode
        } else {
            Some(FALLBACK_MODE)
        }
    }
}

/// Lists the directories that have to exist before `path` can be moved to
/// its destination under `target`, the outermost first.
pub fn create_target_parents(root: &Path, target: &Path, path: &Path) -> (r: Vec<ParentDir>)
    ensures
        parent_models(r@) == target_parents(root@, target@, path@),
{
    let to = root_path_to_target_path(root, target, path);
    let mut out: Vec<ParentDir> = Vec::new();
    match to.parent() {
        None => {},
        Some(dir) => {
            let n = dir.depth();
            let mut i: usize = 0;
            while i < n
                invariant
                    i <= n,
                    n == dir@.parts.len(),
                    out.len() == i,
                    forall|k: int|
                        0 <= k < i ==> (#[trigger] out[k])@ == (ParentModel {
                            target: dir@.truncate(k),
                            source: to_source(root@, target@, dir@.truncate(k)),
                        }),
                decreases n - i,
            {
                let step = dir.truncate(i);
                let source = target_path_to_root_path(root, target, &step);
                out.push(ParentDir { target: step, source });
                i += 1;
            }
            assert(dir@.truncate(n as int) == dir@) by {
                assert(dir@.parts.take(n as int) == dir@.parts);
            }
            let source = target_path_to_root_path(root, target, &dir);
            out.push(ParentDir { target: dir, source });
        },
    }
    out
}

/// The value of a move.
pub struct RelocationModel {
    pub from: PathModel,
    pub to: PathModel,
    pub parents: Seq<ParentModel>,
}

/// One move: the path to move, where it goes, and the directories that have
/// to exist before it can go there, the outermost first.
#[derive(Debug)]
pub struct Relocation {
    pub from: Path,
    pub to: Path,
    pub parents: Vec<ParentDir>,
}

impl View for Relocation {
    type V = RelocationModel;

    open spec fn view(&self) -> RelocationModel {
        RelocationModel { from: self.from@, to: self.to@, parents: parent_models(self.parents@) }
    }
}

/// The values of a list of moves.
pub open spec fn relocation_models(moves: Seq<Relocation>) -> Seq<RelocationModel> {
    moves.map_values(|m: Relocation| m@)
}

/// The move of `path` into the generation directory `generation`.
pub open spec fn relocation_of(root: PathModel, generation: PathModel, path: PathModel)
    -> RelocationModel {
    RelocationModel {
        from: path,
        to: to_destination(root, generation, path),
        parents: target_parents(root, generation, path),
    }
}

/// The moves of `paths` into the generation directory `generation`.
pub open spec fn relocations(root: PathModel, generation: PathModel, paths: Seq<PathModel>) -> Seq<
    RelocationModel,
> {
    paths.map_values(|p: PathModel| relocation_of(root, generation, p))
}

/// The directory of the next generation: the target moved under the root,
/// and in it the name of the generation after the latest one among
/// `entries`.
pub open spec fn generation_directory_of(
    root: PathModel,
    target: PathModel,
    entries: Seq<EntryModel>,
) -> PathModel {
    rebase(root, target).child(generation_name_of(latest_generation(entries) + 1))
}

/// The directory into which this run moves what it finds. `entries` is the
/// listing of the target directory under `root`. There is no such directory
/// if the number of the next generation does not fit the machine word.
pub fn generation_directory(root: &Path, target: &Path, entries: &Vec<DirEntry>) -> (r: Option<
    Path,
>)
    ensures
        model_of(r) == if latest_generation(entry_models(entries@)) < usize::MAX {
            Some(generation_directory_of(root@, target@, entry_models(entries@)))
        } else {
            None
        },
{
    match find_target_path_number(entries) {
        Some(number) => {
            let name = generation_name(number);
            Some(rebase_under(root, target).child(name.as_str()))
        },
        None => None,
    }
}

/// Plans the moves of a run: every path in `found` goes to its place in the
/// directory of the next generation. `entries` is the listing of the target
/// directory under `root`. Nothing is planned if the number of the next
/// generation does not fit the machine word.
pub fn move_dirty(root: &Path, target: &Path, entries: &Vec<DirEntry>, found: &Vec<Path>) -> (r:
    Option<Vec<Relocation>>)
    ensures
        r.is_some() == (latest_generation(entry_models(entries@)) < usize::MAX),
        r matches Some(moves) ==> relocation_models(moves@) == relocations(
            root@,
            generation_directory_of(root@, target@, entry_models(entries@)),
            models(found@),
        ),
{
    let generation = match generation_directory(root, target, entries) {
        Some(dir) => dir,
        None => {
            return None;
        },
    };
    let mut moves: Vec<Relocation> = Vec::new();
    let mut i: usize = 0;
    while i < found.len()
        invariant
            i <= found.len(),
            moves.len() == i,
            forall|k: int|
                0 <= k < i ==> (#[trigger] moves[k])@ == relocation_of(
                    root@,
                    generation@,
                    found[k]@,
                ),
        decreases found.len() - i,
    {
        let to = root_path_to_target_path(root, &generation, &found[i]);
        let parents = create_target_parents(root, &generation, &found[i]);
        moves.push(Relocation { from: found[i].clone(), to, parents });
        i += 1;
    }
    Some(moves)
}

} // verus!
