//! The pruned walk: which entries under the root are moved, and which
//! directories have to be looked into to find them.

use crate::keep::{is_protected, KeepSet};
use crate::listing::{entry_models, DirEntry, EntryModel};
use crate::path::{is_name, model_of, models, Path, PathModel};
use vstd::prelude::*;

verus! {

/// What the walk does with an entry.
#[derive(Debug, Clone, Copy, PartialEq, Eq, Structural)]
pub enum WalkAction {
    /// The entry is kept: it stays, with everything below it.
    Skip,
    /// Something below the entry is kept: the entry stays, and the walk looks
    /// into it.
    Recurse,
    /// Nothing at or below the entry is kept: it is moved as a whole.
    Yield,
}

/// Some member of `keep` lies strictly below `entry`.
pub open spec fn has_kept_descendant(entry: PathModel, keep: Set<PathModel>) -> bool {
    exists|k: PathModel| keep.contains(k) && #[trigger] k.is_below(entry)
}

/// The action for `entry` under the keep set `keep`.
pub open spec fn walk_action_of(entry: PathModel, keep: Set<PathModel>) -> WalkAction {
    if keep.contains(entry) {
        WalkAction::Skip
    } else if has_kept_descendant(entry, keep) {
        WalkAction::Recurse
    } else {
        WalkAction::Yield
    }
}

/// Decides what the walk does with `entry`.
pub fn walk_action(entry: &Path, keep: &KeepSet) -> (r: WalkAction)
    ensures
        r == walk_action_of(entry@, keep@),
{
    if keep.contains(entry) {
        WalkAction::Skip
    } else if keep.has_descendant_of(entry) {
        WalkAction::Recurse
    } else {
        WalkAction::Yield
    }
}

/// The paths of the entries of the directory `dir`.
pub open spec fn children(dir: PathModel, entries: Seq<EntryModel>) -> Seq<PathModel> {
    entries.map_values(|e: EntryModel| dir.child(e.name))
}

/// The entries of `dir` that are moved, in the order of the listing.
pub open spec fn yielded(dir: PathModel, entries: Seq<EntryModel>, keep: Set<PathModel>) -> Seq<
    PathModel,
> {
    children(dir, entries).filter(|p: PathModel| walk_action_of(p, keep) == WalkAction::Yield)
}

/// The entries of `dir` that the walk looks into: the directories with
/// something kept below them. An entry with something kept below it that is
/// no directory is left alone.
pub open spec fn descents(dir: PathModel, entries: Seq<EntryModel>, keep: Set<PathModel>) -> Seq<
    PathModel,
> {
    children(dir, entries.filter(|e: EntryModel| e.is_dir)).filter(
        |p: PathModel| walk_action_of(p, keep) == WalkAction::Recurse,
    )
}

/// The value of a walk in progress.
pub struct WalkModel {
    /// The keep set of the walk.
    pub keep: Set<PathModel>,
    /// The directory whose listing the walk waits for; `None` once the walk
    /// is over.
    pub awaiting: Option<PathModel>,
    /// The directories still to be listed after that one.
    pub pending: Seq<PathModel>,
    /// The paths found so far that are to be moved.
    pub found: Seq<PathModel>,
}

impl WalkModel {
    /// The walk of `root` before anything was listed.
    pub open spec fn start(root: PathModel, keep: Set<PathModel>) -> WalkModel {
        WalkModel { keep, awaiting: Some(root), pending: Seq::empty(), found: Seq::empty() }
    }

    /// The walk after the listing `entries` of the awaited directory came in:
    /// what is moved is added to the paths found, what is looked into to the
    /// pending directories, and the one added last is awaited next. A walk
    /// that is over stays as it is.
    pub open spec fn feed(self, entries: Seq<EntryModel>) -> WalkModel {
        match self.awaiting {
            None => self,
            Some(dir) => {
                let pending = self.pending + descents(dir, entries, self.keep);
                WalkModel {
                    keep: self.keep,
                    awaiting: if pending.len() > 0 {
                        Some(pending.last())
                    } else {
                        None
                    },
                    pending: if pending.len() > 0 {
                        pending.drop_last()
                    } else {
                        pending
                    },
                    found: self.found + yielded(dir, entries, self.keep),
                }
            },
        }
    }

    /// No path found is a member of the keep set or an ancestor of one, so
    /// that moving what was found moves nothing that is kept.
    pub open spec fn finds_nothing_kept(self) -> bool {
        forall|i: int|
            0 <= i < self.found.len() ==> walk_action_of(#[trigger] self.found[i], self.keep)
                == WalkAction::Yield
    }

    /// Nothing that the walk holds is protected: neither the paths found nor
    /// the directories listed or to be listed are members of the keep set or
    /// lie below one.
    pub open spec fn spares_kept(self) -> bool {
        &&& forall|i: int|
            0 <= i < self.found.len() ==> !is_protected(#[trigger] self.found[i], self.keep)
        &&& forall|i: int|
            0 <= i < self.pending.len() ==> !is_protected(#[trigger] self.pending[i], self.keep)
        &&& self.awaiting matches Some(dir) ==> !is_protected(dir, self.keep)
    }
}

/// A walk in progress. The caller lists the directory that `awaiting` names
/// and hands the listing to `feed`, until no directory is awaited.
#[derive(Debug)]
pub struct Walker {
    keep: KeepSet,
    awaiting: Option<Path>,
    pending: Vec<Path>,
    found: Vec<Path>,
}

impl View for Walker {
    type V = WalkModel;

    closed spec fn view(&self) -> WalkModel {
        WalkModel {
            keep: self.keep@,
            awaiting: model_of(self.awaiting),
            pending: models(self.pending@),
            found: models(self.found@),
        }
    }
}

/// One more entry in a listing adds its path to what is moved if its action
/// is to yield it.
proof fn lemma_yielded_push(
    dir: PathModel,
    entries: Seq<EntryModel>,
    e: EntryModel,
    keep: Set<PathModel>,
)
    ensures
        yielded(dir, entries.push(e), keep) == if walk_action_of(dir.child(e.name), keep)
            == WalkAction::Yield {
            yielded(dir, entries, keep).push(dir.child(e.name))
        } else {
            yielded(dir, entries, keep)
        },
{
    let pred = |p: PathModel| walk_action_of(p, keep) == WalkAction::Yield;
    assert(children(dir, entries.push(e)) == children(dir, entries).push(dir.child(e.name)));
    children(dir, entries).lemma_filter_push(dir.child(e.name), pred);
}

/// One more entry in a listing adds its path to what is looked into if it is
/// a directory and its action is to recurse.
proof fn lemma_descents_push(
    dir: PathModel,
    entries: Seq<EntryModel>,
    e: EntryModel,
    keep: Set<PathModel>,
)
    ensures
        descents(dir, entries.push(e), keep) == if e.is_dir && walk_action_of(
            dir.child(e.name),
            keep,
        ) == WalkAction::Recurse {
            descents(dir, entries, keep).push(dir.child(e.name))
        } else {
            descents(dir, entries, keep)
        },
{
    let is_dir = |e: EntryModel| e.is_dir;
    let pred = |p: PathModel| walk_action_of(p, keep) == WalkAction::Recurse;
    entries.lemma_filter_push(e, is_dir);
    if e.is_dir {
        let dirs = entries.filter(is_dir);
        assert(children(dir, dirs.push(e)) == children(dir, dirs).push(dir.child(e.name)));
        children(dir, dirs).lemma_filter_push(dir.child(e.name), pred);
    }
}

/// Starts the walk of `root` under the keep set `keep`.
pub fn walk(root: &Path, keep: &KeepSet) -> (r: Walker)
    ensures
        r@ == WalkModel::start(root@, keep@),
        r@.finds_nothing_kept(),
        !is_protected(root@, keep@) ==> r@.spares_kept(),
{
    let r = Walker {
        keep: keep.clone(),
        awaiting: Some(root.clone()),
        pending: Vec::new(),
        found: Vec::new(),
    };
    assert(r@.pending =~= Seq::<PathModel>::empty());
    r
}

impl Walker {
    /// The directory to list next; `None` when the walk is over.
    pub fn awaiting(&self) -> (r: Option<Path>)
        ensures
            model_of(r) == self@.awaiting,
    {
        match &self.awaiting {
            Some(dir) => Some(dir.clone()),
            None => None,
        }
    }

    /// Takes in the listing of the awaited directory.
    pub fn feed(&mut self, entries: &Vec<DirEntry>)
        ensures
            final(self)@ == old(self)@.feed(entry_models(entries@)),
            old(self)@.finds_nothing_kept() ==> final(self)@.finds_nothing_kept(),
            old(self)@.spares_kept() ==> final(self)@.spares_kept(),
    {
        let ghost before = self@;
        let ghost listing = entry_models(entries@);
        let mut awaiting: Option<Path> = None;
        core::mem::swap(&mut awaiting, &mut self.awaiting);
        match awaiting {
            None => {},
            Some(dir) => {
                let mut i: usize = 0;
                proof {
                    reveal(Seq::filter);
                }
                while i < entries.len()
                    invariant
                        i <= entries.len(),
                        listing == entry_models(entries@),
                        self.keep@ == before.keep,
                        self.awaiting is None,
                        models(self.found@) == before.found + yielded(
                            dir@,
                            listing.take(i as int),
                            before.keep,
                        ),
                        models(self.pending@) == before.pending + descents(
                            dir@,
                            listing.take(i as int),
                            before.keep,
                        ),
                    decreases entries.len() - i,
                {
                    let entry = &entries[i];
                    let child = dir.child(entry.name());
                    proof {
                        assert(listing.take(i + 1) == listing.take(i as int).push(entry@));
                        lemma_yielded_push(dir@, listing.take(i as int), entry@, before.keep);
                        lemma_descents_push(dir@, listing.take(i as int), entry@, before.keep);
                    }
                    let ghost found = models(self.found@);
                    let ghost pending = models(self.pending@);
                    match walk_action(&child, &self.keep) {
                        WalkAction::Yield => {
                            self.found.push(child);
                            assert(models(self.found@) == found.push(child@));
                        },
                        WalkAction::Recurse => {
                            if entry.is_dir() {
                                self.pending.push(child);
                                assert(models(self.pending@) == pending.push(child@));
                            }
                        },
                        WalkAction::Skip => {},
                    }
                    i += 1;
                }
                assert(listing.take(entries.len() as int) == listing);
                let ghost pending = models(self.pending@);
                self.awaiting = self.pending.pop();
                assert(models(self.pending@) == if pending.len() > 0 {
                    pending.drop_last()
                } else {
                    pending
                });
            },
        }
        proof {
            if before.finds_nothing_kept() {
                lemma_feed_finds_nothing_kept(before, listing);
            }
            if before.spares_kept() {
                lemma_feed_spares_kept(before, listing);
            }
        }
    }

    /// Whether the walk is over.
    pub fn is_done(&self) -> (r: bool)
        ensures
            r == self@.awaiting.is_none(),
    {
        self.awaiting.is_none()
    }

    /// The paths found so far that are to be moved.
    pub fn found(&self) -> (r: &Vec<Path>)
        ensures
            models(r@) == self@.found,
    {
        &self.found
    }
}

/// A listing adds neither a member of the keep set nor an ancestor of one to
/// the paths found.
pub proof fn lemma_feed_finds_nothing_kept(walk: WalkModel, entries: Seq<EntryModel>)
    requires
        walk.finds_nothing_kept(),
    ensures
        walk.feed(entries).finds_nothing_kept(),
{
    if let Some(dir) = walk.awaiting {
        let pred = |p: PathModel| walk_action_of(p, walk.keep) == WalkAction::Yield;
        let more = yielded(dir, entries, walk.keep);
        let after = walk.feed(entries);
        assert forall|i: int| 0 <= i < after.found.len() implies walk_action_of(
            #[trigger] after.found[i],
            walk.keep,
        ) == WalkAction::Yield by {
            if i >= walk.found.len() {
                let j = i - walk.found.len();
                children(dir, entries).lemma_filter_pred(pred, j);
            }
        }
    }
}

/// The path of an entry is protected only if it is a member of the keep set
/// or the directory that holds it is protected.
proof fn lemma_child_protection(dir: PathModel, name: Seq<char>, keep: Set<PathModel>)
    requires
        is_protected(dir.child(name), keep),
    ensures
        keep.contains(dir.child(name)) || is_protected(dir, keep),
{
    let child = dir.child(name);
    let k = choose|k: PathModel| keep.contains(k) && #[trigger] child.starts_with(k);
    if k != child {
        assert(k.parts.len() <= dir.parts.len()) by {
            if k.parts.len() > dir.parts.len() {
                assert(k.parts =~= child.parts);
            }
        }
        assert(dir.starts_with(k));
    }
}

/// Whole-subtree protection: if nothing that a walk holds is protected, then
/// that is so after the next listing too. A walk that starts at a root which
/// is not protected therefore never finds a member of the keep set, nor
/// anything below one.
pub proof fn lemma_feed_spares_kept(walk: WalkModel, entries: Seq<EntryModel>)
    requires
        walk.spares_kept(),
    ensures
        walk.feed(entries).spares_kept(),
{
    if let Some(dir) = walk.awaiting {
        let keep = walk.keep;
        let after = walk.feed(entries);
        let moved = |p: PathModel| walk_action_of(p, keep) == WalkAction::Yield;
        let entered = |p: PathModel| walk_action_of(p, keep) == WalkAction::Recurse;
        let is_dir = |e: EntryModel| e.is_dir;
        let more = yielded(dir, entries, keep);
        let deeper = descents(dir, entries, keep);
        assert forall|j: int| 0 <= j < more.len() implies !is_protected(#[trigger] more[j], keep) by {
            children(dir, entries).lemma_filter_pred(moved, j);
            children(dir, entries).lemma_filter_contains_rev(moved, more[j]);
            let n = choose|n: int|
                0 <= n < entries.len() && children(dir, entries)[n] == more[j];
            if is_protected(more[j], keep) {
                lemma_child_protection(dir, entries[n].name, keep);
            }
        }
        assert forall|j: int| 0 <= j < deeper.len() implies !is_protected(
            #[trigger] deeper[j],
            keep,
        ) by {
            let dirs = entries.filter(is_dir);
            children(dir, dirs).lemma_filter_pred(entered, j);
            children(dir, dirs).lemma_filter_contains_rev(entered, deeper[j]);
            let n = choose|n: int| 0 <= n < dirs.len() && children(dir, dirs)[n] == deeper[j];
            if is_protected(deeper[j], keep) {
                lemma_child_protection(dir, dirs[n].name, keep);
            }
        }
        let pending = walk.pending + deeper;
        assert forall|i: int| 0 <= i < pending.len() implies !is_protected(
            #[trigger] pending[i],
            keep,
        ) by {
            if i >= walk.pending.len() {
                assert(pending[i] == deeper[i - walk.pending.len()]);
            }
        }
        assert forall|i: int| 0 <= i < after.found.len() implies !is_protected(
            #[trigger] after.found[i],
            keep,
        ) by {
            if i >= walk.found.len() {
                assert(after.found[i] == more[i - walk.found.len()]);
            }
        }
        assert forall|i: int| 0 <= i < after.pending.len() implies !is_protected(
            #[trigger] after.pending[i],
            keep,
        ) by {
            assert(after.pending[i] == pending[i]);
        }
    }
}

/// Under a protected directory nothing escapes protection: whatever the walk
/// finds in a directory that is a member of the keep set or lies below one,
/// lies below that member too. So a walk must not start at a protected root.
pub proof fn lemma_protected_directory_yields_protected(
    dir: PathModel,
    entries: Seq<EntryModel>,
    keep: Set<PathModel>,
)
    requires
        is_protected(dir, keep),
    ensures
        forall|j: int|
            0 <= j < yielded(dir, entries, keep).len() ==> is_protected(
                #[trigger] yielded(dir, entries, keep)[j],
                keep,
            ),
{
    let moved = |p: PathModel| walk_action_of(p, keep) == WalkAction::Yield;
    let more = yielded(dir, entries, keep);
    let k = choose|k: PathModel| keep.contains(k) && #[trigger] dir.starts_with(k);
    assert forall|j: int| 0 <= j < more.len() implies is_protected(#[trigger] more[j], keep) by {
        children(dir, entries).lemma_filter_contains_rev(moved, more[j]);
        let n = choose|n: int| 0 <= n < entries.len() && children(dir, entries)[n] == more[j];
        assert(more[j] == dir.child(entries[n].name));
        assert(k.parts.is_prefix_of(dir.parts.push(entries[n].name)));
        assert(more[j].starts_with(k));
    }
}

/// A walk that starts at a root which is not protected holds nothing
/// protected.
pub proof fn lemma_start_spares_kept(root: PathModel, keep: Set<PathModel>)
    requires
        !is_protected(root, keep),
    ensures
        WalkModel::start(root, keep).spares_kept(),
        WalkModel::start(root, keep).finds_nothing_kept(),
{
}

} // verus!
