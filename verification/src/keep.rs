//! The keep set: the paths that must stay where they are.

use crate::path::{models, Path, PathModel};
use vstd::prelude::*;

verus! {

/// `entry` moved under `root`: its leading separator is dropped and its
/// components are appended to those of `root`.
pub open spec fn rebase(root: PathModel, entry: PathModel) -> PathModel {
    root.join(PathModel::relative(entry.parts))
}

/// Every entry of `entries` moved under `root`.
pub open spec fn rebased(root: PathModel, entries: Set<PathModel>) -> Set<PathModel> {
    entries.map(|e: PathModel| rebase(root, e))
}

/// The mount points that lie strictly below `root`.
pub open spec fn mounts_below(root: PathModel, mounts: Set<PathModel>) -> Set<PathModel> {
    mounts.filter(|m: PathModel| m.is_below(root))
}

/// Everything that asks for protection: the keep list and the target, both
/// moved under the root, and the mount points strictly below the root.
pub open spec fn keep_candidates(
    root: PathModel,
    target: PathModel,
    mounts: Set<PathModel>,
    keep: Set<PathModel>,
) -> Set<PathModel> {
    rebased(root, keep.insert(target)) + mounts_below(root, mounts)
}

/// Some other member of `set` is an ancestor of `p`, so that `p` is protected
/// without being listed.
pub open spec fn is_redundant(p: PathModel, set: Set<PathModel>) -> bool {
    exists|q: PathModel| set.contains(q) && #[trigger] p.is_below(q)
}

/// The members of `part` that lie below no member of `whole`.
pub open spec fn irredundant(part: Set<PathModel>, whole: Set<PathModel>) -> Set<PathModel> {
    part.filter(|p: PathModel| !is_redundant(p, whole))
}

/// The members of `set` that lie below no other member.
pub open spec fn minimal_cover(set: Set<PathModel>) -> Set<PathModel> {
    irredundant(set, set)
}

/// No member lies below another.
pub open spec fn is_antichain(set: Set<PathModel>) -> bool {
    forall|a: PathModel, b: PathModel|
        set.contains(a) && set.contains(b) && a != b ==> !#[trigger] a.starts_with(b)
}

/// `p` is a member of `set` or lies below one.
pub open spec fn is_protected(p: PathModel, set: Set<PathModel>) -> bool {
    exists|k: PathModel| set.contains(k) && #[trigger] p.starts_with(k)
}

/// A set of paths.
#[derive(Debug)]
pub struct KeepSet {
    paths: Vec<Path>,
}

impl View for KeepSet {
    type V = Set<PathModel>;

    closed spec fn view(&self) -> Set<PathModel> {
        models(self.paths@).to_set()
    }
}

impl KeepSet {
    #[verifier::type_invariant]
    spec fn inv(&self) -> bool {
        models(self.paths@).no_duplicates()
    }

    /// The empty set.
    pub fn new() -> (r: KeepSet)
        ensures
            r@ == Set::<PathModel>::empty(),
    {
        KeepSet { paths: Vec::new() }
    }

    /// Whether `path` is a member.
    pub fn contains(&self, path: &Path) -> (r: bool)
        ensures
            r == self@.contains(path@),
    {
        let mut i: usize = 0;
        while i < self.paths.len()
            invariant
                i <= self.paths.len(),
                forall|k: int| 0 <= k < i ==> models(self.paths@)[k] != path@,
            decreases self.paths.len() - i,
        {
            if self.paths[i] == *path {
                assert(models(self.paths@)[i as int] == path@);
                return true;
            }
            i += 1;
        }
        false
    }

    /// Adds `path`; returns whether it was new.
    pub fn insert(&mut self, path: Path) -> (r: bool)
        ensures
            final(self)@ == old(self)@.insert(path@),
            r == !old(self)@.contains(path@),
    {
        if self.contains(&path) {
            false
        } else {
            proof {
                use_type_invariant(&*self);
                models(self.paths@).lemma_push_to_set_commute(path@);
                assert(models(self.paths@.push(path)) == models(self.paths@).push(path@));
            }
            let mut paths: Vec<Path> = Vec::new();
            core::mem::swap(&mut paths, &mut self.paths);
            paths.push(path);
            core::mem::swap(&mut paths, &mut self.paths);
            true
        }
    }

    /// The set of the paths in `paths`.
    pub fn from_paths(paths: Vec<Path>) -> (r: KeepSet)
        ensures
            r@ == models(paths@).to_set(),
    {
        let mut set = KeepSet::new();
        let mut i: usize = 0;
        while i < paths.len()
            invariant
                i <= paths.len(),
                set@ == models(paths@).take(i as int).to_set(),
            decreases paths.len() - i,
        {
            proof {
                let before = models(paths@).take(i as int);
                before.lemma_push_to_set_commute(paths[i as int]@);
                assert(models(paths@).take(i + 1) == before.push(paths[i as int]@));
            }
            set.insert(paths[i].clone());
            i += 1;
        }
        assert(models(paths@).take(paths.len() as int) == models(paths@));
        set
    }

    /// The number of members.
    pub fn len(&self) -> (r: usize)
        ensures
            self@.finite(),
            r == self@.len(),
    {
        proof {
            use_type_invariant(self);
            models(self.paths@).unique_seq_to_set();
        }
        self.paths.len()
    }

    /// The members, each once.
    pub fn to_vec(&self) -> (r: Vec<Path>)
        ensures
            models(r@).to_set() == self@,
            models(r@).no_duplicates(),
    {
        proof {
            use_type_invariant(self);
        }
        let mut out: Vec<Path> = Vec::new();
        let mut i: usize = 0;
        while i < self.paths.len()
            invariant
                i <= self.paths.len(),
                models(out@) == models(self.paths@).take(i as int),
            decreases self.paths.len() - i,
        {
            let ghost before = models(out@);
            out.push(self.paths[i].clone());
            i += 1;
            assert(models(out@) == before.push(self.paths[i - 1]@));
        }
        assert(models(self.paths@).take(self.paths.len() as int) == models(self.paths@));
        out
    }

    /// Whether some other member is an ancestor of `path`.
    pub fn has_ancestor_of(&self, path: &Path) -> (r: bool)
        ensures
            r == is_redundant(path@, self@),
    {
        let mut i: usize = 0;
        while i < self.paths.len()
            invariant
                i <= self.paths.len(),
                forall|k: int| 0 <= k < i ==> !path@.is_below(#[trigger] models(self.paths@)[k]),
            decreases self.paths.len() - i,
        {
            if path.starts_with(&self.paths[i]) && !(*path == self.paths[i]) {
                assert(path@.is_below(models(self.paths@)[i as int]));
                return true;
            }
            i += 1;
        }
        proof {
            if is_redundant(path@, self@) {
                let q = choose|q: PathModel| self@.contains(q) && #[trigger] path@.is_below(q);
                let k = choose|k: int| 0 <= k < self.paths.len() && models(self.paths@)[k] == q;
                assert(!path@.is_below(models(self.paths@)[k]));
            }
        }
        false
    }

    /// Whether some member lies strictly below `path`.
    pub fn has_descendant_of(&self, path: &Path) -> (r: bool)
        ensures
            r == (exists|k: PathModel| self@.contains(k) && #[trigger] k.is_below(path@)),
    {
        let mut i: usize = 0;
        while i < self.paths.len()
            invariant
                i <= self.paths.len(),
                forall|k: int| 0 <= k < i ==> !(#[trigger] models(self.paths@)[k]).is_below(path@),
            decreases self.paths.len() - i,
        {
            if self.paths[i].starts_with(path) && !(self.paths[i] == *path) {
                assert(models(self.paths@)[i as int].is_below(path@));
                return true;
            }
            i += 1;
        }
        proof {
            if exists|k: PathModel| self@.contains(k) && #[trigger] k.is_below(path@) {
                let q = choose|q: PathModel| self@.contains(q) && #[trigger] q.is_below(path@);
                let k = choose|k: int| 0 <= k < self.paths.len() && models(self.paths@)[k] == q;
                assert(!models(self.paths@)[k].is_below(path@));
            }
        }
        false
    }
}

impl Clone for KeepSet {
    fn clone(&self) -> (r: KeepSet)
        ensures
            r@ == self@,
    {
        KeepSet { paths: self.to_vec() }
    }
}

impl PartialEq for KeepSet {
    fn eq(&self, other: &KeepSet) -> (r: bool) {
        let r = self.paths.len() == other.paths.len() && self.is_subset_of(other);
        proof {
            use_type_invariant(self);
            use_type_invariant(other);
            models(self.paths@).unique_seq_to_set();
            models(other.paths@).unique_seq_to_set();
            if r {
                vstd::set_lib::lemma_subset_equality(self@, other@);
            }
        }
        r
    }
}

impl vstd::std_specs::cmp::PartialEqSpecImpl for KeepSet {
    open spec fn obeys_eq_spec() -> bool {
        true
    }

    open spec fn eq_spec(&self, other: &KeepSet) -> bool {
        self@ == other@
    }
}

impl Eq for KeepSet {

}

impl KeepSet {
    /// Whether every member is a member of `other`.
    pub fn is_subset_of(&self, other: &KeepSet) -> (r: bool)
        ensures
            r == self@.subset_of(other@),
    {
        let mut i: usize = 0;
        while i < self.paths.len()
            invariant
                i <= self.paths.len(),
                forall|k: int| 0 <= k < i ==> other@.contains(#[trigger] models(self.paths@)[k]),
            decreases self.paths.len() - i,
        {
            if !other.contains(&self.paths[i]) {
                assert(self@.contains(models(self.paths@)[i as int]));
                return false;
            }
            i += 1;
        }
        assert forall|p: PathModel| self@.contains(p) implies other@.contains(p) by {
            let k = choose|k: int| 0 <= k < self.paths.len() && models(self.paths@)[k] == p;
            assert(other@.contains(models(self.paths@)[k]));
        }
        true
    }
}

/// Moving one more entry under the root adds its image.
proof fn lemma_rebased_insert(root: PathModel, entries: Set<PathModel>, e: PathModel)
    ensures
        rebased(root, entries.insert(e)) == rebased(root, entries).insert(rebase(root, e)),
{
    let f = |e: PathModel| rebase(root, e);
    let lhs = rebased(root, entries.insert(e));
    let rhs = rebased(root, entries).insert(rebase(root, e));
    assert forall|p: PathModel| lhs.contains(p) == rhs.contains(p) by {
        if lhs.contains(p) {
            let x = choose|x: PathModel| entries.insert(e).contains(x) && p == f(x);
            assert(x == e || rebased(root, entries).contains(p));
        }
        if rhs.contains(p) {
            if p == rebase(root, e) {
                assert(entries.insert(e).contains(e) && p == f(e));
            } else {
                let x = choose|x: PathModel| entries.contains(x) && p == f(x);
                assert(entries.insert(e).contains(x) && p == f(x));
            }
        }
    }
}

/// `entry` moved under `root`.
pub fn rebase_under(root: &Path, entry: &Path) -> (r: Path)
    ensures
        r@ == rebase(root@, entry@),
{
    root.join(&entry.to_relative())
}

/// Builds the keep set of a run: the keep list and the target are moved under
/// the root, the mount points strictly below the root are added as they are,
/// and every path that lies below another one of the set is dropped.
pub fn normalize_keep(root: &Path, target: &Path, mountpoints: Vec<Path>, keep: KeepSet) -> (r:
    KeepSet)
    ensures
        r@ == minimal_cover(
            keep_candidates(root@, target@, models(mountpoints@).to_set(), keep@),
        ),
        is_antichain(r@),
        is_protected(rebase(root@, target@), r@),
{
    let entries = keep.to_vec();
    let mut all = KeepSet::new();
    let mut i: usize = 0;
    while i < entries.len()
        invariant
            i <= entries.len(),
            all@ == rebased(root@, models(entries@).take(i as int).to_set()),
        decreases entries.len() - i,
    {
        proof {
            let before = models(entries@).take(i as int);
            before.lemma_push_to_set_commute(entries[i as int]@);
            assert(models(entries@).take(i + 1) == before.push(entries[i as int]@));
            lemma_rebased_insert(root@, before.to_set(), entries[i as int]@);
        }
        all.insert(rebase_under(root, &entries[i]));
        i += 1;
    }
    proof {
        assert(models(entries@).take(entries.len() as int) == models(entries@));
        lemma_rebased_insert(root@, keep@, target@);
    }
    all.insert(rebase_under(root, target));
    let ghost listed = rebased(root@, keep@.insert(target@));
    let mut j: usize = 0;
    while j < mountpoints.len()
        invariant
            j <= mountpoints.len(),
            all@ == listed + mounts_below(root@, models(mountpoints@).take(j as int).to_set()),
        decreases mountpoints.len() - j,
    {
        let ghost before = models(mountpoints@).take(j as int);
        let ghost m = mountpoints[j as int]@;
        proof {
            before.lemma_push_to_set_commute(m);
            assert(models(mountpoints@).take(j + 1) == before.push(m));
        }
        if mountpoints[j].starts_with(root) && !(mountpoints[j] == *root) {
            all.insert(mountpoints[j].clone());
        }
        j += 1;
    }
    assert(models(mountpoints@).take(mountpoints.len() as int) == models(mountpoints@));
    let members = all.to_vec();
    let mut out = KeepSet::new();
    let mut k: usize = 0;
    while k < members.len()
        invariant
            k <= members.len(),
            out@ == irredundant(models(members@).take(k as int).to_set(), all@),
        decreases members.len() - k,
    {
        let ghost before = models(members@).take(k as int);
        let ghost p = members[k as int]@;
        proof {
            before.lemma_push_to_set_commute(p);
            assert(models(members@).take(k + 1) == before.push(p));
        }
        if !all.has_ancestor_of(&members[k]) {
            out.insert(members[k].clone());
        }
        k += 1;
    }
    proof {
        assert(models(members@).take(members.len() as int) == models(members@));
        lemma_minimal_cover_is_antichain(all@);
        lemma_target_is_protected(root@, target@, models(mountpoints@).to_set(), keep@);
    }
    out
}

/// In a minimal cover no member lies below another.
pub proof fn lemma_minimal_cover_is_antichain(set: Set<PathModel>)
    ensures
        is_antichain(minimal_cover(set)),
{
    let cover = minimal_cover(set);
    assert forall|a: PathModel, b: PathModel|
        cover.contains(a) && cover.contains(b) && a != b implies !#[trigger] a.starts_with(b) by {
        if a.starts_with(b) {
            assert(set.contains(b) && a.is_below(b));
        }
    }
}

/// Dropping the redundant members gives up no protection: whatever a member
/// of `set` protects is protected by the minimal cover as well.
pub proof fn lemma_minimal_cover_protects(set: Set<PathModel>, p: PathModel)
    requires
        is_protected(p, set),
    ensures
        is_protected(p, minimal_cover(set)),
{
    let k = choose|k: PathModel| set.contains(k) && #[trigger] p.starts_with(k);
    lemma_member_is_covered(set, k);
    let top = choose|top: PathModel| minimal_cover(set).contains(top) && #[trigger] k.starts_with(top);
    assert(p.starts_with(top));
}

/// Every member of `set` is in the minimal cover or lies below a member of it.
proof fn lemma_member_is_covered(set: Set<PathModel>, k: PathModel)
    requires
        set.contains(k),
    ensures
        exists|top: PathModel| minimal_cover(set).contains(top) && #[trigger] k.starts_with(top),
    decreases k.parts.len(),
{
    if is_redundant(k, set) {
        let q = choose|q: PathModel| set.contains(q) && #[trigger] k.is_below(q);
        assert(q.parts.len() < k.parts.len()) by {
            if q.parts.len() >= k.parts.len() {
                assert(q.parts =~= k.parts);
            }
        }
        lemma_member_is_covered(set, q);
        let top = choose|top: PathModel| minimal_cover(set).contains(top) && #[trigger] q.starts_with(top);
        assert(k.starts_with(top));
    } else {
        assert(minimal_cover(set).contains(k) && k.starts_with(k));
    }
}

/// Everything that asks for protection lies at or below the root.
pub proof fn lemma_candidates_lie_under_root(
    root: PathModel,
    target: PathModel,
    mounts: Set<PathModel>,
    keep: Set<PathModel>,
)
    ensures
        forall|k: PathModel| #[trigger]
            keep_candidates(root, target, mounts, keep).contains(k) ==> k.starts_with(root),
{
    assert forall|k: PathModel| #[trigger]
        keep_candidates(root, target, mounts, keep).contains(k) implies k.starts_with(root) by {
        if rebased(root, keep.insert(target)).contains(k) {
            let e = choose|e: PathModel| keep.insert(target).contains(e) && k == rebase(root, e);
            assert(root.parts.is_prefix_of(root.parts + e.parts));
        }
    }
}

/// The target, moved under the root, is always protected, so that a walk
/// never looks into the place where the generations are.
pub proof fn lemma_target_is_protected(
    root: PathModel,
    target: PathModel,
    mounts: Set<PathModel>,
    keep: Set<PathModel>,
)
    ensures
        is_protected(
            rebase(root, target),
            minimal_cover(keep_candidates(root, target, mounts, keep)),
        ),
{
    let all = keep_candidates(root, target, mounts, keep);
    let there = rebase(root, target);
    assert(keep.insert(target).contains(target));
    assert(all.contains(there) && there.starts_with(there));
    lemma_minimal_cover_protects(all, there);
}

/// Unless the target or an entry of the keep list is a path without
/// components, the root itself is not protected.
pub proof fn lemma_root_is_not_protected(
    root: PathModel,
    target: PathModel,
    mounts: Set<PathModel>,
    keep: Set<PathModel>,
)
    requires
        target.parts.len() > 0,
        forall|e: PathModel| keep.contains(e) ==> e.parts.len() > 0,
    ensures
        !is_protected(root, minimal_cover(keep_candidates(root, target, mounts, keep))),
{
    let all = keep_candidates(root, target, mounts, keep);
    if is_protected(root, minimal_cover(all)) {
        let k = choose|k: PathModel| minimal_cover(all).contains(k) && #[trigger] root.starts_with(k);
        lemma_candidates_lie_under_root(root, target, mounts, keep);
        assert(k.parts =~= root.parts);
        if rebased(root, keep.insert(target)).contains(k) {
            let e = choose|e: PathModel| keep.insert(target).contains(e) && k == rebase(root, e);
            assert(k.parts.len() == root.parts.len() + e.parts.len());
        }
    }
}

} // verus!
