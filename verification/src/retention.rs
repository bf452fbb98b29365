//! Retention: which generation directories are deleted.

use crate::generation::{parse_decimal, parse_number};
use crate::keep::{rebase, rebase_under};
use crate::listing::{entry_models, DirEntry, EntryModel};
use crate::path::{is_name, models, Path, PathModel};
use vstd::prelude::*;

verus! {

/// The age key of a directory name: the number that it denotes, and 0 if it
/// denotes none, so that such a name counts as the oldest.
pub open spec fn generation_key(name: Seq<char>) -> nat {
    match parse_number(name) {
        Some(n) => n,
        None => 0,
    }
}

/// The names of the directories among `entries`, in the order of the listing.
pub open spec fn directory_names(entries: Seq<EntryModel>) -> Seq<Seq<char>> {
    entries.filter(|e: EntryModel| e.is_dir).map_values(|e: EntryModel| e.name)
}

/// `name` put into `sorted` behind every name whose key is no greater than
/// its own.
pub open spec fn insert_by_age(sorted: Seq<Seq<char>>, name: Seq<char>) -> Seq<Seq<char>>
    decreases sorted.len(),
{
    if sorted.len() == 0 {
        seq![name]
    } else if generation_key(sorted.last()) <= generation_key(name) {
        sorted.push(name)
    } else {
        insert_by_age(sorted.drop_last(), name).push(sorted.last())
    }
}

/// `names` in ascending order of their keys; names with the same key stay in
/// the order in which they came.
pub open spec fn sorted_by_age(names: Seq<Seq<char>>) -> Seq<Seq<char>>
    decreases names.len(),
{
    if names.len() == 0 {
        Seq::empty()
    } else {
        insert_by_age(sorted_by_age(names.drop_last()), names.last())
    }
}

/// The keys ascend.
pub open spec fn ascending(names: Seq<Seq<char>>) -> bool {
    forall|i: int, j: int|
        0 <= i <= j < names.len() ==> generation_key(#[trigger] names[i]) <= generation_key(
            #[trigger] names[j],
        )
}

/// The names to delete when `retain` directories are to stay: none if
/// `retain` is 0 or no more than `retain` are there, else the oldest ones
/// beyond the `retain` youngest, the oldest first.
pub open spec fn expired(names: Seq<Seq<char>>, retain: nat) -> Seq<Seq<char>> {
    if retain == 0 || names.len() <= retain {
        Seq::empty()
    } else {
        sorted_by_age(names).take(names.len() - retain)
    }
}

/// The directories under `dir` with the given names.
pub open spec fn children_named(dir: PathModel, names: Seq<Seq<char>>) -> Seq<PathModel> {
    names.map_values(|name: Seq<char>| dir.child(name))
}

/// A directory name with its key.
struct Aged {
    key: usize,
    name: String,
}

/// The names of a list of aged names.
spec fn aged_names(list: Seq<Aged>) -> Seq<Seq<char>> {
    list.map_values(|a: Aged| a.name@)
}

/// Each key is the key of its name, and each name is a component name.
spec fn aged_wf(list: Seq<Aged>) -> bool {
    forall|i: int|
        0 <= i < list.len() ==> (#[trigger] list[i]).key == generation_key(list[i].name@)
            && is_name(list[i].name@)
}

/// One more entry in a listing adds its name to the directory names if it is
/// a directory.
proof fn lemma_directory_names_push(entries: Seq<EntryModel>, e: EntryModel)
    ensures
        directory_names(entries.push(e)) == if e.is_dir {
            directory_names(entries).push(e.name)
        } else {
            directory_names(entries)
        },
{
    let is_dir = |e: EntryModel| e.is_dir;
    entries.lemma_filter_push(e, is_dir);
}

/// A name goes in front of the names at the end that are younger than it.
proof fn lemma_insert_by_age_at(sorted: Seq<Seq<char>>, name: Seq<char>, at: int)
    requires
        0 <= at <= sorted.len(),
        forall|j: int| at <= j < sorted.len() ==> generation_key(#[trigger] sorted[j])
            > generation_key(name),
        at > 0 ==> generation_key(sorted[at - 1]) <= generation_key(name),
    ensures
        insert_by_age(sorted, name) == sorted.insert(at, name),
    decreases sorted.len(),
{
    if sorted.len() > 0 && at < sorted.len() {
        let init = sorted.drop_last();
        assert forall|j: int| at <= j < init.len() implies generation_key(#[trigger] init[j])
            > generation_key(name) by {
            assert(init[j] == sorted[j]);
        }
        if at > 0 {
            assert(init[at - 1] == sorted[at - 1]);
        }
        lemma_insert_by_age_at(init, name, at);
    } else {
        assert(sorted.insert(at, name) == sorted.push(name));
    }
}

/// The directories to delete so that `retain` generations stay: none if
/// `retain` is 0 or no more than `retain` directories are listed, else the
/// oldest directories beyond the `retain` youngest, the oldest first.
/// `entries` is the listing of the target directory under `root`.
pub fn cleanup_old(root: &Path, target: &Path, entries: &Vec<DirEntry>, retain: usize) -> (r: Vec<
    Path,
>)
    ensures
        models(r@) == children_named(
            rebase(root@, target@),
            expired(directory_names(entry_models(entries@)), retain as nat),
        ),
        retain == 0 ==> r@.len() == 0,
{
    let mut out: Vec<Path> = Vec::new();
    let ghost listing = entry_models(entries@);
    if retain == 0 {
        return out;
    }
    let mut sorted: Vec<Aged> = Vec::new();
    let mut i: usize = 0;
    proof {
        reveal(Seq::filter);
    }
    while i < entries.len()
        invariant
            i <= entries.len(),
            listing == entry_models(entries@),
            aged_wf(sorted@),
            aged_names(sorted@) == sorted_by_age(directory_names(listing.take(i as int))),
        decreases entries.len() - i,
    {
        let entry = &entries[i];
        proof {
            assert(listing.take(i + 1) == listing.take(i as int).push(entry@));
            lemma_directory_names_push(listing.take(i as int), entry@);
        }
        if entry.is_dir() {
            let key = match parse_decimal(entry.name()) {
                Some(n) => n,
                None => 0,
            };
            let mut at: usize = sorted.len();
            while at > 0 && sorted[at - 1].key > key
                invariant
                    at <= sorted.len(),
                    forall|j: int| at <= j < sorted.len() ==> (#[trigger] sorted[j]).key > key,
                decreases at,
            {
                at -= 1;
            }
            let ghost before = sorted@;
            proof {
                let names = aged_names(before);
                assert forall|j: int| at <= j < names.len() implies generation_key(
                    #[trigger] names[j],
                ) > generation_key(entry@.name) by {
                    assert(before[j].key > key);
                }
                if at > 0 {
                    assert(before[at - 1].key <= key);
                }
                lemma_insert_by_age_at(names, entry@.name, at as int);
                let longer = directory_names(listing.take(i as int)).push(entry@.name);
                assert(longer.drop_last() == directory_names(listing.take(i as int)));
            }
            let aged = Aged { key, name: String::from_str(entry.name()) };
            sorted.insert(at, aged);
            proof {
                assert forall|k: int| 0 <= k < sorted.len() implies (#[trigger] sorted[k]).key
                    == generation_key(sorted[k].name@) && is_name(sorted[k].name@) by {
                    if k < at {
                        assert(sorted[k] == before[k]);
                    } else if k > at {
                        assert(sorted[k] == before[k - 1]);
                    }
                }
            }
        }
        i += 1;
    }
    assert(listing.take(entries.len() as int) == listing);
    proof {
        lemma_sorted_by_age_permutes(directory_names(listing));
    }
    if sorted.len() <= retain {
        return out;
    }
    let dir = rebase_under(root, target);
    let count = sorted.len() - retain;
    let mut k: usize = 0;
    while k < count
        invariant
            k <= count <= sorted.len(),
            aged_wf(sorted@),
            dir@ == rebase(root@, target@),
            models(out@) == children_named(dir@, aged_names(sorted@).take(k as int)),
        decreases count - k,
    {
        let ghost found = models(out@);
        out.push(dir.child(sorted[k].name.as_str()));
        assert(models(out@) == found.push(dir@.child(sorted[k as int].name@)));
        k += 1;
    }
    out
}

/// Sorting by age keeps the names, each as often as it came.
pub proof fn lemma_sorted_by_age_permutes(names: Seq<Seq<char>>)
    ensures
        sorted_by_age(names).to_multiset() == names.to_multiset(),
        sorted_by_age(names).len() == names.len(),
    decreases names.len(),
{
    broadcast use vstd::seq_lib::group_to_multiset_ensures;

    if names.len() > 0 {
        let init = names.drop_last();
        lemma_sorted_by_age_permutes(init);
        lemma_insert_by_age_permutes(sorted_by_age(init), names.last());
        assert(init.push(names.last()) == names);
    }
}

/// Putting a name in adds it once and keeps the others.
proof fn lemma_insert_by_age_permutes(sorted: Seq<Seq<char>>, name: Seq<char>)
    ensures
        insert_by_age(sorted, name).to_multiset() == sorted.to_multiset().insert(name),
        insert_by_age(sorted, name).len() == sorted.len() + 1,
    decreases sorted.len(),
{
    broadcast use vstd::seq_lib::group_to_multiset_ensures;

    if sorted.len() > 0 && generation_key(sorted.last()) > generation_key(name) {
        let init = sorted.drop_last();
        lemma_insert_by_age_permutes(init, name);
        assert(init.push(sorted.last()) == sorted);
    } else if sorted.len() == 0 {
        assert(seq![name] == Seq::<Seq<char>>::empty().push(name));
    }
}

/// Putting a name into ascending names leaves them ascending.
proof fn lemma_insert_by_age_ascends(sorted: Seq<Seq<char>>, name: Seq<char>)
    requires
        ascending(sorted),
    ensures
        ascending(insert_by_age(sorted, name)),
    decreases sorted.len(),
{
    let result = insert_by_age(sorted, name);
    if sorted.len() > 0 && generation_key(sorted.last()) > generation_key(name) {
        let init = sorted.drop_last();
        assert(ascending(init)) by {
            assert forall|i: int, j: int| 0 <= i <= j < init.len() implies generation_key(
                #[trigger] init[i],
            ) <= generation_key(#[trigger] init[j]) by {
                assert(init[i] == sorted[i] && init[j] == sorted[j]);
            }
        }
        lemma_insert_by_age_ascends(init, name);
        lemma_insert_by_age_bounded(init, name, generation_key(sorted.last()));
        let inner = insert_by_age(init, name);
        assert forall|i: int, j: int| 0 <= i <= j < result.len() implies generation_key(
            #[trigger] result[i],
        ) <= generation_key(#[trigger] result[j]) by {
            if j < inner.len() {
                assert(result[i] == inner[i] && result[j] == inner[j]);
            } else if i < inner.len() {
                assert(result[i] == inner[i]);
            }
        }
    } else {
        assert forall|i: int, j: int| 0 <= i <= j < result.len() implies generation_key(
            #[trigger] result[i],
        ) <= generation_key(#[trigger] result[j]) by {
            if j < sorted.len() {
                assert(result[i] == sorted[i] && result[j] == sorted[j]);
            } else if i < sorted.len() {
                assert(result[i] == sorted[i]);
            }
        }
    }
}

/// Putting a name in brings no key above a bound on all the keys.
proof fn lemma_insert_by_age_bounded(sorted: Seq<Seq<char>>, name: Seq<char>, bound: nat)
    requires
        generation_key(name) <= bound,
        forall|i: int| 0 <= i < sorted.len() ==> generation_key(#[trigger] sorted[i]) <= bound,
    ensures
        forall|i: int|
            0 <= i < insert_by_age(sorted, name).len() ==> generation_key(
                #[trigger] insert_by_age(sorted, name)[i],
            ) <= bound,
    decreases sorted.len(),
{
    let result = insert_by_age(sorted, name);
    if sorted.len() > 0 && generation_key(sorted.last()) > generation_key(name) {
        let init = sorted.drop_last();
        assert forall|i: int| 0 <= i < init.len() implies generation_key(#[trigger] init[i])
            <= bound by {
            assert(init[i] == sorted[i]);
        }
        lemma_insert_by_age_bounded(init, name, bound);
        let inner = insert_by_age(init, name);
        assert forall|i: int| 0 <= i < result.len() implies generation_key(#[trigger] result[i])
            <= bound by {
            if i < inner.len() {
                assert(result[i] == inner[i]);
            } else {
                assert(result[i] == sorted[sorted.len() - 1]);
            }
        }
    } else {
        assert forall|i: int| 0 <= i < result.len() implies generation_key(#[trigger] result[i])
            <= bound by {
            if i < sorted.len() {
                assert(result[i] == sorted[i]);
            }
        }
    }
}

/// Names sorted by age ascend in their keys.
pub proof fn lemma_sorted_by_age_ascends(names: Seq<Seq<char>>)
    ensures
        ascending(sorted_by_age(names)),
    decreases names.len(),
{
    if names.len() > 0 {
        lemma_sorted_by_age_ascends(names.drop_last());
        lemma_insert_by_age_ascends(sorted_by_age(names.drop_last()), names.last());
    }
}

/// The names with the key `key`, in the order in which they stand.
pub open spec fn with_key(names: Seq<Seq<char>>, key: nat) -> Seq<Seq<char>> {
    names.filter(|name: Seq<char>| generation_key(name) == key)
}

/// Putting a name in leaves the names of every key in their order, the new
/// name last among those of its key.
proof fn lemma_insert_by_age_is_stable(sorted: Seq<Seq<char>>, name: Seq<char>, key: nat)
    ensures
        with_key(insert_by_age(sorted, name), key) == if generation_key(name) == key {
            with_key(sorted, key).push(name)
        } else {
            with_key(sorted, key)
        },
    decreases sorted.len(),
{
    let has_key = |name: Seq<char>| generation_key(name) == key;
    if sorted.len() == 0 {
        assert(seq![name] == sorted.push(name));
        sorted.lemma_filter_push(name, has_key);
    } else if generation_key(sorted.last()) <= generation_key(name) {
        sorted.lemma_filter_push(name, has_key);
    } else {
        let init = sorted.drop_last();
        lemma_insert_by_age_is_stable(init, name, key);
        insert_by_age(init, name).lemma_filter_push(sorted.last(), has_key);
        init.lemma_filter_push(sorted.last(), has_key);
        assert(init.push(sorted.last()) == sorted);
    }
}

/// Sorting by age is stable: the names of one key stay in the order in which
/// they came.
pub proof fn lemma_sorted_by_age_is_stable(names: Seq<Seq<char>>, key: nat)
    ensures
        with_key(sorted_by_age(names), key) == with_key(names, key),
    decreases names.len(),
{
    let has_key = |name: Seq<char>| generation_key(name) == key;
    if names.len() == 0 {
        assert(sorted_by_age(names) == names);
    } else {
        let init = names.drop_last();
        lemma_sorted_by_age_is_stable(init, key);
        lemma_insert_by_age_is_stable(sorted_by_age(init), names.last(), key);
        init.lemma_filter_push(names.last(), has_key);
        assert(init.push(names.last()) == names);
    }
}

/// With `retain` at 0 nothing is deleted, however many directories there
/// are.
pub proof fn lemma_retain_zero_deletes_nothing(names: Seq<Seq<char>>)
    ensures
        expired(names, 0).len() == 0,
{
}

/// With more directories than are to stay, exactly the surplus is deleted:
/// what is deleted and what stays are together the directories that were
/// there, and nothing deleted is younger than anything that stays.
pub proof fn lemma_expired_are_oldest(names: Seq<Seq<char>>, retain: nat)
    requires
        0 < retain < names.len(),
    ensures
        expired(names, retain).len() == names.len() - retain,
        sorted_by_age(names).skip(names.len() - retain).len() == retain,
        (expired(names, retain) + sorted_by_age(names).skip(
            names.len() - retain,
        )).to_multiset() == names.to_multiset(),
        forall|i: int, j: int|
            0 <= i < names.len() - retain && 0 <= j < retain ==> generation_key(
                #[trigger] expired(names, retain)[i],
            ) <= generation_key(#[trigger] sorted_by_age(names).skip(names.len() - retain)[j]),
{
    let sorted = sorted_by_age(names);
    let cut = names.len() - retain;
    lemma_sorted_by_age_permutes(names);
    lemma_sorted_by_age_ascends(names);
    assert(sorted.take(cut) + sorted.skip(cut) == sorted);
    assert forall|i: int, j: int| 0 <= i < cut && 0 <= j < retain implies generation_key(
        #[trigger] expired(names, retain)[i],
    ) <= generation_key(#[trigger] sorted.skip(cut)[j]) by {
        assert(expired(names, retain)[i] == sorted[i]);
    }
}

} // verus!
