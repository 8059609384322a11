//! Choosing what a run works on: the sub-directories of the root, and in
//! each of them the files that are to be renamed.

use crate::executor::utils::{
    extension_of, file_extension, hidden_name, is_dir, is_file, is_hidden, lowercase,
    to_lowercase, Entry, EntryKind,
};
use crate::text::{str_eq, views_of};
use vstd::prelude::*;

verus! {

/// Whether an entry of the root is a work unit: a directory that is not
/// hidden.
pub open spec fn work_unit(kind: EntryKind, name: Seq<char>) -> bool {
    kind == EntryKind::Directory && !hidden_name(name)
}

/// Whether an entry is to be renamed: a file that is not hidden and whose
/// extension, in lower case, is one of `extensions`. A name without an
/// extension never is.
pub open spec fn eligible(kind: EntryKind, name: Seq<char>, extensions: Seq<Seq<char>>) -> bool {
    &&& kind == EntryKind::File
    &&& !hidden_name(name)
    &&& extension_of(name) is Some
    &&& extensions.contains(lowercase(extension_of(name)->0))
}

/// The names of the work units among `entries`, in their order.
pub open spec fn work_unit_names(entries: Seq<Entry>) -> Seq<Seq<char>>
    decreases entries.len(),
{
    if entries.len() == 0 {
        Seq::empty()
    } else if work_unit(entries.last().kind, entries.last().file_name@) {
        work_unit_names(entries.drop_last()).push(entries.last().file_name@)
    } else {
        work_unit_names(entries.drop_last())
    }
}

/// The names of the entries that are to be renamed, in their order.
pub open spec fn eligible_names(entries: Seq<Entry>, extensions: Seq<Seq<char>>) -> Seq<
    Seq<char>,
>
    decreases entries.len(),
{
    if entries.len() == 0 {
        Seq::empty()
    } else if eligible(entries.last().kind, entries.last().file_name@, extensions) {
        eligible_names(entries.drop_last(), extensions).push(entries.last().file_name@)
    } else {
        eligible_names(entries.drop_last(), extensions)
    }
}

/// A name is among the work units exactly if it is the name of an entry
/// that is a visible directory.
pub proof fn lemma_work_unit_names(entries: Seq<Entry>, name: Seq<char>)
    ensures
        work_unit_names(entries).contains(name) <==> exists|i: int|
            0 <= i < entries.len() && (#[trigger] entries[i]).file_name@ == name && work_unit(
                entries[i].kind,
                name,
            ),
    decreases entries.len(),
{
    if entries.len() > 0 {
        let rest = entries.drop_last();
        let last = entries.last();
        lemma_work_unit_names(rest, name);
        if work_unit_names(entries).contains(name) {
            let k = work_unit_names(entries).index_of(name);
            assert(work_unit_names(entries)[k] == name);
            if work_unit(last.kind, last.file_name@) && k == work_unit_names(rest).len() {
                assert(entries[entries.len() - 1].file_name@ == name);
            } else {
                assert(work_unit_names(rest)[k] == name);
                assert(work_unit_names(rest).contains(name));
                let i = choose|i: int|
                    0 <= i < rest.len() && (#[trigger] rest[i]).file_name@ == name && work_unit(
                        rest[i].kind,
                        name,
                    );
                assert(entries[i] == rest[i]);
            }
        }
        if exists|i: int|
            0 <= i < entries.len() && (#[trigger] entries[i]).file_name@ == name && work_unit(
                entries[i].kind,
                name,
            ) {
            let i = choose|i: int|
                0 <= i < entries.len() && (#[trigger] entries[i]).file_name@ == name && work_unit(
                    entries[i].kind,
                    name,
                );
            if i < entries.len() - 1 {
                assert(rest[i] == entries[i]);
                assert(work_unit_names(rest).contains(name));
                let k = work_unit_names(rest).index_of(name);
                assert(work_unit_names(entries)[k] == name);
            } else {
                assert(work_unit_names(entries)[work_unit_names(rest).len() as int] == name);
            }
        }
    }
}

/// A name is among those to be renamed exactly if it is the name of an
/// entry that is eligible: a hidden file, a file with another extension or
/// with none, and what is not a file are never among them.
pub proof fn lemma_eligible_names(
    entries: Seq<Entry>,
    extensions: Seq<Seq<char>>,
    name: Seq<char>,
)
    ensures
        eligible_names(entries, extensions).contains(name) <==> exists|i: int|
            0 <= i < entries.len() && (#[trigger] entries[i]).file_name@ == name && eligible(
                entries[i].kind,
                name,
                extensions,
            ),
        eligible_names(entries, extensions).contains(name) ==> !hidden_name(name) && extension_of(
            name,
        ) is Some && extensions.contains(lowercase(extension_of(name)->0)),
    decreases entries.len(),
{
    if entries.len() > 0 {
        let rest = entries.drop_last();
        let last = entries.last();
        let all = eligible_names(entries, extensions);
        let fewer = eligible_names(rest, extensions);
        lemma_eligible_names(rest, extensions, name);
        if all.contains(name) {
            let k = all.index_of(name);
            assert(all[k] == name);
            if eligible(last.kind, last.file_name@, extensions) && k == fewer.len() {
                assert(entries[entries.len() - 1].file_name@ == name);
            } else {
                assert(fewer[k] == name);
                assert(fewer.contains(name));
                let i = choose|i: int|
                    0 <= i < rest.len() && (#[trigger] rest[i]).file_name@ == name && eligible(
                        rest[i].kind,
                        name,
                        extensions,
                    );
                assert(entries[i] == rest[i]);
            }
        }
        if exists|i: int|
            0 <= i < entries.len() && (#[trigger] entries[i]).file_name@ == name && eligible(
                entries[i].kind,
                name,
                extensions,
            ) {
            let i = choose|i: int|
                0 <= i < entries.len() && (#[trigger] entries[i]).file_name@ == name && eligible(
                    entries[i].kind,
                    name,
                    extensions,
                );
            if i < entries.len() - 1 {
                assert(rest[i] == entries[i]);
                assert(fewer.contains(name));
                let k = fewer.index_of(name);
                assert(all[k] == name);
            } else {
                assert(all[fewer.len() as int] == name);
            }
        }
    }
}

/// Whether `folded` is one of `extensions`.
pub fn extension_listed(extensions: &Vec<String>, folded: &str) -> (listed: bool)
    ensures
        listed == views_of(extensions@).contains(folded@),
{
    let mut i: usize = 0;
    while i < extensions.len()
        invariant
            i <= extensions.len(),
            forall|j: int| 0 <= j < i ==> (#[trigger] extensions[j])@ != folded@,
        decreases extensions.len() - i,
    {
        if str_eq(extensions[i].as_str(), folded) {
            assert(views_of(extensions@)[i as int] == folded@);
            return true;
        }
        i += 1;
    }
    assert forall|j: int| 0 <= j < views_of(extensions@).len() implies views_of(
        extensions@,
    )[j] != folded@ by {
        assert(views_of(extensions@)[j] == extensions[j]@);
    }
    false
}

/// Whether the entry is a work unit.
pub fn is_work_unit(entry: &Entry) -> (b: bool)
    ensures
        b == work_unit(entry.kind, entry.file_name@),
{
    is_dir(entry) && !is_hidden(entry)
}

/// Whether the entry is to be renamed, given the extensions asked for.
pub fn is_eligible(entry: &Entry, extensions: &Vec<String>) -> (b: bool)
    ensures
        b == eligible(entry.kind, entry.file_name@, views_of(extensions@)),
{
    if !is_file(entry) || is_hidden(entry) {
        return false;
    }
    match file_extension(entry.file_name.as_str()) {
        Some(extension) => {
            let folded = to_lowercase(extension.as_str());
            extension_listed(extensions, folded.as_str())
        },
        None => false,
    }
}

/// The names of the work units among the entries of the root directory.
pub fn list_work_units(entries: &Vec<Entry>) -> (names: Vec<String>)
    ensures
        views_of(names@) == work_unit_names(entries@),
{
    let mut names: Vec<String> = Vec::new();
    let mut i: usize = 0;
    while i < entries.len()
        invariant
            i <= entries.len(),
            views_of(names@) == work_unit_names(entries@.take(i as int)),
        decreases entries.len() - i,
    {
        assert(entries@.take(i + 1).drop_last() == entries@.take(i as int));
        if is_work_unit(&entries[i]) {
            names.push(entries[i].file_name.clone());
            assert(views_of(names@) == work_unit_names(entries@.take(i as int)).push(
                entries[i as int].file_name@,
            ));
        }
        i += 1;
    }
    assert(entries@.take(i as int) == entries@);
    names
}

/// The names of the files of a work unit that are to be renamed.
pub fn list_eligible_files(entries: &Vec<Entry>, extensions: &Vec<String>) -> (names: Vec<
    String,
>)
    ensures
        views_of(names@) == eligible_names(entries@, views_of(extensions@)),
{
    let mut names: Vec<String> = Vec::new();
    let mut i: usize = 0;
    while i < entries.len()
        invariant
            i <= entries.len(),
            views_of(names@) == eligible_names(
                entries@.take(i as int),
                views_of(extensions@),
            ),
        decreases entries.len() - i,
    {
        assert(entries@.take(i + 1).drop_last() == entries@.take(i as int));
        if is_eligible(&entries[i], extensions) {
            names.push(entries[i].file_name.clone());
            assert(views_of(names@) == eligible_names(
                entries@.take(i as int),
                views_of(extensions@),
            ).push(entries[i as int].file_name@));
        }
        i += 1;
    }
    assert(entries@.take(i as int) == entries@);
    names
}

} // verus!
