//! What the compress command decides before and after it runs an archiver:
//! which format is meant, what goes into an archive and what the archive is
//! called, how the archiver is invoked, and how the results add up.

use crate::constants::{RAR_EXTENSION, ZIP_EXTENSION};
use crate::executor::utils::{extension_of, have_extension, hidden_name, is_hidden, Entry};
use crate::params::compress::CompressParams;
use crate::text::{str_eq, views_of};
use vstd::prelude::*;

verus! {

/// An archive format that the command can write and check.
#[derive(Clone, Copy, Debug, PartialEq, Eq, Structural)]
pub enum ArchiveFormat {
    Rar,
    Zip,
}

/// The format that a format name stands for, if any.
pub fn archive_format(format_type: &str) -> (format: Option<ArchiveFormat>)
    ensures
        format == if format_type@ == RAR_EXTENSION@ {
            Some(ArchiveFormat::Rar)
        } else if format_type@ == ZIP_EXTENSION@ {
            Some(ArchiveFormat::Zip)
        } else {
            None
        },
{
    if str_eq(format_type, RAR_EXTENSION) {
        Some(ArchiveFormat::Rar)
    } else if str_eq(format_type, ZIP_EXTENSION) {
        Some(ArchiveFormat::Zip)
    } else {
        None
    }
}

/// Where archives are written and looked for: the output directory where
/// one is given, else the input directory.
pub fn output_directory(params: &CompressParams) -> (directory: &str)
    ensures
        directory@ == match params.output_dir {
            Some(given) => given@,
            None => params.input_dir@,
        },
{
    match &params.output_dir {
        Some(given) => given.as_str(),
        None => params.input_dir.as_str(),
    }
}

/// The name `directory.extension` of the archive made from a directory.
pub open spec fn archive_name(directory: Seq<char>, extension: Seq<char>) -> Seq<char> {
    directory + seq!['.'] + extension
}

/// The file name of the archive made from the directory `directory_name`.
pub fn archive_file_name(directory_name: &str, extension: &str) -> (name: String)
    ensures
        name@ == archive_name(directory_name@, extension@),
{
    proof {
        reveal_strlit(".");
    }
    let mut name = String::from_str(directory_name);
    name.append(".");
    name.append(extension);
    assert(name@ =~= archive_name(directory_name@, extension@));
    name
}

/// The names of the entries that are not hidden, in their order.
pub open spec fn visible_names(entries: Seq<Entry>) -> Seq<Seq<char>>
    decreases entries.len(),
{
    if entries.len() == 0 {
        Seq::empty()
    } else if !hidden_name(entries.last().file_name@) {
        visible_names(entries.drop_last()).push(entries.last().file_name@)
    } else {
        visible_names(entries.drop_last())
    }
}

/// The names of the entries that have the extension `extension`, in their
/// order.
pub open spec fn names_with_extension(entries: Seq<Entry>, extension: Seq<char>) -> Seq<
    Seq<char>,
>
    decreases entries.len(),
{
    if entries.len() == 0 {
        Seq::empty()
    } else if extension_of(entries.last().file_name@) == Some(extension) {
        names_with_extension(entries.drop_last(), extension).push(entries.last().file_name@)
    } else {
        names_with_extension(entries.drop_last(), extension)
    }
}

/// What goes into the archive of a directory: its entries that are not
/// hidden.
pub fn list_archive_entries(entries: &Vec<Entry>) -> (names: Vec<String>)
    ensures
        views_of(names@) == visible_names(entries@),
{
    let mut names: Vec<String> = Vec::new();
    let mut i: usize = 0;
    while i < entries.len()
        invariant
            i <= entries.len(),
            views_of(names@) == visible_names(entries@.take(i as int)),
        decreases entries.len() - i,
    {
        assert(entries@.take(i + 1).drop_last() == entries@.take(i as int));
        if !is_hidden(&entries[i]) {
            names.push(entries[i].file_name.clone());
            assert(views_of(names@) == visible_names(entries@.take(i as int)).push(
                entries[i as int].file_name@,
            ));
        }
        i += 1;
    }
    assert(entries@.take(i as int) == entries@);
    names
}

/// The archives of a format among the entries of a directory: the entries
/// whose extension is the format's name.
pub fn list_archives(entries: &Vec<Entry>, format_type: &str) -> (names: Vec<String>)
    ensures
        views_of(names@) == names_with_extension(entries@, format_type@),
{
    let mut names: Vec<String> = Vec::new();
    let mut i: usize = 0;
    while i < entries.len()
        invariant
            i <= entries.len(),
            views_of(names@) == names_with_extension(entries@.take(i as int), format_type@),
        decreases entries.len() - i,
    {
        assert(entries@.take(i + 1).drop_last() == entries@.take(i as int));
        if have_extension(format_type, entries[i].file_name.as_str()) {
            names.push(entries[i].file_name.clone());
            assert(views_of(names@) == names_with_extension(
                entries@.take(i as int),
                format_type@,
            ).push(entries[i as int].file_name@));
        }
        i += 1;
    }
    assert(entries@.take(i as int) == entries@);
    names
}

/// The arguments with which rar writes an archive: add, recurse, best
/// compression, end of switches, the archive, then what goes into it.
pub open spec fn rar_arguments(archive: Seq<char>, entries: Seq<Seq<char>>) -> Seq<Seq<char>> {
    seq!["a"@, "-r"@, "-m5"@, "--"@, archive] + entries
}

/// The arguments with which rar writes `archive` from `entries`.
pub fn rar_compress_arguments(archive: &str, entries: Vec<String>) -> (arguments: Vec<String>)
    ensures
        views_of(arguments@) == rar_arguments(archive@, views_of(entries@)),
{
    let mut arguments: Vec<String> = Vec::new();
    arguments.push(String::from_str("a"));
    arguments.push(String::from_str("-r"));
    arguments.push(String::from_str("-m5"));
    arguments.push(String::from_str("--"));
    arguments.push(String::from_str(archive));
    let mut entries = entries;
    let ghost head = arguments@;
    let ghost tail = entries@;
    arguments.append(&mut entries);
    assert(arguments@ == head + tail);
    assert(views_of(arguments@) =~= rar_arguments(archive@, views_of(tail)));
    arguments
}

/// The arguments with which rar tests the archive `filename`.
pub fn rar_validate_arguments(filename: &str) -> (arguments: Vec<String>)
    ensures
        views_of(arguments@) == seq!["t"@, "--"@, filename@],
{
    let mut arguments: Vec<String> = Vec::new();
    arguments.push(String::from_str("t"));
    arguments.push(String::from_str("--"));
    arguments.push(String::from_str(filename));
    assert(views_of(arguments@) =~= seq!["t"@, "--"@, filename@]);
    arguments
}

/// Whether an archiver that ended with this exit code did its work. No
/// exit code means that it was interrupted.
pub fn archiver_succeeded(exit_code: Option<i32>) -> (succeeded: bool)
    ensures
        succeeded == (exit_code == Some(0i32)),
{
    match exit_code {
        Some(code) => code == 0,
        None => false,
    }
}

/// An archive and whether it was found sound.
pub struct Validation {
    pub file_name: String,
    pub valid: bool,
}

/// The counts of a validation run.
#[derive(Clone, Copy, Debug, PartialEq, Eq, Structural)]
pub struct ValidationSummary {
    pub total: usize,
    pub valid: usize,
    pub invalid: usize,
}

/// The names in a list of results.
pub open spec fn names_of(results: Seq<(Seq<char>, bool)>) -> Seq<Seq<char>> {
    results.map_values(|result: (Seq<char>, bool)| result.0)
}

/// The results with `name` found `valid`: where `name` has a result
/// already, that result is replaced, else one is added at the end.
pub open spec fn recorded(results: Seq<(Seq<char>, bool)>, name: Seq<char>, valid: bool) -> Seq<
    (Seq<char>, bool),
> {
    if names_of(results).contains(name) {
        results.update(names_of(results).index_of(name), (name, valid))
    } else {
        results.push((name, valid))
    }
}

/// How many of the results are `valid`.
pub open spec fn count_valid(results: Seq<(Seq<char>, bool)>, valid: bool) -> nat
    decreases results.len(),
{
    if results.len() == 0 {
        0
    } else {
        count_valid(results.drop_last(), valid) + if results.last().1 == valid {
            1nat
        } else {
            0nat
        }
    }
}

/// The names of the archives found corrupted, in their order.
pub open spec fn invalid_names(results: Seq<(Seq<char>, bool)>) -> Seq<Seq<char>>
    decreases results.len(),
{
    if results.len() == 0 {
        Seq::empty()
    } else if !results.last().1 {
        invalid_names(results.drop_last()).push(results.last().0)
    } else {
        invalid_names(results.drop_last())
    }
}

/// Each result is counted once, as valid or as invalid.
pub proof fn lemma_count_valid(results: Seq<(Seq<char>, bool)>)
    ensures
        count_valid(results, true) + count_valid(results, false) == results.len(),
    decreases results.len(),
{
    if results.len() > 0 {
        lemma_count_valid(results.drop_last());
    }
}

/// The results of compressing or validating archives: for each file name
/// one result, and no file name twice.
pub struct ValidationResults {
    entries: Vec<Validation>,
}

impl View for ValidationResults {
    type V = Seq<(Seq<char>, bool)>;

    closed spec fn view(&self) -> Seq<(Seq<char>, bool)> {
        self.entries@.map_values(|entry: Validation| (entry.file_name@, entry.valid))
    }
}

impl ValidationResults {
    /// What always holds of the results: no file name is there twice.
    pub open spec fn wf(&self) -> bool {
        names_of(self@).no_duplicates()
    }

    /// No results.
    pub fn new() -> (results: Self)
        ensures
            results.wf(),
            results@ == Seq::<(Seq<char>, bool)>::empty(),
    {
        let results = ValidationResults { entries: Vec::new() };
        assert(results@ =~= Seq::<(Seq<char>, bool)>::empty());
        results
    }

    /// How many file names have a result.
    pub fn len(&self) -> (count: usize)
        ensures
            count == self@.len(),
    {
        self.entries.len()
    }

    /// Whether there is no result.
    pub fn is_empty(&self) -> (empty: bool)
        ensures
            empty == (self@.len() == 0),
    {
        self.entries.len() == 0
    }

    fn position(&self, file_name: &str) -> (found: Option<usize>)
        ensures
            match found {
                Some(place) => place < self@.len() && names_of(self@).contains(file_name@)
                    && names_of(self@)[place as int] == file_name@,
                None => !names_of(self@).contains(file_name@),
            },
    {
        let mut place: usize = 0;
        while place < self.entries.len()
            invariant
                place <= self.entries.len(),
                forall|i: int| 0 <= i < place ==> (#[trigger] names_of(self@)[i]) != file_name@,
            decreases self.entries.len() - place,
        {
            assert(names_of(self@)[place as int] == self.entries[place as int].file_name@);
            if str_eq(self.entries[place].file_name.as_str(), file_name) {
                return Some(place);
            }
            place += 1;
        }
        None
    }

    /// Records that `file_name` was found `valid`, in place of what was
    /// recorded of it before.
    pub fn insert(&mut self, file_name: &str, valid: bool)
        requires
            old(self).wf(),
        ensures
            final(self).wf(),
            final(self)@ == recorded(old(self)@, file_name@, valid),
    {
        let ghost before = self@;
        let entry = Validation { file_name: String::from_str(file_name), valid };
        match self.position(file_name) {
            Some(place) => {
                proof {
                    let found = names_of(before).index_of(file_name@);
                    assert(names_of(before)[found] == file_name@);
                    assert(found == place);
                }
                self.entries.set(place, entry);
                assert(self@ =~= before.update(place as int, (file_name@, valid)));
                assert(names_of(self@) =~= names_of(before));
            },
            None => {
                self.entries.push(entry);
                assert(self@ =~= before.push((file_name@, valid)));
                assert(names_of(self@) =~= names_of(before).push(file_name@));
                assert(names_of(self@).no_duplicates()) by {
                    let names = names_of(self@);
                    assert forall|i: int, j: int|
                        0 <= i < names.len() && 0 <= j < names.len() && i != j implies names[i]
                        != names[j] by {
                        if i < before.len() {
                            assert(names_of(before).contains(names[i]));
                        }
                        if j < before.len() {
                            assert(names_of(before).contains(names[j]));
                        }
                    }
                }
            },
        }
    }

    /// The file names that have a result, in their order.
    pub fn file_names(&self) -> (names: Vec<String>)
        ensures
            views_of(names@) == names_of(self@),
    {
        let mut names: Vec<String> = Vec::new();
        let mut i: usize = 0;
        while i < self.entries.len()
            invariant
                i <= self.entries.len(),
                views_of(names@) == names_of(self@).take(i as int),
            decreases self.entries.len() - i,
        {
            let ghost before = views_of(names@);
            names.push(self.entries[i].file_name.clone());
            assert(names_of(self@)[i as int] == self.entries[i as int].file_name@);
            assert(views_of(names@) =~= before.push(self.entries[i as int].file_name@));
            assert(names_of(self@).take(i + 1) =~= names_of(self@).take(i as int).push(
                names_of(self@)[i as int],
            ));
            i += 1;
        }
        assert(names_of(self@).take(i as int) == names_of(self@));
        names
    }

    /// Adds up the results.
    pub fn summarize(&self) -> (summary: ValidationSummary)
        ensures
            summary.total == self@.len(),
            summary.valid == count_valid(self@, true),
            summary.invalid == count_valid(self@, false),
            summary.valid + summary.invalid == summary.total,
    {
        let mut invalid: usize = 0;
        let mut i: usize = 0;
        while i < self.entries.len()
            invariant
                i <= self.entries.len(),
                invalid == count_valid(self@.take(i as int), false),
                invalid <= i,
            decreases self.entries.len() - i,
        {
            assert(self@.take(i + 1).drop_last() == self@.take(i as int));
            assert(self@.take(i + 1).last().1 == self.entries[i as int].valid);
            if !self.entries[i].valid {
                invalid += 1;
            }
            i += 1;
        }
        assert(self@.take(i as int) == self@);
        proof {
            lemma_count_valid(self@);
        }
        ValidationSummary {
            total: self.entries.len(),
            valid: self.entries.len() - invalid,
            invalid,
        }
    }

    /// The names of the archives that were found corrupted.
    pub fn list_invalid(&self) -> (names: Vec<String>)
        ensures
            views_of(names@) == invalid_names(self@),
    {
        let mut names: Vec<String> = Vec::new();
        let mut i: usize = 0;
        while i < self.entries.len()
            invariant
                i <= self.entries.len(),
                views_of(names@) == invalid_names(self@.take(i as int)),
            decreases self.entries.len() - i,
        {
            assert(self@.take(i + 1).drop_last() == self@.take(i as int));
            assert(self@.take(i + 1).last() == (
                self.entries[i as int].file_name@,
                self.entries[i as int].valid,
            ));
            if !self.entries[i].valid {
                names.push(self.entries[i].file_name.clone());
                assert(views_of(names@) == invalid_names(self@.take(i as int)).push(
                    self.entries[i as int].file_name@,
                ));
            }
            i += 1;
        }
        assert(self@.take(i as int) == self@);
        names
    }
}

} // verus!
