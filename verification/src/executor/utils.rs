//! Directory entries as plain values, and what their names say: whether an
//! entry is hidden, which extension it has, and a fresh name to move one to.

use crate::executor::paths::{components, same_path};
use crate::numeral::chars_of;
use crate::text::str_eq;
use uuid::Uuid;
use vstd::prelude::*;

verus! {

/// What kind of thing a directory entry is.
#[derive(Clone, Copy, Debug, PartialEq, Eq, Structural)]
pub enum EntryKind {
    File,
    Directory,
    Other,
}

/// One entry of a directory: its name, without any directory part, and its
/// kind.
pub struct Entry {
    pub file_name: String,
    pub kind: EntryKind,
}

/// A name is hidden when it begins with a dot.
pub open spec fn hidden_name(name: Seq<char>) -> bool {
    name.len() > 0 && name[0] == '.'
}

/// The position of the last `c` in `s`, or -1 where `s` holds none.
pub open spec fn last_index_of(s: Seq<char>, c: char) -> int
    decreases s.len(),
{
    if s.len() == 0 {
        -1
    } else if s.last() == c {
        s.len() - 1
    } else {
        last_index_of(s.drop_last(), c)
    }
}

/// The extension of a file name: what follows its last dot. A name without
/// a dot has none, nor has one whose only dot is its first character, nor
/// has `..`.
pub open spec fn extension_of(name: Seq<char>) -> Option<Seq<char>> {
    let dot = last_index_of(name, '.');
    if dot <= 0 || name == seq!['.', '.'] {
        None
    } else {
        Some(name.skip(dot + 1))
    }
}

/// The extension of a name, and the empty text where it has none.
pub open spec fn extension_or_empty(name: Seq<char>) -> Seq<char> {
    match extension_of(name) {
        Some(extension) => extension,
        None => Seq::empty(),
    }
}

/// Returns true if the given entry is a file.
pub fn is_file(entry: &Entry) -> (b: bool)
    ensures
        b == (entry.kind == EntryKind::File),
{
    entry.kind == EntryKind::File
}

/// Returns true if the given entry is a directory.
pub fn is_dir(entry: &Entry) -> (b: bool)
    ensures
        b == (entry.kind == EntryKind::Directory),
{
    entry.kind == EntryKind::Directory
}

/// Returns true if the given name is that of a hidden file or directory.
pub fn is_hidden_name(name: &str) -> (b: bool)
    ensures
        b == hidden_name(name@),
{
    !name.is_empty() && name.get_char(0) == '.'
}

/// Returns true if the given entry is a hidden file or directory.
pub fn is_hidden(entry: &Entry) -> (b: bool)
    ensures
        b == hidden_name(entry.file_name@),
{
    is_hidden_name(entry.file_name.as_str())
}

/// Returns true if the given path and the parent path are the same path,
/// component by component: `a/b/` and `a/b` are, `a/b/c` and `a/b` are not.
/// Paths are read as written with `/`.
pub fn is_parent(v: &str, parent: &str) -> (b: bool)
    ensures
        b == (components(v@) == components(parent@)),
{
    same_path(v, parent)
}

/// `last_index_of` finds a `c`, the last one, whenever there is any.
pub proof fn lemma_last_index_of(s: Seq<char>, c: char)
    ensures
        -1 <= last_index_of(s, c) < s.len(),
        last_index_of(s, c) >= 0 ==> s[last_index_of(s, c)] == c,
        forall|i: int| last_index_of(s, c) < i < s.len() ==> #[trigger] s[i] != c,
    decreases s.len(),
{
    if s.len() > 0 && s.last() != c {
        lemma_last_index_of(s.drop_last(), c);
        assert forall|i: int| last_index_of(s, c) < i < s.len() implies #[trigger] s[i] != c by {
            if i < s.len() - 1 {
                assert(s.drop_last()[i] == s[i]);
            }
        }
    }
}

/// The extension of a file name, where it has one.
pub fn file_extension(file_name: &str) -> (extension: Option<String>)
    ensures
        match extension {
            Some(e) => extension_of(file_name@) == Some(e@),
            None => extension_of(file_name@) is None,
        },
{
    let chars = chars_of(file_name);
    let length = chars.len();
    let mut end: usize = length;
    assert(file_name@.take(end as int) == file_name@);
    while end > 0 && chars[end - 1] != '.'
        invariant
            chars@ == file_name@,
            end <= length,
            length == chars.len(),
            last_index_of(file_name@, '.') == last_index_of(file_name@.take(end as int), '.'),
        decreases end,
    {
        assert(file_name@.take(end as int).drop_last() == file_name@.take(end as int - 1));
        end -= 1;
    }
    proof {
        if end > 0 {
            assert(file_name@.take(end as int).last() == '.');
        }
    }
    if end <= 1 {
        return None;
    }
    if length == 2 && chars[0] == '.' {
        assert(file_name@ == seq!['.', '.']);
        return None;
    }
    assert(file_name@ != seq!['.', '.']) by {
        if file_name@ == seq!['.', '.'] {
            assert(seq!['.', '.'].len() == 2);
            assert(seq!['.', '.'][0] == '.');
        }
    }
    let extension = String::from_str(file_name.substring_char(end, length));
    assert(file_name@.subrange(end as int, length as int) == file_name@.skip(end as int));
    Some(extension)
}

/// Returns true if the given file name has the given extension.
pub fn have_extension(extension: &str, file_name: &str) -> (b: bool)
    ensures
        b == (extension_of(file_name@) == Some(extension@)),
{
    match file_extension(file_name) {
        Some(found) => str_eq(found.as_str(), extension),
        None => false,
    }
}

/// The lower-case form of a text, as the standard library computes it.
pub uninterp spec fn lowercase(s: Seq<char>) -> Seq<char>;

/// `str::to_lowercase` of the standard library: the result is the
/// lower-case form of the argument, a function of its characters alone.
#[verifier::external_body]
pub(crate) fn to_lowercase(s: &str) -> (folded: String)
    ensures
        folded@ == lowercase(s@),
{
    s.to_lowercase()
}

/// A lower-case hexadecimal digit.
pub open spec fn is_lower_hex(c: char) -> bool {
    ('0' <= c && c <= '9') || ('a' <= c && c <= 'f')
}

/// The shape of an identifier in hyphenated form: 36 characters, hyphens at
/// four fixed places, lower-case hexadecimal digits elsewhere.
pub open spec fn is_hyphenated_id(id: Seq<char>) -> bool {
    &&& id.len() == 36
    &&& forall|i: int|
        0 <= i < 36 ==> if i == 8 || i == 13 || i == 18 || i == 23 {
            #[trigger] id[i] == '-'
        } else {
            is_lower_hex(id[i])
        }
}

/// `Uuid::new_v4().to_string()` of the uuid crate: a random identifier
/// written in hyphenated lower-case form. Which identifier comes out is
/// left open; only its shape is claimed.
#[verifier::external_body]
pub(crate) fn random_identifier() -> (id: String)
    ensures
        is_hyphenated_id(id@),
{
    Uuid::new_v4().to_string()
}

/// The name made of an identifier, a dot and an extension.
pub open spec fn temporary_name(id: Seq<char>, extension: Seq<char>) -> Seq<char> {
    id + seq!['.'] + extension
}

/// Builds the name `id.extension`.
pub fn temporary_file_name(id: &str, extension: &str) -> (name: String)
    ensures
        name@ == temporary_name(id@, extension@),
{
    proof {
        reveal_strlit(".");
    }
    let mut name = String::from_str(id);
    name.append(".");
    name.append(extension);
    assert(name@ =~= temporary_name(id@, extension@));
    name
}

/// A random path, relative to the directory of a file that is to be moved
/// out of the way: a random file name with the given extension. Whether
/// the name is free in that directory the renaming engine asks before it
/// takes the name, and it asks for another where it is not.
pub fn gen_random_path(extension: &str) -> (name: String)
    ensures
        exists|id: Seq<char>|
            is_hyphenated_id(id) && name@ == #[trigger] temporary_name(id, extension@),
{
    let id = random_identifier();
    temporary_file_name(id.as_str(), extension)
}

} // verus!
