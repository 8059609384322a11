//! Paths written with `/`, read by their components: two paths are the
//! same where their components are, however they are written.

use crate::numeral::chars_of;
use crate::text::{str_eq, views_of};
use vstd::prelude::*;

verus! {

/// What a left-to-right walk knows after the first `i` characters of a
/// path: the parts that have ended, and where the part at hand began.
pub struct Walk {
    pub parts: Seq<Seq<char>>,
    pub start: int,
}

/// `parts` and `piece` behind them, unless `piece` is empty or `.`.
pub open spec fn with_piece(parts: Seq<Seq<char>>, piece: Seq<char>) -> Seq<Seq<char>> {
    if piece.len() == 0 || piece == seq!['.'] {
        parts
    } else {
        parts.push(piece)
    }
}

/// What the walk knows after the first `i` characters of `s`.
pub open spec fn walk(s: Seq<char>, i: int) -> Walk
    decreases i,
{
    if i <= 0 {
        Walk { parts: Seq::empty(), start: 0 }
    } else {
        let before = walk(s, i - 1);
        if s[i - 1] == '/' {
            Walk { parts: with_piece(before.parts, s.subrange(before.start, i - 1)), start: i }
        } else {
            before
        }
    }
}

/// The pieces between the separators of `s`, without the empty ones and
/// without those that are `.`.
pub open spec fn named_parts(s: Seq<char>) -> Seq<Seq<char>> {
    let whole = walk(s, s.len() as int);
    with_piece(whole.parts, s.subrange(whole.start, s.len() as int))
}

/// Whether the path begins at the root.
pub open spec fn has_root(s: Seq<char>) -> bool {
    s.len() > 0 && s[0] == '/'
}

/// Whether the first component of the path is `.`, the directory at hand.
pub open spec fn starts_here(s: Seq<char>) -> bool {
    s.len() > 0 && s[0] == '.' && (s.len() == 1 || s[1] == '/')
}

/// The components of a path: the root `/` where the path begins with a
/// separator, or `.` where that is its first piece; then the pieces
/// between separators. Empty pieces count for nothing, so neither does a
/// separator written twice or at the end, nor does a `.` that is not the
/// first component.
pub open spec fn components(s: Seq<char>) -> Seq<Seq<char>> {
    if has_root(s) {
        seq![seq!['/']] + named_parts(s)
    } else if starts_here(s) {
        seq![seq!['.']] + named_parts(s)
    } else {
        named_parts(s)
    }
}

/// The components of a path.
pub fn path_components(path: &str) -> (parts: Vec<String>)
    ensures
        views_of(parts@) == components(path@),
{
    let chars = chars_of(path);
    let length = chars.len();
    let mut parts: Vec<String> = Vec::new();
    proof {
        reveal_strlit("/");
        reveal_strlit(".");
    }
    if length > 0 && chars[0] == '/' {
        parts.push(String::from_str("/"));
        assert(parts[0]@ =~= seq!['/']);
        assert(views_of(parts@) =~= seq![seq!['/']]);
    } else if length > 0 && chars[0] == '.' && (length == 1 || chars[1] == '/') {
        parts.push(String::from_str("."));
        assert(parts[0]@ =~= seq!['.']);
        assert(views_of(parts@) =~= seq![seq!['.']]);
    } else {
        assert(views_of(parts@) =~= Seq::<Seq<char>>::empty());
    }
    let ghost head = views_of(parts@);
    let mut start: usize = 0;
    let mut i: usize = 0;
    while i < length
        invariant
            chars@ == path@,
            length == chars.len(),
            start <= i <= length,
            walk(path@, i as int).start == start,
            views_of(parts@) == head + walk(path@, i as int).parts,
            head == if has_root(path@) {
                seq![seq!['/']]
            } else if starts_here(path@) {
                seq![seq!['.']]
            } else {
                Seq::empty()
            },
        decreases length - i,
    {
        if chars[i] == '/' {
            let ghost before = views_of(parts@);
            let ghost piece = path@.subrange(start as int, i as int);
            if i > start && !(i - start == 1 && chars[start] == '.') {
                parts.push(String::from_str(path.substring_char(start, i)));
                assert(views_of(parts@) =~= before.push(piece));
            }
            proof {
                if piece == seq!['.'] {
                    assert(piece.len() == 1 && piece[0] == '.');
                } else if i - start == 1 && chars[start as int] == '.' {
                    assert(piece =~= seq!['.']);
                }
                assert(views_of(parts@) =~= head + with_piece(
                    walk(path@, i as int).parts,
                    piece,
                ));
            }
            start = i + 1;
        }
        i += 1;
    }
    let ghost before = views_of(parts@);
    let ghost piece = path@.subrange(start as int, length as int);
    if length > start && !(length - start == 1 && chars[start] == '.') {
        parts.push(String::from_str(path.substring_char(start, length)));
        assert(views_of(parts@) =~= before.push(piece));
    }
    proof {
        if piece == seq!['.'] {
            assert(piece.len() == 1 && piece[0] == '.');
        } else if length - start == 1 && chars[start as int] == '.' {
            assert(piece =~= seq!['.']);
        }
        assert(views_of(parts@) =~= head + named_parts(path@));
    }
    parts
}

/// Whether two vectors hold the same texts in the same order.
pub fn same_texts(a: &Vec<String>, b: &Vec<String>) -> (same: bool)
    ensures
        same == (views_of(a@) == views_of(b@)),
{
    if a.len() != b.len() {
        assert(views_of(a@).len() != views_of(b@).len());
        return false;
    }
    let mut i: usize = 0;
    while i < a.len()
        invariant
            a.len() == b.len(),
            i <= a.len(),
            forall|k: int| 0 <= k < i ==> (#[trigger] a[k])@ == b[k]@,
        decreases a.len() - i,
    {
        if !str_eq(a[i].as_str(), b[i].as_str()) {
            assert(views_of(a@)[i as int] != views_of(b@)[i as int]);
            return false;
        }
        i += 1;
    }
    assert(views_of(a@) =~= views_of(b@));
    true
}

/// Whether two paths are the same, component by component.
pub fn same_path(a: &str, b: &str) -> (same: bool)
    ensures
        same == (components(a@) == components(b@)),
{
    let left = path_components(a);
    let right = path_components(b);
    same_texts(&left, &right)
}

} // verus!
