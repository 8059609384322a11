//! The numbering scheme: which number the n-th file gets and what its name
//! becomes.

use crate::executor::natural::{
    key_order_from, lemma_leading_number, natural_key, natural_order, Precedence,
};
use crate::executor::utils::{
    extension_of, extension_or_empty, file_extension, hidden_name, is_hyphenated_id,
    last_index_of, lemma_last_index_of, temporary_name,
};
use crate::numeral::{format_number, is_digit, lemma_zero_padded_round_trip, zero_padded};
use crate::text::str_eq;
use vstd::prelude::*;

verus! {

/// How files are numbered: the width that numbers are zero-padded to, the
/// first number, and the distance from one number to the next.
#[derive(Clone, Copy, Debug, PartialEq, Eq, Structural)]
pub struct Numbering {
    pub digit: u8,
    pub initial: u32,
    pub step: u8,
}

/// The name `number.extension`, the number zero-padded to `width`.
pub open spec fn numbered_name(number: nat, width: nat, extension: Seq<char>) -> Seq<char> {
    zero_padded(number, width) + seq!['.'] + extension
}

impl Numbering {
    /// The number of the file at `index` in the order of processing.
    pub open spec fn number(self, index: nat) -> nat {
        self.initial as nat + index * self.step as nat
    }

    /// The name that the file at `index` is to have: its number, a dot, and
    /// the extension of its present name `name`, kept as it is.
    pub open spec fn destination(self, index: nat, name: Seq<char>) -> Seq<char> {
        numbered_name(self.number(index), self.digit as nat, extension_or_empty(name))
    }

    /// Whether the file at `index` already has the name it is to have.
    pub open spec fn placed(self, index: nat, name: Seq<char>) -> bool {
        name == self.destination(index, name)
    }

    /// The number of the file at `index`.
    pub fn sequence_number(&self, index: usize) -> (number: u128)
        ensures
            number == self.number(index as nat),
    {
        assert(index * self.step <= 0xffff_ffff_ffff_ffff * 255) by (nonlinear_arith)
            requires
                index <= 0xffff_ffff_ffff_ffff,
                self.step <= 255,
        ;
        (self.initial as u128) + (index as u128) * (self.step as u128)
    }

    /// The name that the file at `index`, now called `name`, is to have.
    pub fn destination_name(&self, index: usize, name: &str) -> (destination: String)
        ensures
            destination@ == self.destination(index as nat, name@),
    {
        let mut destination = format_number(self.sequence_number(index), self.digit as usize);
        proof {
            reveal_strlit(".");
        }
        destination.append(".");
        match file_extension(name) {
            Some(extension) => {
                destination.append(extension.as_str());
            },
            None => {},
        }
        assert(destination@ =~= self.destination(index as nat, name@));
        destination
    }

    /// Whether the file at `index` already has the name it is to have.
    pub fn is_placed(&self, index: usize, name: &str) -> (placed: bool)
        ensures
            placed == self.placed(index as nat, name@),
    {
        let destination = self.destination_name(index, name);
        str_eq(destination.as_str(), name)
    }
}

/// Whether `s` holds no dot.
pub open spec fn dotless(s: Seq<char>) -> bool {
    forall|i: int| 0 <= i < s.len() ==> #[trigger] s[i] != '.'
}

/// An extension never holds a dot.
pub proof fn lemma_extension_is_dotless(name: Seq<char>)
    ensures
        dotless(extension_or_empty(name)),
{
    lemma_last_index_of(name, '.');
    let dot = last_index_of(name, '.');
    if extension_of(name) is Some {
        let extension = name.skip(dot + 1);
        assert forall|i: int| 0 <= i < extension.len() implies #[trigger] extension[i] != '.' by {
            assert(extension[i] == name[dot + 1 + i]);
        }
    }
}

/// A numbered name is not hidden, and its extension is the one it was made
/// with.
pub proof fn lemma_numbered_name_extension(number: nat, width: nat, extension: Seq<char>)
    requires
        dotless(extension),
    ensures
        !hidden_name(numbered_name(number, width, extension)),
        extension_of(numbered_name(number, width, extension)) == Some(extension),
{
    let stem = zero_padded(number, width);
    let name = numbered_name(number, width, extension);
    lemma_zero_padded_round_trip(number, width);
    lemma_last_index_of(name, '.');
    let dot = last_index_of(name, '.');
    let cut = stem.len() as int;
    assert(name[cut] == '.');
    assert(name[0] == stem[0]);
    assert(is_digit(stem[0]));
    assert(dot == cut) by {
        if dot < cut {
            assert(name[cut] != '.');
        }
        if dot > cut {
            assert(name[dot] == extension[dot - cut - 1]);
        }
    }
    assert(name != seq!['.', '.']) by {
        if name == seq!['.', '.'] {
            assert(seq!['.', '.'][0] == '.');
        }
    }
    assert(name.skip(dot + 1) == extension);
}

/// Two numbered names of one width are the same only if they were made
/// from the same number and the same extension.
pub proof fn lemma_numbered_names_differ(
    a: nat,
    b: nat,
    width: nat,
    first: Seq<char>,
    second: Seq<char>,
)
    requires
        numbered_name(a, width, first) == numbered_name(b, width, second),
    ensures
        a == b,
        first == second,
{
    let left = zero_padded(a, width);
    let right = zero_padded(b, width);
    let name = numbered_name(a, width, first);
    let other = numbered_name(b, width, second);
    lemma_zero_padded_round_trip(a, width);
    lemma_zero_padded_round_trip(b, width);
    assert(name[left.len() as int] == '.');
    assert(other[right.len() as int] == '.');
    if left.len() < right.len() {
        assert(other[left.len() as int] == right[left.len() as int]);
        assert(is_digit(right[left.len() as int]));
    }
    if right.len() < left.len() {
        assert(name[right.len() as int] == left[right.len() as int]);
        assert(is_digit(left[right.len() as int]));
    }
    assert(left == name.take(left.len() as int));
    assert(right == other.take(right.len() as int));
    assert(first == name.skip(left.len() as int + 1));
    assert(second == other.skip(right.len() as int + 1));
}

/// A name made from a hyphenated identifier is never a numbered name: no
/// file that was moved out of the way sits on a destination.
pub proof fn lemma_random_name_is_no_destination(
    id: Seq<char>,
    extension: Seq<char>,
    number: nat,
    width: nat,
    other: Seq<char>,
)
    requires
        is_hyphenated_id(id),
    ensures
        temporary_name(id, extension) != numbered_name(number, width, other),
{
    let random = temporary_name(id, extension);
    let numbered = numbered_name(number, width, other);
    let stem = zero_padded(number, width);
    lemma_zero_padded_round_trip(number, width);
    if random == numbered {
        let cut = stem.len() as int;
        assert(numbered[cut] == '.');
        assert(random[36] == '.');
        if cut < 36 {
            assert(random[cut] == id[cut]);
            assert(id[cut] == '-' || crate::executor::utils::is_lower_hex(id[cut]));
        } else {
            assert(random[8] == id[8]);
            assert(numbered[8] == stem[8]);
            assert(is_digit(stem[8]));
        }
    }
}

/// A name made from a hyphenated identifier is not hidden and has the
/// extension it was made with.
pub proof fn lemma_random_name_extension(id: Seq<char>, extension: Seq<char>)
    requires
        is_hyphenated_id(id),
        dotless(extension),
    ensures
        !hidden_name(temporary_name(id, extension)),
        extension_of(temporary_name(id, extension)) == Some(extension),
{
    let name = temporary_name(id, extension);
    lemma_last_index_of(name, '.');
    let dot = last_index_of(name, '.');
    assert(name[36] == '.');
    assert(name[0] == id[0]);
    assert(dot == 36) by {
        if dot < 36 {
            assert(name[36] != '.');
        }
        if dot > 36 {
            assert(name[dot] == extension[dot - 37]);
        }
    }
    assert(name != seq!['.', '.']) by {
        if name == seq!['.', '.'] {
            assert(seq!['.', '.'][0] == '.');
        }
    }
    assert(name.skip(dot + 1) == extension);
}

/// In natural order numbered names come by their numbers, whatever their
/// extensions, as long as the numbers fit a machine word.
pub proof fn lemma_numbered_names_in_order(
    a: nat,
    b: nat,
    width: nat,
    first: Seq<char>,
    second: Seq<char>,
)
    requires
        a < b <= usize::MAX,
    ensures
        natural_order(numbered_name(a, width, first), numbered_name(b, width, second))
            == Precedence::Before,
{
    let left = numbered_name(a, width, first);
    let right = numbered_name(b, width, second);
    let stem = zero_padded(a, width);
    let other = zero_padded(b, width);
    lemma_zero_padded_round_trip(a, width);
    lemma_zero_padded_round_trip(b, width);
    assert(left[stem.len() as int] == '.');
    assert(right[other.len() as int] == '.');
    assert forall|i: int| 0 <= i < stem.len() implies is_digit(#[trigger] left[i]) by {
        assert(left[i] == stem[i]);
    }
    assert forall|i: int| 0 <= i < other.len() implies is_digit(#[trigger] right[i]) by {
        assert(right[i] == other[i]);
    }
    lemma_leading_number(left, stem.len() as int);
    lemma_leading_number(right, other.len() as int);
    assert(left.take(stem.len() as int) == stem);
    assert(right.take(other.len() as int) == other);
    assert(stem[0] != '+' && other[0] != '+');
    assert(key_order_from(natural_key(left), natural_key(right), 0) == Precedence::Before);
}

impl Numbering {
    /// Renaming a file to its destination keeps its extension, and the file
    /// then has the name it is to have.
    pub proof fn lemma_destination_is_placed(self, index: nat, name: Seq<char>)
        ensures
            extension_or_empty(self.destination(index, name)) == extension_or_empty(name),
            self.placed(index, self.destination(index, name)),
            !hidden_name(self.destination(index, name)),
    {
        lemma_extension_is_dotless(name);
        lemma_numbered_name_extension(
            self.number(index),
            self.digit as nat,
            extension_or_empty(name),
        );
    }

    /// With a step of at least one, files at different places in the order
    /// never get the same destination.
    pub proof fn lemma_destinations_differ(
        self,
        i: nat,
        j: nat,
        first: Seq<char>,
        second: Seq<char>,
    )
        requires
            self.step >= 1,
            self.destination(i, first) == self.destination(j, second),
        ensures
            i == j,
    {
        lemma_numbered_names_differ(
            self.number(i),
            self.number(j),
            self.digit as nat,
            extension_or_empty(first),
            extension_or_empty(second),
        );
        assert(i * self.step as nat == j * self.step as nat);
        assert(i == j) by (nonlinear_arith)
            requires
                i * self.step as nat == j * self.step as nat,
                self.step as nat >= 1,
        ;
    }
}

} // verus!
