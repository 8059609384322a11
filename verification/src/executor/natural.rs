//! Natural sort keys: a name is cut into alternating text and number
//! segments so that `img2` comes before `img10`.
//!
//! A key is made from the text it is given, as it stands. The renaming
//! engine gives it file names without their directory: the files of one
//! directory share what comes before the name, so they come in the same
//! order either way.

use crate::executor::offsets::{
    byte_offset, char_width, is_digit_byte, lemma_byte_offset_ends, lemma_byte_offsets_climb,
    lemma_character_bytes, lemma_character_of_byte, lemma_encoded_digit,
};
use crate::numeral::{chars_of, is_ascii_digit, is_digit, parse_number, parse_unsigned};
use vstd::prelude::*;
use vstd::utf8::{encode_scalar, encode_utf8};

verus! {

/// What a left-to-right scan knows after the first `i` characters: the digit
/// runs that have ended, and where the run that is still open began.
pub struct Scan {
    pub runs: Seq<(int, int)>,
    pub open: Option<int>,
}

/// What the scan knows after the first `i` characters of `s`.
pub open spec fn scan(s: Seq<char>, i: int) -> Scan
    decreases i,
{
    if i <= 0 {
        Scan { runs: Seq::empty(), open: None }
    } else {
        let before = scan(s, i - 1);
        if is_digit(s[i - 1]) {
            Scan {
                runs: before.runs,
                open: if before.open is None {
                    Some(i - 1)
                } else {
                    before.open
                },
            }
        } else {
            match before.open {
                Some(start) => Scan { runs: before.runs.push((start, i - 1)), open: None },
                None => before,
            }
        }
    }
}

/// The maximal runs of decimal digits in `s`, left to right, each as the
/// position of its first character and the position after its last.
pub open spec fn digit_runs(s: Seq<char>) -> Seq<(int, int)> {
    let whole = scan(s, s.len() as int);
    match whole.open {
        Some(start) => whole.runs.push((start, s.len() as int)),
        None => whole.runs,
    }
}

/// Positions held in machine integers, read as mathematical integers.
pub open spec fn positions_view(positions: Seq<(usize, usize)>) -> Seq<(int, int)> {
    positions.map_values(|p: (usize, usize)| (p.0 as int, p.1 as int))
}

/// `[a, b)` is a run of digits of `s` that cannot be extended on either side.
pub open spec fn is_maximal_run(s: Seq<char>, a: int, b: int) -> bool {
    &&& 0 <= a < b <= s.len()
    &&& forall|i: int| a <= i < b ==> is_digit(#[trigger] s[i])
    &&& (a == 0 || !is_digit(s[a - 1]))
    &&& (b == s.len() || !is_digit(s[b]))
}

/// What holds of `scan(s, i)`: its runs are maximal, ordered and apart, the
/// open run reaches position `i`, and no digit before `i` is left out.
pub open spec fn scan_sound(s: Seq<char>, i: int) -> bool {
    let sc = scan(s, i);
    &&& forall|k: int|
        0 <= k < sc.runs.len() ==> is_maximal_run(s, (#[trigger] sc.runs[k]).0, sc.runs[k].1)
            && sc.runs[k].1 < i
    &&& forall|k: int|
        0 <= k < sc.runs.len() - 1 ==> (#[trigger] sc.runs[k]).1 < sc.runs[k + 1].0
    &&& match sc.open {
        Some(start) => {
            &&& 0 <= start < i
            &&& forall|j: int| start <= j < i ==> is_digit(#[trigger] s[j])
            &&& (start == 0 || !is_digit(s[start - 1]))
            &&& forall|k: int| 0 <= k < sc.runs.len() ==> (#[trigger] sc.runs[k]).1 < start
        },
        None => i == 0 || !is_digit(s[i - 1]),
    }
    &&& forall|j: int|
        0 <= j < i && is_digit(#[trigger] s[j]) ==> (sc.open is Some && sc.open->0 <= j) || exists|
            k: int,
        |
            0 <= k < sc.runs.len() && (#[trigger] sc.runs[k]).0 <= j < sc.runs[k].1
}

proof fn lemma_scan_sound(s: Seq<char>, i: int)
    requires
        0 <= i <= s.len(),
    ensures
        scan_sound(s, i),
    decreases i,
{
    if i > 0 {
        lemma_scan_sound(s, i - 1);
        let before = scan(s, i - 1);
        let sc = scan(s, i);
        if is_digit(s[i - 1]) {
            assert forall|j: int| 0 <= j < i && is_digit(#[trigger] s[j]) implies (sc.open is Some
                && sc.open->0 <= j) || exists|k: int|
                0 <= k < sc.runs.len() && (#[trigger] sc.runs[k]).0 <= j < sc.runs[k].1 by {
                if j < i - 1 {
                    if !(before.open is Some && before.open->0 <= j) {
                        let k = choose|k: int|
                            0 <= k < before.runs.len() && (#[trigger] before.runs[k]).0 <= j
                                < before.runs[k].1;
                        assert(sc.runs[k] == before.runs[k]);
                    }
                }
            }
        } else {
            match before.open {
                Some(start) => {
                    let last = before.runs.len() as int;
                    assert(sc.runs[last] == (start, i - 1));
                    assert forall|k: int| 0 <= k < sc.runs.len() implies is_maximal_run(
                        s,
                        (#[trigger] sc.runs[k]).0,
                        sc.runs[k].1,
                    ) && sc.runs[k].1 < i by {
                        if k < last {
                            assert(sc.runs[k] == before.runs[k]);
                        }
                    }
                    assert forall|k: int| 0 <= k < sc.runs.len() - 1 implies (
                    #[trigger] sc.runs[k]).1 < sc.runs[k + 1].0 by {
                        assert(sc.runs[k] == before.runs[k]);
                        if k + 1 < last {
                            assert(sc.runs[k + 1] == before.runs[k + 1]);
                        }
                    }
                    assert forall|j: int| 0 <= j < i && is_digit(#[trigger] s[j]) implies exists|
                        k: int,
                    |
                        0 <= k < sc.runs.len() && (#[trigger] sc.runs[k]).0 <= j
                            < sc.runs[k].1 by {
                        if start <= j {
                            assert(sc.runs[last].0 <= j < sc.runs[last].1);
                        } else {
                            let k = choose|k: int|
                                0 <= k < before.runs.len() && (#[trigger] before.runs[k]).0 <= j
                                    < before.runs[k].1;
                            assert(sc.runs[k] == before.runs[k]);
                        }
                    }
                },
                None => {
                    assert forall|k: int| 0 <= k < sc.runs.len() implies is_maximal_run(
                        s,
                        (#[trigger] sc.runs[k]).0,
                        sc.runs[k].1,
                    ) && sc.runs[k].1 < i by {}
                },
            }
        }
    }
}

/// The runs that `digit_runs` gives are exactly the maximal digit runs of
/// `s`: each one is maximal, they come in increasing order with a gap between
/// neighbours, and every digit of `s` lies in one of them.
pub proof fn lemma_digit_runs_are_maximal(s: Seq<char>)
    ensures
        forall|k: int|
            0 <= k < digit_runs(s).len() ==> is_maximal_run(
                s,
                (#[trigger] digit_runs(s)[k]).0,
                digit_runs(s)[k].1,
            ),
        forall|k: int|
            0 <= k < digit_runs(s).len() - 1 ==> (#[trigger] digit_runs(s)[k]).1 < digit_runs(
                s,
            )[k + 1].0,
        forall|j: int|
            0 <= j < s.len() && is_digit(#[trigger] s[j]) ==> exists|k: int|
                0 <= k < digit_runs(s).len() && (#[trigger] digit_runs(s)[k]).0 <= j < digit_runs(
                    s,
                )[k].1,
{
    let n = s.len() as int;
    lemma_scan_sound(s, n);
    let sc = scan(s, n);
    let runs = digit_runs(s);
    match sc.open {
        Some(start) => {
            let last = sc.runs.len() as int;
            assert(runs[last] == (start, n));
            assert forall|k: int| 0 <= k < runs.len() implies is_maximal_run(
                s,
                (#[trigger] runs[k]).0,
                runs[k].1,
            ) by {
                if k < last {
                    assert(runs[k] == sc.runs[k]);
                }
            }
            assert forall|k: int| 0 <= k < runs.len() - 1 implies (#[trigger] runs[k]).1 < runs[k
                + 1].0 by {
                assert(runs[k] == sc.runs[k]);
                if k + 1 < last {
                    assert(runs[k + 1] == sc.runs[k + 1]);
                }
            }
            assert forall|j: int| 0 <= j < s.len() && is_digit(#[trigger] s[j]) implies exists|
                k: int,
            |
                0 <= k < runs.len() && (#[trigger] runs[k]).0 <= j < runs[k].1 by {
                if start <= j {
                    assert(runs[last].0 <= j < runs[last].1);
                } else {
                    let k = choose|k: int|
                        0 <= k < sc.runs.len() && (#[trigger] sc.runs[k]).0 <= j < sc.runs[k].1;
                    assert(runs[k] == sc.runs[k]);
                }
            }
        },
        None => {},
    }
}

proof fn lemma_scan_starts_at_zero(s: Seq<char>, i: int)
    requires
        1 <= i <= s.len(),
        is_digit(s[0]),
    ensures
        if scan(s, i).runs.len() > 0 {
            scan(s, i).runs[0].0 == 0
        } else {
            scan(s, i).open == Some(0int)
        },
    decreases i,
{
    if i > 1 {
        lemma_scan_starts_at_zero(s, i - 1);
        let before = scan(s, i - 1);
        if !is_digit(s[i - 1]) && before.open is Some && before.runs.len() > 0 {
            assert(before.runs.push((before.open->0, i - 1))[0] == before.runs[0]);
        }
    } else {
        assert(scan(s, 0).runs.len() == 0);
        assert(scan(s, 0).open is None);
    }
}

/// The maximal digit runs of `s` in order of appearance, in positions that
/// count characters.
pub(crate) fn digit_run_positions(s: &str) -> (positions: Vec<(usize, usize)>)
    ensures
        positions_view(positions@) == digit_runs(s@),
{
    let mut positions: Vec<(usize, usize)> = Vec::new();
    let mut start_index: Option<usize> = None;
    let length = s.unicode_len();
    let mut i: usize = 0;
    for c in it: s.chars()
        invariant
            it.seq() == s@,
            length == s@.len(),
            i == it.index(),
            i <= length,
            scan(s@, i as int).runs == positions_view(positions@),
            match start_index {
                Some(start) => scan(s@, i as int).open == Some(start as int),
                None => scan(s@, i as int).open is None,
            },
    {
        if is_ascii_digit(c) {
            if start_index.is_none() {
                start_index = Some(i);
            }
        } else if let Some(start) = start_index {
            positions.push((start, i));
            start_index = None;
            assert(positions_view(positions@) == scan(s@, i as int).runs.push(
                (start as int, i as int),
            ));
        }
        i += 1;
    }
    if let Some(start) = start_index {
        positions.push((start, i));
        assert(positions_view(positions@) == scan(s@, i as int).runs.push(
            (start as int, i as int),
        ));
    }
    positions
}

/// Runs given in character positions, in bytes of the UTF-8 encoding.
pub open spec fn in_bytes(s: Seq<char>, runs: Seq<(int, int)>) -> Seq<(int, int)> {
    Seq::new(runs.len(), |k: int| (byte_offset(s, runs[k].0), byte_offset(s, runs[k].1)))
}

/// The maximal runs of decimal digits in `s`, left to right, each as the
/// byte offset of its first digit and the byte offset behind its last, in
/// the UTF-8 encoding of `s`.
pub open spec fn byte_runs(s: Seq<char>) -> Seq<(int, int)> {
    in_bytes(s, digit_runs(s))
}

proof fn lemma_in_bytes_push(s: Seq<char>, runs: Seq<(int, int)>, run: (int, int))
    ensures
        in_bytes(s, runs.push(run)) == in_bytes(s, runs).push(
            (byte_offset(s, run.0), byte_offset(s, run.1)),
        ),
{
    let more = runs.push(run);
    assert forall|k: int| 0 <= k < more.len() implies in_bytes(s, more)[k] == in_bytes(
        s,
        runs,
    ).push((byte_offset(s, run.0), byte_offset(s, run.1)))[k] by {
        if k < runs.len() {
            assert(more[k] == runs[k]);
        }
    }
    assert(in_bytes(s, more) =~= in_bytes(s, runs).push(
        (byte_offset(s, run.0), byte_offset(s, run.1)),
    ));
}

/// `[a, b)` is a run of digit bytes that cannot be extended on either side.
pub open spec fn is_maximal_byte_run(bytes: Seq<u8>, a: int, b: int) -> bool {
    &&& 0 <= a < b <= bytes.len()
    &&& forall|i: int| a <= i < b ==> is_digit_byte(#[trigger] bytes[i])
    &&& (a == 0 || !is_digit_byte(bytes[a - 1]))
    &&& (b == bytes.len() || !is_digit_byte(bytes[b]))
}

/// The byte at `i` is that of a digit exactly if the character it belongs
/// to is a digit, and then it is the whole character.
proof fn lemma_digit_byte(s: Seq<char>, i: int, p: int)
    requires
        0 <= p < s.len(),
        byte_offset(s, p) <= i < byte_offset(s, p + 1),
    ensures
        is_digit_byte(encode_utf8(s)[i]) == is_digit(s[p]),
        is_digit(s[p]) ==> i == byte_offset(s, p) && byte_offset(s, p + 1) == i + 1,
{
    lemma_character_bytes(s, p);
    lemma_encoded_digit(s[p]);
    let j = i - byte_offset(s, p);
    assert(encode_utf8(s)[byte_offset(s, p) + j] == encode_scalar(s[p] as u32)[j]);
}

/// The byte ranges that `byte_runs` gives are exactly the maximal runs of
/// digit bytes in the UTF-8 encoding of `s`: each one is maximal, they come
/// in increasing order with a gap between neighbours, and every digit byte
/// lies in one of them.
pub proof fn lemma_byte_runs_are_maximal(s: Seq<char>)
    ensures
        byte_runs(s).len() == digit_runs(s).len(),
        forall|k: int|
            0 <= k < byte_runs(s).len() ==> is_maximal_byte_run(
                encode_utf8(s),
                (#[trigger] byte_runs(s)[k]).0,
                byte_runs(s)[k].1,
            ),
        forall|k: int|
            0 <= k < byte_runs(s).len() - 1 ==> (#[trigger] byte_runs(s)[k]).1 < byte_runs(s)[k
                + 1].0,
        forall|i: int|
            0 <= i < encode_utf8(s).len() && is_digit_byte(#[trigger] encode_utf8(s)[i])
                ==> exists|k: int|
                0 <= k < byte_runs(s).len() && (#[trigger] byte_runs(s)[k]).0 <= i < byte_runs(
                    s,
                )[k].1,
{
    let bytes = encode_utf8(s);
    let runs = digit_runs(s);
    let ranges = byte_runs(s);
    lemma_digit_runs_are_maximal(s);
    lemma_byte_offset_ends(s);
    assert forall|k: int| 0 <= k < ranges.len() implies is_maximal_byte_run(
        bytes,
        (#[trigger] ranges[k]).0,
        ranges[k].1,
    ) by {
        let a = runs[k].0;
        let b = runs[k].1;
        assert(is_maximal_run(s, a, b));
        lemma_byte_offsets_climb(s, a, b);
        lemma_byte_offsets_climb(s, 0, a);
        assert forall|i: int| byte_offset(s, a) <= i < byte_offset(s, b) implies is_digit_byte(
            #[trigger] bytes[i],
        ) by {
            let p = lemma_character_of_byte(s, i);
            if p < a {
                lemma_byte_offsets_climb(s, p + 1, a);
            }
            if p >= b {
                lemma_byte_offsets_climb(s, b, p);
            }
            lemma_digit_byte(s, i, p);
        }
        if byte_offset(s, a) > 0 {
            let i = byte_offset(s, a) - 1;
            let p = lemma_character_of_byte(s, i);
            if p + 1 < a {
                lemma_byte_offsets_climb(s, p + 1, a - 1);
                lemma_byte_offsets_climb(s, a - 1, a);
            }
            if p >= a {
                lemma_byte_offsets_climb(s, a, p);
            }
            lemma_digit_byte(s, i, p);
        }
        if byte_offset(s, b) < bytes.len() {
            assert(b < s.len());
            lemma_character_bytes(s, b);
            lemma_digit_byte(s, byte_offset(s, b), b);
        }
    }
    assert forall|k: int| 0 <= k < ranges.len() - 1 implies (#[trigger] ranges[k]).1 < ranges[k
        + 1].0 by {
        assert(runs[k].1 < runs[k + 1].0);
        assert(is_maximal_run(s, runs[k + 1].0, runs[k + 1].1));
        lemma_byte_offsets_climb(s, runs[k].1, runs[k + 1].0);
    }
    assert forall|i: int| 0 <= i < bytes.len() && is_digit_byte(#[trigger] bytes[i]) implies exists|
        k: int,
    |
        0 <= k < ranges.len() && (#[trigger] ranges[k]).0 <= i < ranges[k].1 by {
        let p = lemma_character_of_byte(s, i);
        lemma_digit_byte(s, i, p);
        let k = choose|k: int| 0 <= k < runs.len() && (#[trigger] runs[k]).0 <= p < runs[k].1;
        assert(is_maximal_run(s, runs[k].0, runs[k].1));
        lemma_byte_offsets_climb(s, runs[k].0, p);
        lemma_byte_offsets_climb(s, p + 1, runs[k].1);
        assert(ranges[k].0 <= i < ranges[k].1);
    }
}

/// The position pairs of the maximal digit runs of `s`, in order of
/// appearance: for each run the byte offset of its first digit and the
/// byte offset behind its last.
pub fn extract_number_positions(s: &str) -> (positions: Vec<(usize, usize)>)
    ensures
        positions_view(positions@) == byte_runs(s@),
{
    let mut positions: Vec<(usize, usize)> = Vec::new();
    let mut start_index: Option<usize> = None;
    let total = s.as_bytes().len();
    let mut at: usize = 0;
    proof {
        lemma_byte_offset_ends(s@);
        assert(positions_view(positions@) =~= in_bytes(s@, scan(s@, 0).runs));
    }
    for c in it: s.chars()
        invariant
            it.seq() == s@,
            total == encode_utf8(s@).len(),
            at == byte_offset(s@, it.index() as int),
            positions_view(positions@) == in_bytes(s@, scan(s@, it.index() as int).runs),
            match start_index {
                Some(start) => scan(s@, it.index() as int).open is Some && start == byte_offset(
                    s@,
                    scan(s@, it.index() as int).open->0,
                ),
                None => scan(s@, it.index() as int).open is None,
            },
    {
        let ghost i = it.index() as int;
        proof {
            lemma_character_bytes(s@, i);
        }
        let bytes = char_width(c);
        if is_ascii_digit(c) {
            if start_index.is_none() {
                start_index = Some(at);
            }
            assert(in_bytes(s@, scan(s@, i + 1).runs) =~= in_bytes(s@, scan(s@, i).runs));
        } else if let Some(start) = start_index {
            let ghost before = positions_view(positions@);
            positions.push((start, at));
            start_index = None;
            proof {
                let open = scan(s@, i).open->0;
                lemma_in_bytes_push(s@, scan(s@, i).runs, (open, i));
                assert(positions_view(positions@) =~= before.push((start as int, at as int)));
            }
        } else {
            assert(in_bytes(s@, scan(s@, i + 1).runs) =~= in_bytes(s@, scan(s@, i).runs));
        }
        at += bytes;
    }
    if let Some(start) = start_index {
        let ghost before = positions_view(positions@);
        positions.push((start, at));
        proof {
            let whole = scan(s@, s@.len() as int);
            lemma_in_bytes_push(s@, whole.runs, (whole.open->0, s@.len() as int));
            assert(positions_view(positions@) =~= before.push((start as int, at as int)));
        }
    }
    positions
}

/// One segment of a natural sort key: a stretch of text and the number that
/// follows it. The last segment of a key has no number.
pub struct NaturalSortKeyPart {
    pub text: String,
    pub number: Option<usize>,
}

/// A key segment as a mathematical value.
pub struct KeyPart {
    pub text: Seq<char>,
    pub number: Option<nat>,
}

impl View for NaturalSortKeyPart {
    type V = KeyPart;

    open spec fn view(&self) -> KeyPart {
        KeyPart {
            text: self.text@,
            number: match self.number {
                Some(n) => Some(n as nat),
                None => None,
            },
        }
    }
}

/// The segments of a key held in a vector, as mathematical values.
pub open spec fn key_view(key: Seq<NaturalSortKeyPart>) -> Seq<KeyPart> {
    key.map_values(|part: NaturalSortKeyPart| part@)
}

/// Where the text of segment `k` begins: after the digit run before it.
pub open spec fn text_start(runs: Seq<(int, int)>, k: int) -> int {
    if k == 0 {
        0
    } else {
        runs[k - 1].1
    }
}

/// The natural sort key of `s`: one segment for each maximal digit run,
/// holding the text before the run and the run's value (none when the value
/// does not fit a machine word), then a last segment with the text after the
/// last run and no number.
pub open spec fn natural_key(s: Seq<char>) -> Seq<KeyPart> {
    let runs = digit_runs(s);
    Seq::new(
        runs.len() + 1,
        |k: int|
            if k < runs.len() {
                KeyPart {
                    text: s.subrange(text_start(runs, k), runs[k].0),
                    number: parse_unsigned(s.subrange(runs[k].0, runs[k].1), usize::MAX as nat),
                }
            } else {
                KeyPart { text: s.subrange(text_start(runs, k), s.len() as int), number: None }
            },
    )
}

/// Builds the natural sort key of `s`.
pub fn generate_natural_sort_key(s: &str) -> (key: Vec<NaturalSortKeyPart>)
    ensures
        key_view(key@) == natural_key(s@),
{
    let positions = digit_run_positions(s);
    let length = s.unicode_len();
    let mut key: Vec<NaturalSortKeyPart> = Vec::new();
    let mut last: usize = 0;
    let mut k: usize = 0;
    let ghost runs = digit_runs(s@);
    while k < positions.len()
        invariant
            runs == digit_runs(s@),
            positions_view(positions@) == runs,
            length == s@.len(),
            k <= positions.len(),
            last == text_start(runs, k as int),
            last <= length,
            key.len() == k,
            forall|j: int| 0 <= j < k ==> (#[trigger] key[j])@ == natural_key(s@)[j],
        decreases positions.len() - k,
    {
        proof {
            lemma_digit_runs_are_maximal(s@);
            assert(runs[k as int] == (positions[k as int].0 as int, positions[k as int].1 as int));
            if k > 0 {
                assert(runs[k as int - 1].1 < runs[k as int].0);
            }
        }
        let (start, end) = positions[k];
        let text = String::from_str(s.substring_char(last, start));
        let number = match parse_number(s.substring_char(start, end), usize::MAX as u64) {
            Some(n) => Some(n as usize),
            None => None,
        };
        key.push(NaturalSortKeyPart { text, number });
        last = end;
        k += 1;
    }
    key.push(NaturalSortKeyPart { text: String::from_str(s.substring_char(last, length)), number: None });
    assert(key_view(key@) =~= natural_key(s@));
    key
}

/// A name that begins with a run of `length` digits has a key whose first
/// segment is the empty text and the value of that run.
pub proof fn lemma_leading_number(s: Seq<char>, length: int)
    requires
        1 <= length <= s.len(),
        forall|i: int| 0 <= i < length ==> is_digit(#[trigger] s[i]),
        length == s.len() || !is_digit(s[length]),
    ensures
        natural_key(s).len() >= 2,
        natural_key(s)[0] == (KeyPart {
            text: Seq::empty(),
            number: parse_unsigned(s.take(length), usize::MAX as nat),
        }),
{
    lemma_scan_starts_at_zero(s, s.len() as int);
    lemma_digit_runs_are_maximal(s);
    let runs = digit_runs(s);
    assert(runs.len() >= 1 && runs[0].0 == 0);
    assert(is_maximal_run(s, runs[0].0, runs[0].1));
    let end = runs[0].1;
    assert(end == length) by {
        if end < length {
            assert(is_digit(s[end]));
        }
        if end > length {
            assert(is_digit(s[length]));
        }
    }
    assert(s.subrange(0, 0) == Seq::<char>::empty());
    assert(s.subrange(0, length) == s.take(length));
}

/// The verdict of comparing two values: the first comes before the second,
/// they rank the same, or the first comes after.
#[derive(Clone, Copy, Debug, PartialEq, Eq, Structural)]
pub enum Precedence {
    Before,
    Same,
    After,
}

/// Lexical comparison of `a` and `b` from position `i` on, character by
/// character in code point order; a text that ends first comes first.
pub open spec fn text_order_from(a: Seq<char>, b: Seq<char>, i: int) -> Precedence
    decreases a.len() - i,
{
    if i >= a.len() {
        if i >= b.len() {
            Precedence::Same
        } else {
            Precedence::Before
        }
    } else if i >= b.len() {
        Precedence::After
    } else if a[i] < b[i] {
        Precedence::Before
    } else if a[i] > b[i] {
        Precedence::After
    } else {
        text_order_from(a, b, i + 1)
    }
}

/// Lexical comparison of two texts.
pub open spec fn text_order(a: Seq<char>, b: Seq<char>) -> Precedence {
    text_order_from(a, b, 0)
}

/// Numeric comparison of two number segments; an absent number comes before
/// every number.
pub open spec fn number_order(a: Option<nat>, b: Option<nat>) -> Precedence {
    match (a, b) {
        (None, None) => Precedence::Same,
        (None, Some(_)) => Precedence::Before,
        (Some(_), None) => Precedence::After,
        (Some(x), Some(y)) => if x < y {
            Precedence::Before
        } else if x > y {
            Precedence::After
        } else {
            Precedence::Same
        },
    }
}

/// Comparison of two key segments: by text, and by number where the texts
/// are the same.
pub open spec fn part_order(a: KeyPart, b: KeyPart) -> Precedence {
    if text_order(a.text, b.text) != Precedence::Same {
        text_order(a.text, b.text)
    } else {
        number_order(a.number, b.number)
    }
}

/// Comparison of two keys from segment `i` on: the first pair of segments
/// that differ decides; where one key runs out first, the keys rank the same.
pub open spec fn key_order_from(a: Seq<KeyPart>, b: Seq<KeyPart>, i: int) -> Precedence
    decreases a.len() - i,
{
    if i >= a.len() || i >= b.len() {
        Precedence::Same
    } else if part_order(a[i], b[i]) != Precedence::Same {
        part_order(a[i], b[i])
    } else {
        key_order_from(a, b, i + 1)
    }
}

/// Comparison of two keys.
pub open spec fn key_order(a: Seq<KeyPart>, b: Seq<KeyPart>) -> Precedence {
    key_order_from(a, b, 0)
}

/// Natural comparison of two names: the comparison of their keys.
pub open spec fn natural_order(a: Seq<char>, b: Seq<char>) -> Precedence {
    key_order(natural_key(a), natural_key(b))
}

/// The verdict with the two sides exchanged.
pub open spec fn reversed(verdict: Precedence) -> Precedence {
    match verdict {
        Precedence::Before => Precedence::After,
        Precedence::Same => Precedence::Same,
        Precedence::After => Precedence::Before,
    }
}

proof fn lemma_text_order_reverses(a: Seq<char>, b: Seq<char>, i: int)
    requires
        0 <= i,
    ensures
        text_order_from(b, a, i) == reversed(text_order_from(a, b, i)),
        text_order_from(a, a, i) == Precedence::Same,
    decreases a.len() - i,
{
    if i < a.len() {
        lemma_text_order_reverses(a, a, i + 1);
        if i < b.len() && a[i] == b[i] {
            lemma_text_order_reverses(a, b, i + 1);
        }
    }
}

proof fn lemma_key_order_reverses(a: Seq<KeyPart>, b: Seq<KeyPart>, i: int)
    requires
        0 <= i,
    ensures
        key_order_from(b, a, i) == reversed(key_order_from(a, b, i)),
        key_order_from(a, a, i) == Precedence::Same,
    decreases a.len() - i,
{
    if i < a.len() {
        lemma_text_order_reverses(a[i].text, a[i].text, 0);
        lemma_key_order_reverses(a, a, i + 1);
        if i < b.len() {
            lemma_text_order_reverses(a[i].text, b[i].text, 0);
            lemma_key_order_reverses(a, b, i + 1);
        }
    }
}

/// Comparing the other way round gives the opposite verdict, and a name
/// ranks the same as itself.
pub proof fn lemma_natural_order_reverses(a: Seq<char>, b: Seq<char>)
    ensures
        natural_order(b, a) == reversed(natural_order(a, b)),
        natural_order(a, a) == Precedence::Same,
{
    lemma_key_order_reverses(natural_key(a), natural_key(b), 0);
    lemma_key_order_reverses(natural_key(a), natural_key(a), 0);
}

/// Compares two texts lexically.
pub fn compare_text(a: &str, b: &str) -> (verdict: Precedence)
    ensures
        verdict == text_order(a@, b@),
{
    let left = chars_of(a);
    let right = chars_of(b);
    let mut i: usize = 0;
    while i < left.len() && i < right.len()
        invariant
            left@ == a@,
            right@ == b@,
            i <= left.len(),
            i <= right.len(),
            text_order(a@, b@) == text_order_from(a@, b@, i as int),
        decreases left.len() - i,
    {
        if left[i] < right[i] {
            return Precedence::Before;
        }
        if left[i] > right[i] {
            return Precedence::After;
        }
        i += 1;
    }
    if i < right.len() {
        Precedence::Before
    } else if i < left.len() {
        Precedence::After
    } else {
        Precedence::Same
    }
}

/// Compares two number segments.
pub fn compare_numbers(a: Option<usize>, b: Option<usize>) -> (verdict: Precedence)
    ensures
        verdict == number_order(
            match a {
                Some(x) => Some(x as nat),
                None => None,
            },
            match b {
                Some(y) => Some(y as nat),
                None => None,
            },
        ),
{
    match (a, b) {
        (None, None) => Precedence::Same,
        (None, Some(_)) => Precedence::Before,
        (Some(_), None) => Precedence::After,
        (Some(x), Some(y)) => if x < y {
            Precedence::Before
        } else if x > y {
            Precedence::After
        } else {
            Precedence::Same
        },
    }
}

/// Compares two keys segment by segment.
pub fn compare_keys(a: &Vec<NaturalSortKeyPart>, b: &Vec<NaturalSortKeyPart>) -> (verdict:
    Precedence)
    ensures
        verdict == key_order(key_view(a@), key_view(b@)),
{
    let mut i: usize = 0;
    while i < a.len() && i < b.len()
        invariant
            i <= a.len(),
            i <= b.len(),
            key_order(key_view(a@), key_view(b@)) == key_order_from(
                key_view(a@),
                key_view(b@),
                i as int,
            ),
        decreases a.len() - i,
    {
        assert(key_view(a@)[i as int] == a[i as int]@);
        assert(key_view(b@)[i as int] == b[i as int]@);
        let by_text = compare_text(a[i].text.as_str(), b[i].text.as_str());
        if by_text != Precedence::Same {
            return by_text;
        }
        let by_number = compare_numbers(a[i].number, b[i].number);
        if by_number != Precedence::Same {
            return by_number;
        }
        i += 1;
    }
    Precedence::Same
}

/// Compares two names in natural order.
pub fn compare_natural(a: &str, b: &str) -> (verdict: Precedence)
    ensures
        verdict == natural_order(a@, b@),
{
    let left = generate_natural_sort_key(a);
    let right = generate_natural_sort_key(b);
    compare_keys(&left, &right)
}

} // verus!
