//! The names of the files of an archive: the hash that stands for a path
//! in the metadata, the dictionary that leads from a hash back to its path,
//! and the name under which a recovered file is stored.

use std::collections::HashMap;
use vstd::prelude::*;
use vstd::std_specs::hash::group_hash_axioms;
use vstd::string::{StringExecFns, StringSliceAdditionalSpecFns};
use vstd::utf8::{
    encode_utf8, encode_utf8_valid_utf8, is_char_boundary,
    is_char_boundary_iff_not_is_continuation_byte, is_char_boundary_start_end_of_seq, valid_utf8,
};

verus! {

/// Multiplier of the rolling path hash.
pub const HASH_PRIME: u64 = 0x85;

/// The path hash of a byte string: starting from zero, every byte in turn
/// replaces the accumulator `h` by `h * 0x85 + byte`, kept to 64 bits.
pub open spec fn hash_bytes(bytes: Seq<u8>) -> nat
    decreases bytes.len(),
{
    if bytes.len() == 0 {
        0
    } else {
        ((hash_bytes(bytes.drop_last()) * 0x85 + bytes.last() as nat) % 0x1_0000_0000_0000_0000) as nat
    }
}

/// A path hash fits in 64 bits.
pub proof fn lemma_hash_bound(bytes: Seq<u8>)
    ensures
        hash_bytes(bytes) < 0x1_0000_0000_0000_0000,
{
}

/// The empty path hashes to zero.
pub proof fn lemma_hash_empty()
    ensures
        hash_bytes(Seq::<u8>::empty()) == 0,
{
}

/// A path of one byte hashes to that byte.
pub proof fn lemma_hash_single(byte: u8)
    ensures
        hash_bytes(seq![byte]) == byte,
{
    assert(seq![byte].drop_last() =~= Seq::<u8>::empty());
    assert(hash_bytes(Seq::<u8>::empty()) == 0);
}

/// One more byte at the end of a path moves the hash on by one step.
pub proof fn lemma_hash_push(bytes: Seq<u8>, byte: u8)
    ensures
        hash_bytes(bytes.push(byte)) == (hash_bytes(bytes) * 0x85 + byte) % 0x1_0000_0000_0000_0000,
{
    assert(bytes.push(byte).drop_last() =~= bytes);
}

/// The hash of a path depends on its text alone: the same text hashes to
/// the same value every time.
pub proof fn lemma_hash_same_path(path: &str, again: &str)
    requires
        path@ == again@,
    ensures
        hash_bytes(path.spec_bytes()) == hash_bytes(again.spec_bytes()),
{
}

/// One step of the hash keeps two accumulators apart, and two bytes apart.
proof fn lemma_step_keeps_apart(h1: u64, h2: u64, c1: u8, c2: u8)
    ensures
        h1 != h2 ==> (h1 * 0x85 + c1) % 0x1_0000_0000_0000_0000 != (h2 * 0x85 + c1)
            % 0x1_0000_0000_0000_0000,
        c1 != c2 ==> (h1 * 0x85 + c1) % 0x1_0000_0000_0000_0000 != (h1 * 0x85 + c2)
            % 0x1_0000_0000_0000_0000,
{
    assert(h1 != h2 ==> (h1 * 0x85 + c1) % 0x1_0000_0000_0000_0000 != (h2 * 0x85 + c1)
        % 0x1_0000_0000_0000_0000) by (bit_vector);
    assert(c1 != c2 ==> (h1 * 0x85 + c1) % 0x1_0000_0000_0000_0000 != (h1 * 0x85 + c2)
        % 0x1_0000_0000_0000_0000) by (bit_vector);
}

/// The hash is sensitive to every byte: two paths of one length that differ
/// in exactly one byte never hash alike.
pub proof fn lemma_hash_one_byte_apart(a: Seq<u8>, b: Seq<u8>, at: int)
    requires
        a.len() == b.len(),
        0 <= at < a.len(),
        a[at] != b[at],
        forall|i: int| 0 <= i < a.len() && i != at ==> a[i] == b[i],
    ensures
        hash_bytes(a) != hash_bytes(b),
    decreases a.len(),
{
    let h1 = hash_bytes(a.drop_last());
    let h2 = hash_bytes(b.drop_last());
    if at == a.len() - 1 {
        assert(a.drop_last() =~= b.drop_last());
        lemma_step_keeps_apart(h1 as u64, h1 as u64, a.last(), b.last());
    } else {
        lemma_hash_one_byte_apart(a.drop_last(), b.drop_last(), at);
        lemma_step_keeps_apart(h1 as u64, h2 as u64, a.last(), a.last());
    }
}

/// Hashes a path as the archive does: over its UTF-8 bytes, in order, with
/// no case folding.
pub fn hash_path(input: &str) -> (hash: u64)
    ensures
        hash as nat == hash_bytes(input.spec_bytes()),
{
    let bytes = input.as_bytes();
    let mut result: u64 = 0;
    let mut i: usize = 0;
    while i < bytes.len()
        invariant
            i <= bytes.len(),
            result as nat == hash_bytes(bytes@.take(i as int)),
        decreases bytes.len() - i,
    {
        proof {
            lemma_hash_push(bytes@.take(i as int), bytes@[i as int]);
            assert(bytes@.take(i + 1) =~= bytes@.take(i as int).push(bytes@[i as int]));
        }
        result = result.wrapping_mul(HASH_PRIME).wrapping_add(bytes[i] as u64);
        i = i + 1;
    }
    proof {
        assert(bytes@.take(i as int) =~= bytes@);
    }
    result
}

/// The byte that ends a line of a word list.
pub const NEWLINE: u8 = 0x0a;

/// The byte that is dropped where it stands right before the end of a line.
pub const CARRIAGE_RETURN: u8 = 0x0d;

/// Offset of the first newline of `text`, or its length where it has none.
pub open spec fn line_end(text: Seq<u8>) -> nat
    decreases text.len(),
{
    if text.len() == 0 || text[0] == NEWLINE {
        0
    } else {
        1 + line_end(text.drop_first())
    }
}

/// `line` without the carriage return at its end, if it has one there.
pub open spec fn without_carriage_return(line: Seq<u8>) -> Seq<u8> {
    if line.len() > 0 && line.last() == CARRIAGE_RETURN {
        line.drop_last()
    } else {
        line
    }
}

/// The lines of a word list. A line ends at a newline, which does not
/// belong to it, nor does a carriage return right before that newline. What
/// follows the last newline is a line too unless it is empty, and is taken
/// as it stands.
pub open spec fn lines_of(text: Seq<u8>) -> Seq<Seq<u8>>
    decreases text.len(),
{
    if text.len() == 0 {
        Seq::empty()
    } else {
        let end = line_end(text) as int;
        if end >= text.len() {
            seq![text]
        } else {
            seq![without_carriage_return(text.take(end))] + lines_of(text.skip(end + 1))
        }
    }
}

/// `names` after every line, in order, has been entered under its hash. A
/// later line takes the place of an earlier one with the same hash.
pub open spec fn with_lines(names: Map<u64, Seq<u8>>, lines: Seq<Seq<u8>>) -> Map<u64, Seq<u8>>
    decreases lines.len(),
{
    if lines.len() == 0 {
        names
    } else {
        with_lines(names.insert(hash_bytes(lines[0]) as u64, lines[0]), lines.drop_first())
    }
}

/// The dictionary of a word list: every line of it under its hash.
pub open spec fn dictionary_of(text: Seq<u8>) -> Map<u64, Seq<u8>> {
    with_lines(Map::empty(), lines_of(text))
}

/// What a dictionary holds, each path as its UTF-8 bytes.
pub open spec fn dictionary_names(dictionary: Map<u64, String>) -> Map<u64, Seq<u8>> {
    Map::new(|hash: u64| dictionary.contains_key(hash), |hash: u64| encode_utf8(dictionary[hash]@))
}

/// The first newline is where no byte before is one.
pub proof fn lemma_line_end(text: Seq<u8>, end: int)
    requires
        0 <= end <= text.len(),
        forall|i: int| 0 <= i < end ==> text[i] != NEWLINE,
        end < text.len() ==> text[end] == NEWLINE,
    ensures
        line_end(text) == end,
    decreases text.len(),
{
    if end > 0 {
        let rest = text.drop_first();
        assert forall|i: int| 0 <= i < end - 1 implies rest[i] != NEWLINE by {
            assert(rest[i] == text[i + 1]);
        }
        lemma_line_end(rest, end - 1);
    }
}

/// Every path of a dictionary stands under its own hash, if that held of
/// the names it was built on.
pub proof fn lemma_with_lines_keys(names: Map<u64, Seq<u8>>, lines: Seq<Seq<u8>>, hash: u64)
    requires
        forall|h: u64| names.contains_key(h) ==> hash_bytes(#[trigger] names[h]) == h,
        with_lines(names, lines).contains_key(hash),
    ensures
        hash_bytes(with_lines(names, lines)[hash]) == hash,
    decreases lines.len(),
{
    if lines.len() > 0 {
        let next = names.insert(hash_bytes(lines[0]) as u64, lines[0]);
        lemma_hash_bound(lines[0]);
        assert forall|h: u64| next.contains_key(h) implies hash_bytes(#[trigger] next[h]) == h by {
            if h != hash_bytes(lines[0]) as u64 {
                assert(names.contains_key(h));
            }
        }
        lemma_with_lines_keys(next, lines.drop_first(), hash);
    }
}

/// Looking a hash up in the dictionary of a word list gives a path that
/// hashes to it.
pub proof fn lemma_dictionary_keys(text: Seq<u8>, hash: u64)
    requires
        dictionary_of(text).contains_key(hash),
    ensures
        hash_bytes(dictionary_of(text)[hash]) == hash,
{
    lemma_with_lines_keys(Map::empty(), lines_of(text), hash);
}

/// The text before a newline, and the text from it on, can each be taken
/// out of a string.
proof fn lemma_newline_is_char_boundary(bytes: Seq<u8>, at: int)
    requires
        valid_utf8(bytes),
        0 <= at < bytes.len(),
        bytes[at] == NEWLINE || bytes[at] == CARRIAGE_RETURN,
    ensures
        is_char_boundary(bytes, at),
{
    is_char_boundary_iff_not_is_continuation_byte(bytes, at);
}

/// The text after a leading newline can be taken out of a string.
proof fn lemma_after_newline_is_char_boundary(bytes: Seq<u8>)
    requires
        valid_utf8(bytes),
        bytes.len() > 0,
        bytes[0] == NEWLINE,
    ensures
        is_char_boundary(bytes, 1),
{
    reveal_with_fuel(is_char_boundary, 2);
    reveal_with_fuel(valid_utf8, 2);
}

/// Cuts the first line off `text`: gives the line, without the newline that
/// ends it and the carriage return before that, and what follows the
/// newline.
fn split_first_line<'a>(text: &'a str) -> (parts: (&'a str, &'a str))
    requires
        text.spec_bytes().len() > 0,
    ensures
        lines_of(text.spec_bytes()) == seq![parts.0.spec_bytes()] + lines_of(
            parts.1.spec_bytes(),
        ),
        parts.1.spec_bytes().len() < text.spec_bytes().len(),
{
    broadcast use encode_utf8_valid_utf8;

    let bytes = text.as_bytes();
    let mut end: usize = 0;
    while end < bytes.len() && bytes[end] != NEWLINE
        invariant
            end <= bytes.len(),
            forall|i: int| 0 <= i < end ==> bytes@[i] != NEWLINE,
        decreases bytes.len() - end,
    {
        end = end + 1;
    }
    proof {
        lemma_line_end(bytes@, end as int);
        is_char_boundary_start_end_of_seq(bytes@);
        if end < bytes.len() {
            lemma_newline_is_char_boundary(bytes@, end as int);
        }
    }
    let (line, tail) = text.split_at(end);
    if end == bytes.len() {
        proof {
            assert(line.spec_bytes() =~= bytes@);
        }
        return (line, tail);
    }
    proof {
        lemma_after_newline_is_char_boundary(tail.spec_bytes());
    }
    let (_newline, rest) = tail.split_at(1);
    proof {
        assert(rest.spec_bytes() =~= bytes@.skip(end + 1));
    }
    let line_bytes = line.as_bytes();
    if end > 0 && line_bytes[end - 1] == CARRIAGE_RETURN {
        proof {
            lemma_newline_is_char_boundary(line_bytes@, end - 1);
        }
        let (trimmed, _carriage_return) = line.split_at(end - 1);
        (trimmed, rest)
    } else {
        (line, rest)
    }
}

/// Builds the dictionary of a word list: every line of `contents` is
/// entered under its path hash. Where two lines have the same hash the
/// later one stays.
pub fn build_dictionary(contents: &str) -> (result: HashMap<u64, String>)
    ensures
        dictionary_names(result@) == dictionary_of(contents.spec_bytes()),
{
    broadcast use group_hash_axioms;

    let mut result: HashMap<u64, String> = HashMap::new();
    let mut rest: &str = contents;
    proof {
        assert(dictionary_names(result@) =~= Map::<u64, Seq<u8>>::empty());
    }
    while rest.as_bytes().len() > 0
        invariant
            with_lines(dictionary_names(result@), lines_of(rest.spec_bytes())) == dictionary_of(
                contents.spec_bytes(),
            ),
        decreases rest.spec_bytes().len(),
    {
        let ghost before = dictionary_names(result@);
        let (line, after) = split_first_line(rest);
        let hash: u64 = hash_path(line);
        result.insert(hash, line.to_owned());
        proof {
            let lines = lines_of(rest.spec_bytes());
            assert(lines.drop_first() =~= lines_of(after.spec_bytes()));
            assert(dictionary_names(result@) =~= before.insert(hash, line.spec_bytes()));
        }
        rest = after;
    }
    result
}

/// The character of a decimal digit.
pub open spec fn digit_char(digit: nat) -> char {
    if digit == 0 {
        '0'
    } else if digit == 1 {
        '1'
    } else if digit == 2 {
        '2'
    } else if digit == 3 {
        '3'
    } else if digit == 4 {
        '4'
    } else if digit == 5 {
        '5'
    } else if digit == 6 {
        '6'
    } else if digit == 7 {
        '7'
    } else if digit == 8 {
        '8'
    } else {
        '9'
    }
}

/// A number written in decimal, without sign or leading zeros.
pub open spec fn decimal(number: nat) -> Seq<char>
    decreases number,
{
    if number < 10 {
        seq![digit_char(number)]
    } else {
        decimal(number / 10) + seq![digit_char(number % 10)]
    }
}

/// The name under which the file with path hash `hash` is stored: its path
/// from the dictionary below `sound/`, or, where the dictionary does not
/// know the hash, the hash in decimal below `sound/unknown/`.
pub open spec fn output_name(dictionary: Map<u64, String>, hash: u64) -> Seq<char> {
    if dictionary.contains_key(hash) {
        "sound/"@ + dictionary[hash]@
    } else {
        "sound/unknown/"@ + decimal(hash as nat) + ".bin"@
    }
}

/// One decimal digit as text.
fn digit_str(digit: u64) -> (text: &'static str)
    requires
        digit < 10,
    ensures
        text@ == seq![digit_char(digit as nat)],
{
    proof {
        reveal_strlit("0");
        reveal_strlit("1");
        reveal_strlit("2");
        reveal_strlit("3");
        reveal_strlit("4");
        reveal_strlit("5");
        reveal_strlit("6");
        reveal_strlit("7");
        reveal_strlit("8");
        reveal_strlit("9");
    }
    let text = if digit == 0 {
        "0"
    } else if digit == 1 {
        "1"
    } else if digit == 2 {
        "2"
    } else if digit == 3 {
        "3"
    } else if digit == 4 {
        "4"
    } else if digit == 5 {
        "5"
    } else if digit == 6 {
        "6"
    } else if digit == 7 {
        "7"
    } else if digit == 8 {
        "8"
    } else {
        "9"
    };
    text
}

/// Writes a number in decimal.
pub fn decimal_string(number: u64) -> (text: String)
    ensures
        text@ == decimal(number as nat),
    decreases number,
{
    if number < 10 {
        String::from_str(digit_str(number))
    } else {
        let mut text = decimal_string(number / 10);
        text.append(digit_str(number % 10));
        text
    }
}

/// The name under which the file with path hash `hash` is stored.
pub fn output_path(dictionary: &HashMap<u64, String>, hash: u64) -> (path: String)
    ensures
        path@ == output_name(dictionary@, hash),
{
    broadcast use group_hash_axioms;

    match dictionary.get(&hash) {
        Some(name) => {
            let mut path = String::from_str("sound/");
            path.append(name.as_str());
            path
        },
        None => {
            let mut path = String::from_str("sound/unknown/");
            path.append(decimal_string(hash).as_str());
            path.append(".bin");
            path
        },
    }
}

} // verus!
