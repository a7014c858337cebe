//! Small helpers: swapping the nesting of `Option` and `Result`, bytes and
//! their hexadecimal text, and the sorting key of a ticket.

use crate::text::{chars_of, find_char, parse_u32, read_u32, split_once};
use vstd::prelude::*;
use vstd::string::StrSliceExecFns;

verus! {

/// Swaps the nesting of a `Result` of an `Option` into an `Option` of a
/// `Result`.
pub fn inside_out_result<T, E>(result: Result<Option<T>, E>) -> (r: Option<Result<T, E>>)
    ensures
        r == match result {
            Ok(Some(t)) => Some(Ok::<T, E>(t)),
            Ok(None) => None,
            Err(e) => Some(Err(e)),
        },
{
    match result {
        Ok(Some(t)) => Some(Ok(t)),
        Ok(None) => None,
        Err(e) => Some(Err(e)),
    }
}

/// Swaps the nesting of an `Option` of a `Result` into a `Result` of an
/// `Option`.
pub fn inside_out_option<T, E>(option: Option<Result<T, E>>) -> (r: Result<Option<T>, E>)
    ensures
        r == match option {
            Some(Ok(t)) => Ok::<Option<T>, E>(Some(t)),
            Some(Err(e)) => Err(e),
            None => Ok(None),
        },
{
    match option {
        Some(Ok(t)) => Ok(Some(t)),
        Some(Err(e)) => Err(e),
        None => Ok(None),
    }
}

/// Calls `TryFrom<Vec<T>>` for `[T; N]`, which hands back the contents of
/// the vector as an array where its length is `N`, and the vector itself
/// where it is not.
#[verifier::external_body]
fn array_from_vec<T, const N: usize>(vec: Vec<T>) -> (r: Result<[T; N], Vec<T>>)
    ensures
        match r {
            Ok(array) => vec.len() == N && array@ == vec@,
            Err(back) => vec.len() != N && back == vec,
        },
{
    vec.try_into()
}

/// Turns a vector of length `N` into an array.
pub fn vec_to_arr<T, const N: usize>(vec: Vec<T>) -> (r: [T; N])
    requires
        vec.len() == N,
    ensures
        r@ == vec@,
{
    match array_from_vec(vec) {
        Ok(array) => array,
        Err(_) => vstd::pervasive::unreached(),
    }
}

/// Why a text is not the hexadecimal form of a sequence of bytes.
#[derive(Clone, Copy, Debug, PartialEq, Eq, Structural)]
pub enum HexError {
    /// The number of characters is odd.
    OddLength,
    /// A character is no hexadecimal digit.
    InvalidDigit,
}

/// Whether `c` is a hexadecimal digit, in either case.
pub open spec fn is_hex_digit(c: char) -> bool {
    ('0' <= c <= '9') || ('a' <= c <= 'f') || ('A' <= c <= 'F')
}

/// The number that the hexadecimal digit `c` stands for.
pub open spec fn hex_value(c: char) -> nat {
    if '0' <= c <= '9' {
        (c as u32 - '0' as u32) as nat
    } else if 'a' <= c <= 'f' {
        (c as u32 - 'a' as u32 + 10) as nat
    } else {
        (c as u32 - 'A' as u32 + 10) as nat
    }
}

/// Whether `s` holds hexadecimal digits only.
pub open spec fn all_hex_digits(s: Seq<char>) -> bool {
    forall|i: int| 0 <= i < s.len() ==> is_hex_digit(#[trigger] s[i])
}

/// The bytes that the pairs of hexadecimal digits of `s` stand for.
pub open spec fn hex_bytes(s: Seq<char>) -> Seq<u8> {
    Seq::new(s.len() / 2, |i: int| (hex_value(s[2 * i]) * 16 + hex_value(s[2 * i + 1])) as u8)
}

/// The bytes that `s` stands for, or why it stands for none.
pub open spec fn parse_hex(s: Seq<char>) -> Result<Seq<u8>, HexError> {
    if s.len() % 2 != 0 {
        Err(HexError::OddLength)
    } else if !all_hex_digits(s) {
        Err(HexError::InvalidDigit)
    } else {
        Ok(hex_bytes(s))
    }
}

/// The value of the hexadecimal digit `c`, if it is one.
fn hex_digit_value(c: char) -> (r: Option<u8>)
    ensures
        match r {
            Some(v) => is_hex_digit(c) && v == hex_value(c) && v < 16,
            None => !is_hex_digit(c),
        },
{
    if '0' <= c && c <= '9' {
        Some((c as u32 - '0' as u32) as u8)
    } else if 'a' <= c && c <= 'f' {
        Some((c as u32 - 'a' as u32 + 10) as u8)
    } else if 'A' <= c && c <= 'F' {
        Some((c as u32 - 'A' as u32 + 10) as u8)
    } else {
        None
    }
}

/// Reads a text made of pairs of hexadecimal digits as the bytes that they
/// stand for.
pub fn parse_hex_str(s: &str) -> (r: Result<Vec<u8>, HexError>)
    ensures
        match r {
            Ok(bytes) => parse_hex(s@) == Ok::<Seq<u8>, HexError>(bytes@),
            Err(e) => parse_hex(s@) == Err::<Seq<u8>, HexError>(e),
        },
{
    let chars = chars_of(s);
    if chars.len() % 2 != 0 {
        return Err(HexError::OddLength);
    }
    let mut k: usize = 0;
    while k < chars.len()
        invariant
            k <= chars.len(),
            chars@ == s@,
            chars.len() % 2 == 0,
            forall|i: int| 0 <= i < k ==> is_hex_digit(#[trigger] chars@[i]),
        decreases chars.len() - k,
    {
        if hex_digit_value(chars[k]).is_none() {
            assert(!is_hex_digit(chars@[k as int]));
            return Err(HexError::InvalidDigit);
        }
        k += 1;
    }
    let mut out: Vec<u8> = Vec::new();
    let mut i: usize = 0;
    while i < chars.len() / 2
        invariant
            i <= chars.len() / 2,
            chars.len() % 2 == 0,
            chars@ == s@,
            all_hex_digits(chars@),
            out@ == hex_bytes(chars@).take(i as int),
        decreases chars.len() / 2 - i,
    {
        let high = hex_digit_value(chars[2 * i]);
        let low = hex_digit_value(chars[2 * i + 1]);
        match (high, low) {
            (Some(h), Some(l)) => {
                out.push(h * 16 + l);
            },
            _ => {
                assert(false);
            },
        }
        assert(out@ =~= hex_bytes(chars@).take(i + 1));
        i += 1;
    }
    assert(hex_bytes(chars@).take((chars.len() / 2) as int) =~= hex_bytes(chars@));
    Ok(out)
}

/// The lower-case hexadecimal digit that stands for `n`, which is below 16.
pub open spec fn hex_digit(n: nat) -> char {
    if n < 10 {
        ('0' as u32 + n) as char
    } else {
        ('a' as u32 + n - 10) as char
    }
}

/// The hexadecimal text of `bytes`: two lower-case digits for each byte, the
/// high half first.
pub open spec fn hex_text(bytes: Seq<u8>) -> Seq<char> {
    Seq::new(
        bytes.len() * 2,
        |i: int|
            if i % 2 == 0 {
                hex_digit((bytes[i / 2] / 16) as nat)
            } else {
                hex_digit((bytes[i / 2] % 16) as nat)
            },
    )
}

/// The hexadecimal digit that stands for `n`.
fn nibble_to_char(n: u8) -> (c: char)
    requires
        n < 16,
    ensures
        c == hex_digit(n as nat),
{
    if n < 10 {
        (n + 0x30) as char
    } else {
        (n - 10 + 0x61) as char
    }
}

/// Writes bytes as lower-case hexadecimal text.
pub fn bytes_to_str(bytes: &[u8]) -> (r: String)
    ensures
        r@ == hex_text(bytes@),
{
    let mut out = String::new();
    let mut i: usize = 0;
    while i < bytes.len()
        invariant
            i <= bytes.len(),
            out@ == hex_text(bytes@).take(2 * i),
        decreases bytes.len() - i,
    {
        let byte = bytes[i];
        out.push(nibble_to_char(byte / 16));
        out.push(nibble_to_char(byte % 16));
        assert(out@ =~= hex_text(bytes@).take(2 * (i + 1)));
        i += 1;
    }
    assert(hex_text(bytes@).take(2 * bytes.len()) =~= hex_text(bytes@));
    out
}

/// What `bytes_to_str` writes, `parse_hex_str` reads back as the same bytes.
pub proof fn lemma_hex_round_trip(bytes: Seq<u8>)
    ensures
        parse_hex(hex_text(bytes)) == Ok::<Seq<u8>, HexError>(bytes),
{
    let text = hex_text(bytes);
    assert forall|i: int| 0 <= i < text.len() implies is_hex_digit(#[trigger] text[i]) by {
        let b = bytes[i / 2];
        assert(b / 16 < 16 && b % 16 < 16);
    }
    assert forall|i: int| 0 <= i < bytes.len() implies hex_bytes(text)[i] == bytes[i] by {
        let b = bytes[i];
        assert((2 * i) / 2 == i && (2 * i + 1) / 2 == i);
        assert(text[2 * i] == hex_digit((b / 16) as nat));
        assert(text[2 * i + 1] == hex_digit((b % 16) as nat));
        assert(hex_value(hex_digit((b / 16) as nat)) == b / 16);
        assert(hex_value(hex_digit((b % 16) as nat)) == b % 16);
    }
    assert(hex_bytes(text) =~= bytes);
}

/// Whether `ticket` has the shape of a project, a hyphen and an issue
/// number that fits in 32 bits.
pub open spec fn is_sortable_ticket(ticket: Seq<char>) -> bool {
    match split_once(ticket, '-') {
        Some((_, issue)) => parse_u32(issue) is Some,
        None => false,
    }
}

/// The project of `ticket`: what stands before its first hyphen.
pub open spec fn ticket_project(ticket: Seq<char>) -> Seq<char> {
    split_once(ticket, '-').unwrap().0
}

/// The issue number of `ticket`: what stands after its first hyphen.
pub open spec fn ticket_issue(ticket: Seq<char>) -> u32 {
    parse_u32(split_once(ticket, '-').unwrap().1).unwrap()
}

/// Tells whether `jira_ticket` has the shape that `sortable_jira_ticket`
/// asks for.
pub fn is_sortable_jira_ticket(jira_ticket: &str) -> (r: bool)
    ensures
        r == is_sortable_ticket(jira_ticket@),
{
    let chars = chars_of(jira_ticket);
    match find_char(chars.as_slice(), '-') {
        Some(i) => {
            let issue = crate::text::copy_range(chars.as_slice(), i + 1, chars.len());
            assert(chars@.skip(i + 1) =~= chars@.subrange(i + 1, chars.len() as int));
            read_u32(issue.as_slice()).is_some()
        },
        None => false,
    }
}

/// Parts a ticket into its project and its issue number, by which tickets
/// sort as a reader expects and not as plain text does.
pub fn sortable_jira_ticket(jira_ticket: &str) -> (r: (&str, u32))
    requires
        is_sortable_ticket(jira_ticket@),
    ensures
        r.0@ == ticket_project(jira_ticket@),
        r.1 == ticket_issue(jira_ticket@),
{
    let chars = chars_of(jira_ticket);
    match find_char(chars.as_slice(), '-') {
        Some(i) => {
            let issue = crate::text::copy_range(chars.as_slice(), i + 1, chars.len());
            assert(chars@.skip(i + 1) =~= chars@.subrange(i + 1, chars.len() as int));
            assert(chars@.take(i as int) =~= chars@.subrange(0, i as int));
            match read_u32(issue.as_slice()) {
                Some(n) => (jira_ticket.substring_char(0, i), n),
                None => vstd::pervasive::unreached(),
            }
        },
        None => vstd::pervasive::unreached(),
    }
}

/// Several writers that were handed the same bytes did not all take as
/// many of them.
#[derive(Debug, Clone, Copy, PartialEq, Eq, Structural)]
pub struct UnequalByteCounts {
    /// The place of the first writer whose count is not that of the first.
    pub place: usize,
}

/// What a writer to several writers reports of one write: all of the
/// bytes where it has no writer under it, else the count that all the
/// writers under it report, and an error where they do not agree.
pub open spec fn agreed_count(offered: usize, counts: Seq<usize>) -> Result<usize, UnequalByteCounts> {
    if counts.len() == 0 {
        Ok(offered)
    } else if exists|k: int| 0 <= k < counts.len() && #[trigger] counts[k] != counts[0] {
        Err(
            UnequalByteCounts {
                place: (choose|k: int|
                    0 <= k < counts.len() && #[trigger] counts[k] != counts[0] && forall|j: int|
                        0 <= j < k ==> #[trigger] counts[j] == counts[0]) as usize,
            },
        )
    } else {
        Ok(counts[0])
    }
}

/// The count of bytes that a writer to several writers reports, from the
/// counts that the writers under it reported.
pub fn agreed_byte_count(offered: usize, counts: &[usize]) -> (r: Result<usize, UnequalByteCounts>)
    ensures
        r == agreed_count(offered, counts@),
{
    if counts.len() == 0 {
        return Ok(offered);
    }
    let mut k: usize = 0;
    while k < counts.len()
        invariant
            k <= counts.len(),
            counts.len() > 0,
            forall|j: int| 0 <= j < k ==> #[trigger] counts@[j] == counts@[0],
        decreases counts.len() - k,
    {
        if counts[k] != counts[0] {
            let ghost first = choose|x: int|
                0 <= x < counts.len() && #[trigger] counts@[x] != counts@[0] && forall|j: int|
                    0 <= j < x ==> #[trigger] counts@[j] == counts@[0];
            assert(first == k) by {
                if first < k {
                    assert(counts@[first] == counts@[0]);
                } else if first > k {
                    assert(counts@[k as int] == counts@[0]);
                }
            }
            return Err(UnequalByteCounts { place: k });
        }
        k += 1;
    }
    Ok(counts[0])
}

} // verus!
