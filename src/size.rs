//! Human-readable byte sizes such as `"1M"`, `"256KiB"` or `"512b"`.
use vstd::prelude::*;
use vstd::utf8::is_ascii_chars;

verus! {

broadcast use vstd::string::is_ascii_spec_bytes;

/// Why a size string was refused.
#[derive(Debug, Clone, Copy, PartialEq, Eq, Structural)]
pub enum SizeError {
    /// Not a number of bytes: empty, no leading number, or trailing text
    /// that is not a unit.
    Invalid,
    /// The number of bytes does not fit in 64 bits.
    Overflow,
    /// A valid size of zero bytes, which cannot bound a log file.
    Zero,
}

/// Whitespace that trimming removes from an ASCII string.
pub open spec fn is_blank(c: char) -> bool {
    c == ' ' || ('\t' <= c && c <= '\r')
}

pub open spec fn is_digit(c: char) -> bool {
    '0' <= c && c <= '9'
}

/// A non-empty run of decimal digits.
pub open spec fn is_digits(s: Seq<char>) -> bool {
    s.len() > 0 && forall|i: int| 0 <= i < s.len() ==> is_digit(#[trigger] s[i])
}

/// The number that a run of decimal digits spells.
pub open spec fn digits_value(s: Seq<char>) -> nat
    decreases s.len(),
{
    if s.len() == 0 {
        0
    } else {
        digits_value(s.drop_last()) * 10 + ((s.last() as nat) - ('0' as nat)) as nat
    }
}

/// `1024` raised to `i`: the number of bytes in one unit of index `i`.
pub open spec fn unit_scale(i: nat) -> nat
    decreases i,
{
    if i == 0 {
        1
    } else {
        1024 * unit_scale((i - 1) as nat)
    }
}

/// The letter of the unit of index `i`, in lower case:
/// bytes, kibi, mebi, gibi, tebi, pebi and exbibytes.
pub open spec fn unit_letter(i: nat) -> char {
    if i == 0 {
        'b'
    } else if i == 1 {
        'k'
    } else if i == 2 {
        'm'
    } else if i == 3 {
        'g'
    } else if i == 4 {
        't'
    } else if i == 5 {
        'p'
    } else {
        'e'
    }
}

pub open spec fn same_letter(c: char, lower: char) -> bool {
    c == lower || (c as int) == (lower as int) - 32
}

/// What may follow the letter of the unit of index `i`: nothing, or for the
/// units above bytes `b` or `ib` in either case.
pub open spec fn is_unit_tail(t: Seq<char>, i: nat) -> bool {
    t.len() == 0 || (i > 0 && ((t.len() == 1 && same_letter(t[0], 'b')) || (t.len() == 2
        && same_letter(t[0], 'i') && same_letter(t[1], 'b'))))
}

/// `s` is the digits `n` followed by the unit of index `i`, written with its
/// letter in either case and an accepted tail.
pub open spec fn is_unit_form(s: Seq<char>, n: Seq<char>, i: nat) -> bool {
    &&& i < 7
    &&& is_digits(n)
    &&& n.len() < s.len()
    &&& s.subrange(0, n.len() as int) == n
    &&& same_letter(s[n.len() as int], unit_letter(i))
    &&& is_unit_tail(s.subrange(n.len() as int + 1, s.len() as int), i)
}

pub open spec fn is_letter(c: char) -> bool {
    ('a' <= c && c <= 'z') || ('A' <= c && c <= 'Z')
}

/// The first letter of a unit, in either case.
pub open spec fn is_unit_char(c: char) -> bool {
    same_letter(c, 'b') || same_letter(c, 'k') || same_letter(c, 'm') || same_letter(c, 'g')
        || same_letter(c, 't') || same_letter(c, 'p') || same_letter(c, 'e')
}

/// After whitespace, `s` starts at `k` with a letter that no number can
/// start with (numbers may be spelled `inf` or `nan`).
pub open spec fn is_word_start(s: Seq<char>, k: int) -> bool {
    &&& 0 <= k < s.len()
    &&& forall|j: int| 0 <= j < k ==> is_blank(#[trigger] s[j])
    &&& is_letter(s[k])
    &&& !same_letter(s[k], 'i')
    &&& !same_letter(s[k], 'n')
}

/// `s` is the digits `n` followed by text that starts with a letter and
/// holds no letter of a unit.
pub open spec fn is_digits_then_word(s: Seq<char>, n: Seq<char>) -> bool {
    &&& is_digits(n)
    &&& n.len() < s.len()
    &&& s.subrange(0, n.len() as int) == n
    &&& is_letter(s[n.len() as int])
    &&& forall|j: int| n.len() <= j < s.len() ==> !is_unit_char(#[trigger] s[j])
}

/// A successful parse of `v` bytes.
pub open spec fn size_ok(v: nat) -> Result<u64, SizeError> {
    Ok(v as u64)
}

/// A refused parse.
pub open spec fn size_err(e: SizeError) -> Result<u64, SizeError> {
    Err(e)
}

/// A parsed size as the bound of a log file: zero is refused.
pub open spec fn positive(p: Result<u64, SizeError>) -> Result<u64, SizeError> {
    match p {
        Ok(v) => if v > 0 {
            Ok(v)
        } else {
            Err(SizeError::Zero)
        },
        Err(e) => Err(e),
    }
}

/// `n` units of index `i` as a byte count, or `Overflow` past 64 bits.
pub open spec fn scaled(n: nat, i: nat) -> Result<u64, SizeError> {
    if n * unit_scale(i) <= u64::MAX {
        Ok((n * unit_scale(i)) as u64)
    } else {
        Err(SizeError::Overflow)
    }
}

/// What `unbytify::unbytify` returns for a string, its error mapped to
/// `SizeError`.
pub uninterp spec fn unbytify_of(s: Seq<char>) -> Result<u64, SizeError>;

/// Relies on `unbytify::unbytify`. It trims the string, lowers its case,
/// returns a plain decimal integer as it is, and otherwise reads a number
/// followed by the first letter of a unit of `B, KiB, ..., EiB` and an
/// optional `b` or `ib`. An integer number below 2^53 is read exactly as a
/// float, so it is scaled exactly, or refused as `Overflow`. It slices the
/// first byte of the trimmed string, so it is given only ASCII text that is
/// not all whitespace.
#[verifier::external_body]
fn unbytify_ascii(s: &str) -> (r: Result<u64, SizeError>)
    requires
        is_ascii_chars(s@),
        exists|i: int| 0 <= i < s@.len() && !is_blank(#[trigger] s@[i]),
    ensures
        r == unbytify_of(s@),
        r != size_err(SizeError::Zero),
        is_digits(s@) && digits_value(s@) <= u64::MAX ==> r == size_ok(digits_value(s@)),
        forall|n: Seq<char>, i: nat| #[trigger] is_unit_form(s@, n, i) && digits_value(n) < 0x20_0000_0000_0000 ==> r == scaled(digits_value(n), i),
        forall|k: int| #[trigger] is_word_start(s@, k) ==> r == size_err(SizeError::Invalid),
        forall|n: Seq<char>| #[trigger] is_digits_then_word(s@, n) ==> r == size_err(SizeError::Invalid),
{
    match unbytify::unbytify(s) {
        Ok(v) => Ok(v),
        Err(unbytify::ParseError::Invalid) => Err(SizeError::Invalid),
        Err(unbytify::ParseError::Overflow) => Err(SizeError::Overflow),
    }
}

proof fn lemma_unit_form_is_ascii(s: Seq<char>, n: Seq<char>, i: nat)
    requires
        is_unit_form(s, n, i),
    ensures
        is_ascii_chars(s),
{
    assert forall|j: int| 0 <= j < s.len() implies '\0' <= #[trigger] s[j] <= '\u{7f}' by {
        if j < n.len() {
            assert(s[j] == s.subrange(0, n.len() as int)[j]);
            assert(is_digit(n[j]));
        } else if j > n.len() {
            assert(s[j] == s.subrange(n.len() as int + 1, s.len() as int)[j - n.len() - 1]);
        }
    }
}

/// `s` is ASCII and holds a character other than whitespace: the strings
/// that are handed on to the number reader.
pub open spec fn is_readable(s: Seq<char>) -> bool {
    is_ascii_chars(s) && exists|i: int| 0 <= i < s.len() && !is_blank(#[trigger] s[i])
}

/// Parses a byte size. Text outside ASCII and text that is empty or all
/// whitespace is `Invalid`; anything else is read by `unbytify`. A plain
/// integer is taken as bytes, and digits followed by a unit are scaled by
/// the unit's power of 1024.
///
/// What `unbytify` does beyond that is kept as it is:
/// - the units end at EiB: there is no ZiB or YiB, so `"0ZiB"` is `Invalid`;
/// - units are tried from the smallest up, and the first one whose letter
///   splits off a number is taken;
/// - the number before a unit is read as a float, so a count of 2^53 or more
///   may be rounded, and a fractional size is rounded down, not to nearest;
/// - a number spelled `inf` reads as `u64::MAX`, and `nan` as 0.
pub fn parse_size(s: &str) -> (r: Result<u64, SizeError>)
    ensures
        !is_readable(s@) ==> r == size_err(SizeError::Invalid),
        is_readable(s@) ==> r == unbytify_of(s@),
        r != size_err(SizeError::Zero),
        is_digits(s@) && digits_value(s@) <= u64::MAX ==> r == size_ok(digits_value(s@)),
        forall|n: Seq<char>, i: nat|
            #[trigger] is_unit_form(s@, n, i) && digits_value(n) < 0x20_0000_0000_0000 ==> r
                == scaled(digits_value(n), i),
        forall|k: int| #[trigger] is_word_start(s@, k) ==> r == size_err(SizeError::Invalid),
        forall|n: Seq<char>| #[trigger] is_digits_then_word(s@, n) ==> r == size_err(SizeError::Invalid),
{
    if !s.is_ascii() {
        proof {
            assert forall|n: Seq<char>, i: nat| #[trigger] is_unit_form(s@, n, i) implies false by {
                lemma_unit_form_is_ascii(s@, n, i);
            }
        }
        return Err(SizeError::Invalid);
    }
    let bytes = s.as_bytes();
    assert(bytes@ =~= Seq::new(s@.len(), |i| s@[i] as u8));
    let mut k: usize = 0;
    while k < bytes.len()
        invariant
            bytes@ == Seq::new(s@.len(), |i| s@[i] as u8),
            is_ascii_chars(s@),
            0 <= k <= bytes.len(),
            forall|j: int| 0 <= j < k ==> is_blank(#[trigger] s@[j]),
        decreases bytes.len() - k,
    {
        let b = bytes[k];
        if !(b == 32u8 || (9u8 <= b && b <= 13u8)) {
            assert(!is_blank(s@[k as int]));
            return unbytify_ascii(s);
        }
        k = k + 1;
    }
    proof {
        if is_digits(s@) {
            assert(!is_blank(s@[0]));
        }
        assert forall|n: Seq<char>, i: nat| #[trigger] is_unit_form(s@, n, i) implies false by {
            assert(!is_blank(s@[n.len() as int]));
        }
        assert forall|n: Seq<char>| #[trigger] is_digits_then_word(s@, n) implies false by {
            assert(!is_blank(s@[n.len() as int]));
        }
    }
    Err(SizeError::Invalid)
}

/// Turns a parsed size into a bound for a log file: zero bytes is refused.
pub fn size_limit(parsed: Result<u64, SizeError>) -> (r: Result<u64, SizeError>)
    ensures
        r == positive(parsed),
{
    match parsed {
        Ok(v) => if v > 0 {
            Ok(v)
        } else {
            Err(SizeError::Zero)
        },
        Err(e) => Err(e),
    }
}

/// Parses the size bound of a log file: a positive byte size.
pub fn parse_size_limit(s: &str) -> (r: Result<u64, SizeError>)
    ensures
        !is_readable(s@) ==> r == size_err(SizeError::Invalid),
        is_readable(s@) ==> r == positive(unbytify_of(s@)),
        is_digits(s@) && digits_value(s@) <= u64::MAX ==> r == positive(size_ok(digits_value(s@))),
        forall|n: Seq<char>, i: nat| #[trigger] is_unit_form(s@, n, i) && digits_value(n) < 0x20_0000_0000_0000 ==> r == positive(scaled(digits_value(n), i)),
        forall|k: int| #[trigger] is_word_start(s@, k) ==> r == size_err(SizeError::Invalid),
        forall|n: Seq<char>| #[trigger] is_digits_then_word(s@, n) ==> r == size_err(SizeError::Invalid),
{
    size_limit(parse_size(s))
}

} // verus!
