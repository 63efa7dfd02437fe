//! Turns a completed line into the record written to every sink.
use vstd::prelude::*;

verus! {

/// What `String::from_utf8_lossy` makes of a byte string, as UTF-8 bytes.
pub uninterp spec fn lossy_utf8(b: Seq<u8>) -> Seq<u8>;

pub open spec fn is_ascii_bytes(b: Seq<u8>) -> bool {
    forall|i: int| 0 <= i < b.len() ==> #[trigger] b[i] < 128
}

/// Relies on `String::from_utf8_lossy`: invalid UTF-8 sequences become
/// U+FFFD, and valid input, ASCII among it, comes back unchanged.
#[verifier::external_body]
fn lossy_text(line: &[u8]) -> (r: Vec<u8>)
    ensures
        r@ == lossy_utf8(line@),
        is_ascii_bytes(line@) ==> r@ == line@,
{
    String::from_utf8_lossy(line).into_owned().into_bytes()
}

/// A record: the timestamp and one space when there is one, the text, and
/// one newline.
pub open spec fn record_bytes(text: Seq<u8>, stamp: Option<Seq<u8>>) -> Seq<u8> {
    match stamp {
        Some(t) => t + seq![32u8] + text + seq![10u8],
        None => text + seq![10u8],
    }
}

pub open spec fn stamp_view(stamp: Option<&[u8]>) -> Option<Seq<u8>> {
    match stamp {
        Some(t) => Some(t@),
        None => None,
    }
}

pub(crate) fn push_all(out: &mut Vec<u8>, bs: &[u8])
    ensures
        final(out)@ == old(out)@ + bs@,
{
    let mut i: usize = 0;
    while i < bs.len()
        invariant
            0 <= i <= bs@.len(),
            out@ == old(out)@ + bs@.subrange(0, i as int),
        decreases bs@.len() - i,
    {
        out.push(bs[i]);
        i = i + 1;
        assert(out@ =~= old(out)@ + bs@.subrange(0, i as int));
    }
    assert(bs@.subrange(0, bs@.len() as int) =~= bs@);
}

/// Frames text that is already UTF-8 as a record.
pub fn frame_record(text: &[u8], stamp: Option<&[u8]>) -> (r: Vec<u8>)
    ensures
        r@ == record_bytes(text@, stamp_view(stamp)),
{
    let mut out: Vec<u8> = Vec::new();
    match stamp {
        Some(t) => {
            push_all(&mut out, t);
            out.push(32u8);
        },
        None => {},
    }
    push_all(&mut out, text);
    out.push(10u8);
    assert(out@ =~= record_bytes(text@, stamp_view(stamp)));
    out
}

/// Formats a line read from the input: invalid UTF-8 is replaced, then the
/// text is framed as a record.
pub fn format_record(line: &[u8], stamp: Option<&[u8]>) -> (r: Vec<u8>)
    ensures
        r@ == record_bytes(lossy_utf8(line@), stamp_view(stamp)),
        is_ascii_bytes(line@) ==> r@ == record_bytes(line@, stamp_view(stamp)),
{
    let text = lossy_text(line);
    frame_record(text.as_slice(), stamp)
}

/// Without a timestamp a record depends on the line alone: the same line
/// formatted twice gives the same bytes, its text and one newline.
pub proof fn lemma_plain_record_is_repeatable(a: Seq<u8>, b: Seq<u8>)
    requires
        a == b,
    ensures
        record_bytes(lossy_utf8(a), None) == record_bytes(lossy_utf8(b), None),
        record_bytes(lossy_utf8(a), None) == lossy_utf8(a).push(10u8),
{
    assert(lossy_utf8(a) + seq![10u8] =~= lossy_utf8(a).push(10u8));
}

} // verus!
