use crate::hashing::feed_u64;
use std::collections::hash_map::DefaultHasher;
use std::hash::Hasher;
use vstd::prelude::*;
use vstd::slice::slice_subrange;
use vstd::std_specs::hash::DefaultHasherAdditionalSpecFns;
use vstd::string::{StrSliceExecFns, StringSliceAdditionalSpecFns};

verus! {

/// The characters that `String::from_utf8_lossy` makes of some bytes.
pub uninterp spec fn lossy_of(b: Seq<u8>) -> Seq<char>;

/// Whether a character has the Unicode `White_Space` property, which is what
/// `char::is_whitespace` tests.
pub open spec fn is_white_space(c: char) -> bool {
    ('\u{9}' <= c <= '\u{d}') || c == ' ' || c == '\u{85}' || c == '\u{a0}' || c == '\u{1680}'
        || ('\u{2000}' <= c <= '\u{200a}') || c == '\u{2028}' || c == '\u{2029}' || c == '\u{202f}'
        || c == '\u{205f}' || c == '\u{3000}'
}

/// Every character is white space.
pub open spec fn all_white_space(s: Seq<char>) -> bool {
    forall|i: int| 0 <= i < s.len() ==> is_white_space(#[trigger] s[i])
}

/// The characters without their leading white space.
pub open spec fn trim_start(s: Seq<char>) -> Seq<char>
    decreases s.len(),
{
    if s.len() > 0 && is_white_space(s[0]) {
        trim_start(s.drop_first())
    } else {
        s
    }
}

/// The characters without their trailing white space.
pub open spec fn trim_end(s: Seq<char>) -> Seq<char>
    decreases s.len(),
{
    if s.len() > 0 && is_white_space(s.last()) {
        trim_end(s.drop_last())
    } else {
        s
    }
}

/// The characters without their leading and trailing white space.
pub open spec fn trimmed_of(s: Seq<char>) -> Seq<char> {
    trim_end(trim_start(s))
}

proof fn lemma_trim_start_skips(w: Seq<char>, x: Seq<char>)
    requires
        all_white_space(w),
    ensures
        trim_start(w + x) == trim_start(x),
    decreases w.len(),
{
    if w.len() == 0 {
        assert(w + x =~= x);
    } else {
        assert((w + x).drop_first() =~= w.drop_first() + x);
        assert((w + x)[0] == w[0]);
        lemma_trim_start_skips(w.drop_first(), x);
    }
}

proof fn lemma_trim_end_skips(x: Seq<char>, w: Seq<char>)
    requires
        all_white_space(w),
    ensures
        trim_end(x + w) == trim_end(x),
    decreases w.len(),
{
    if w.len() == 0 {
        assert(x + w =~= x);
    } else {
        assert((x + w).drop_last() =~= x + w.drop_last());
        assert((x + w).last() == w.last());
        lemma_trim_end_skips(x, w.drop_last());
    }
}

proof fn lemma_trim_drops_tail(t: Seq<char>, w: Seq<char>)
    requires
        all_white_space(w),
    ensures
        trimmed_of(t + w) == trimmed_of(t),
    decreases t.len(),
{
    if t.len() == 0 {
        assert(t + w =~= w);
        lemma_trim_start_skips(w, Seq::<char>::empty());
        assert(w + Seq::<char>::empty() =~= w);
    } else if is_white_space(t[0]) {
        assert((t + w).drop_first() =~= t.drop_first() + w);
        assert((t + w)[0] == t[0]);
        lemma_trim_drops_tail(t.drop_first(), w);
    } else {
        assert((t + w)[0] == t[0]);
        lemma_trim_end_skips(t, w);
    }
}

/// White space around a line, such as its indentation or its line ending,
/// does not change its signature: the text is trimmed before it is hashed.
pub proof fn lemma_surrounding_space_ignored(before: Seq<char>, t: Seq<char>, after: Seq<char>)
    requires
        all_white_space(before),
        all_white_space(after),
    ensures
        trimmed_of(before + t + after) == trimmed_of(t),
        text_hash(trimmed_of(before + t + after)) == text_hash(trimmed_of(t)),
{
    assert(before + t + after =~= before + (t + after));
    lemma_trim_start_skips(before, t + after);
    lemma_trim_drops_tail(t, after);
}

/// Relies on `String::from_utf8_lossy`: the decoded text depends on the bytes
/// alone, and valid UTF-8 is decoded as it stands.
#[verifier::external_body]
fn decode_lossy(b: &[u8]) -> (r: String)
    ensures
        r@ == lossy_of(b@),
        vstd::utf8::valid_utf8(b@) ==> r@ == vstd::utf8::decode_utf8(b@),
{
    String::from_utf8_lossy(b).into_owned()
}

/// Removes leading and trailing white space, as `str::trim` does.
pub fn trim_text(s: &str) -> (r: &str)
    ensures
        r@ == trimmed_of(s@),
{
    let len = s.unicode_len();
    let mut i: usize = 0;
    assert(s@.subrange(0, len as int) =~= s@);
    while i < len && is_white_space_char(s.get_char(i))
        invariant
            len == s@.len(),
            i <= len,
            trim_start(s@) == trim_start(s@.subrange(i as int, len as int)),
        decreases len - i,
    {
        assert(s@.subrange(i as int, len as int).drop_first() =~= s@.subrange(i + 1, len as int));
        i += 1;
    }
    assert(trim_start(s@.subrange(i as int, len as int)) == s@.subrange(i as int, len as int));
    let mut j: usize = len;
    while j > i && is_white_space_char(s.get_char(j - 1))
        invariant
            len == s@.len(),
            i <= j <= len,
            trimmed_of(s@) == trim_end(s@.subrange(i as int, j as int)),
        decreases j - i,
    {
        assert(s@.subrange(i as int, j as int).drop_last() =~= s@.subrange(i as int, j - 1));
        j -= 1;
    }
    assert(trim_end(s@.subrange(i as int, j as int)) == s@.subrange(i as int, j as int));
    s.substring_char(i, j)
}

/// Whether a character has the Unicode `White_Space` property.
pub fn is_white_space_char(c: char) -> (r: bool)
    ensures
        r == is_white_space(c),
{
    ('\u{9}' <= c && c <= '\u{d}') || c == ' ' || c == '\u{85}' || c == '\u{a0}' || c
        == '\u{1680}' || ('\u{2000}' <= c && c <= '\u{200a}') || c == '\u{2028}' || c
        == '\u{2029}' || c == '\u{202f}' || c == '\u{205f}' || c == '\u{3000}'
}

/// The hash of a piece of text: its UTF-8 bytes, then a terminating `0xff`
/// byte, which no UTF-8 text holds.
pub open spec fn text_hash(s: Seq<char>) -> u64 {
    DefaultHasher::spec_finish(seq![vstd::utf8::encode_utf8(s), seq![0xffu8]])
}

/// The signature of one line, given as its raw bytes: the hash of its
/// decoded text with surrounding whitespace removed.
pub open spec fn line_signature(line: Seq<u8>) -> u64 {
    text_hash(trimmed_of(lossy_of(line)))
}

/// Hashes a piece of text.
pub fn hash_text(s: &str) -> (r: u64)
    ensures
        r == text_hash(s@),
{
    let mut h = DefaultHasher::new();
    let bytes = s.as_bytes();
    h.write(bytes);
    let end: Vec<u8> = vec![0xffu8];
    h.write(end.as_slice());
    assert(bytes@ == vstd::utf8::encode_utf8(s@));
    assert(end@ =~= seq![0xffu8]);
    assert(h@ =~= seq![vstd::utf8::encode_utf8(s@), seq![0xffu8]]);
    h.finish()
}

/// Computes the signature of one line.
pub fn signature_of_line(line: &[u8]) -> (r: u64)
    ensures
        r == line_signature(line@),
        vstd::utf8::valid_utf8(line@) ==> r == text_hash(
            trimmed_of(vstd::utf8::decode_utf8(line@)),
        ),
{
    let text = decode_lossy(line);
    let trimmed = trim_text(text.as_str());
    hash_text(trimmed)
}

/// End (exclusive) of the line that starts at `i`: just past the next line
/// feed, or the end of the data.
pub open spec fn line_end(b: Seq<u8>, i: int) -> int
    decreases b.len() - i,
{
    if i >= b.len() {
        b.len() as int
    } else if b[i] == 10u8 {
        i + 1
    } else {
        line_end(b, i + 1)
    }
}

/// The lines of `b` from offset `i` on, each with its line feed; a final
/// line without one counts too, an empty tail does not.
pub open spec fn lines_from(b: Seq<u8>, i: int) -> Seq<Seq<u8>>
    decreases b.len() - i,
{
    if i < 0 || i >= b.len() {
        seq![]
    } else {
        let e = line_end(b, i);
        if e <= i || e > b.len() {
            seq![]
        } else {
            seq![b.subrange(i, e)] + lines_from(b, e)
        }
    }
}

/// The lines of a file's contents.
pub open spec fn lines_of(b: Seq<u8>) -> Seq<Seq<u8>> {
    lines_from(b, 0)
}

/// The signatures of a file's lines, in order.
pub open spec fn signatures_of(b: Seq<u8>) -> Seq<u64> {
    lines_of(b).map_values(|l: Seq<u8>| line_signature(l))
}

/// A line runs to just past its first line feed, or to the end of the data.
pub proof fn lemma_line_end(b: Seq<u8>, i: int)
    requires
        0 <= i < b.len(),
    ensures
        i < line_end(b, i) <= b.len(),
        forall|k: int| i <= k < line_end(b, i) - 1 ==> b[k] != 10u8,
        line_end(b, i) == b.len() || b[line_end(b, i) - 1] == 10u8,
    decreases b.len() - i,
{
    if b[i] != 10u8 {
        if i + 1 < b.len() {
            lemma_line_end(b, i + 1);
        } else {
            assert(line_end(b, i + 1) == b.len());
        }
    }
}

/// Computes the signature of each line of a file's contents.
pub fn signatures_from_bytes(data: &[u8]) -> (r: Vec<u64>)
    ensures
        r@ == signatures_of(data@),
{
    let ghost b = data@;
    let mut r: Vec<u64> = Vec::new();
    let mut start: usize = 0;
    while start < data.len()
        invariant
            b == data@,
            start <= b.len(),
            r@ + lines_from(b, start as int).map_values(|l: Seq<u8>| line_signature(l))
                == signatures_of(b),
        decreases b.len() - start,
    {
        let mut j: usize = start;
        while j < data.len() && data[j] != 10u8
            invariant
                b == data@,
                start <= j <= b.len(),
                start < b.len(),
                line_end(b, start as int) == line_end(b, j as int),
            decreases b.len() - j,
        {
            j += 1;
        }
        let end: usize = if j < data.len() {
            j + 1
        } else {
            j
        };
        proof {
            lemma_line_end(b, start as int);
        }
        assert(end == line_end(b, start as int));
        let line = slice_subrange(data, start, end);
        let sig = signature_of_line(line);
        let ghost rest = lines_from(b, end as int);
        assert(lines_from(b, start as int) == seq![b.subrange(start as int, end as int)] + rest);
        assert(lines_from(b, start as int).map_values(|l: Seq<u8>| line_signature(l)) =~= seq![
            sig,
        ] + rest.map_values(|l: Seq<u8>| line_signature(l)));
        r.push(sig);
        assert(r@ + rest.map_values(|l: Seq<u8>| line_signature(l)) =~= signatures_of(b));
        start = end;
    }
    assert(lines_from(b, start as int) =~= Seq::<Seq<u8>>::empty());
    assert(r@ =~= signatures_of(b));
    r
}

/// The smaller of two integers.
pub open spec fn min_int(a: int, b: int) -> int {
    if a <= b {
        a
    } else {
        b
    }
}

/// The bytes of lines `start` to `start + count` (exclusive) of a file's
/// contents, each with its line feed; lines past the end are not there.
pub open spec fn line_range(b: Seq<u8>, start: int, count: int) -> Seq<u8> {
    let l = lines_of(b);
    l.subrange(min_int(start, l.len() as int), min_int(start + count, l.len() as int)).flatten()
}

/// Copies the bytes of `count` lines of a file's contents from line `start` on.
pub fn line_range_bytes(data: &[u8], start: usize, count: usize) -> (r: Vec<u8>)
    ensures
        r@ == line_range(data@, start as int, count as int),
{
    let ghost b = data@;
    let ghost l = lines_of(b);
    let ghost end = start + count;
    let ghost mut done: Seq<Seq<u8>> = seq![];
    let mut out: Vec<u8> = Vec::new();
    let mut pos: usize = 0;
    let mut ln: usize = 0;
    while pos < data.len() && (ln < start || ln - start < count)
        invariant
            b == data@,
            l == lines_of(b),
            end == start + count,
            pos <= b.len(),
            ln <= pos,
            done.len() == ln,
            done + lines_from(b, pos as int) == l,
            out@ == done.subrange(min_int(start as int, ln as int), min_int(end, ln as int)).flatten(),
        decreases b.len() - pos,
    {
        let mut j: usize = pos;
        while j < data.len() && data[j] != 10u8
            invariant
                b == data@,
                pos <= j <= b.len(),
                pos < b.len(),
                line_end(b, pos as int) == line_end(b, j as int),
            decreases b.len() - j,
        {
            j += 1;
        }
        let next: usize = if j < data.len() {
            j + 1
        } else {
            j
        };
        proof {
            lemma_line_end(b, pos as int);
        }
        let ghost chunk = b.subrange(pos as int, next as int);
        assert(lines_from(b, pos as int) == seq![chunk] + lines_from(b, next as int));
        let ghost old_done = done;
        proof {
            done = done.push(chunk);
            assert(done + lines_from(b, next as int) =~= l);
        }
        if ln >= start {
            let mut k: usize = pos;
            let ghost old_out = out@;
            while k < next
                invariant
                    b == data@,
                    pos <= k <= next,
                    next <= b.len(),
                    out@ == old_out + b.subrange(pos as int, k as int),
                decreases next - k,
            {
                out.push(data[k]);
                assert(b.subrange(pos as int, k + 1) =~= b.subrange(pos as int, k as int).push(b[k as int]));
                k += 1;
            }
            proof {
                let lo = start as int;
                assert(done.subrange(lo, ln + 1) =~= old_done.subrange(lo, ln as int).push(chunk));
                old_done.subrange(lo, ln as int).lemma_flatten_push(chunk);
            }
        } else {
            assert(done.subrange(ln + 1, ln + 1) =~= old_done.subrange(ln as int, ln as int));
        }
        pos = next;
        ln += 1;
    }
    proof {
        if pos >= b.len() {
            assert(lines_from(b, pos as int) =~= Seq::<Seq<u8>>::empty());
            assert(done =~= l);
        } else {
            assert(l.subrange(0, ln as int) =~= done);
            assert(l.subrange(start as int, end) =~= done.subrange(start as int, end));
        }
    }
    out
}

} // verus!
