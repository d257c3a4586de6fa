//! Documents: their text, and the passages that it is cut into.
use crate::paths;
use crate::paths::{extension, path_kind, DocumentKind};
use crate::text;
use crate::text::{join_range, owned, split_whitespace, to_lowercase, trim};
use vstd::prelude::*;

verus! {

/// How many words a passage has at most.
pub const CHUNK_WORDS: usize = 300;

/// How many words a passage has in common with the one before it.
pub const CHUNK_OVERLAP_WORDS: usize = 50;

/// A passage that is not the whole document is kept only if it is longer than
/// this, in bytes.
pub const SHORT_CHUNK_BYTES: usize = 40;

// ---------------------------------------------------------------------------
// The text of a file
// ---------------------------------------------------------------------------

/// `String::from_utf8`: the text whose UTF-8 encoding the bytes are, where they
/// are valid UTF-8.
#[verifier::external_body]
fn utf8_text(bytes: &[u8]) -> (r: Option<String>)
    ensures
        match r {
            Some(s) => vstd::utf8::valid_utf8(bytes@) && s@ == vstd::utf8::decode_utf8(bytes@),
            None => !vstd::utf8::valid_utf8(bytes@),
        },
{
    String::from_utf8(bytes.to_vec()).ok()
}

/// What `encoding_rs::WINDOWS_1252.decode` makes of bytes.
pub uninterp spec fn decoded_1252(bytes: Seq<u8>) -> Seq<char>;

/// Whether the bytes begin with a byte order mark, of UTF-8 or of UTF-16.
pub open spec fn has_byte_order_mark(bytes: Seq<u8>) -> bool {
    ||| bytes.len() >= 3 && bytes[0] == 0xef && bytes[1] == 0xbb && bytes[2] == 0xbf
    ||| bytes.len() >= 2 && bytes[0] == 0xff && bytes[1] == 0xfe
    ||| bytes.len() >= 2 && bytes[0] == 0xfe && bytes[1] == 0xff
}

/// The code points of the bytes from 0x80 to 0x9f in windows-1252.
pub open spec fn middle_code_points() -> Seq<u32> {
    seq![
        0x20ac, 0x0081, 0x201a, 0x0192, 0x201e, 0x2026, 0x2020, 0x2021, 0x02c6, 0x2030, 0x0160,
        0x2039, 0x0152, 0x008d, 0x017d, 0x008f, 0x0090, 0x2018, 0x2019, 0x201c, 0x201d, 0x2022,
        0x2013, 0x2014, 0x02dc, 0x2122, 0x0161, 0x203a, 0x0153, 0x009d, 0x017e, 0x0178,
    ]
}

/// The character that a byte stands for in windows-1252: the one of its own number,
/// but for the bytes from 0x80 to 0x9f.
pub open spec fn char_1252(b: u8) -> char {
    if b < 0x80 || b >= 0xa0 {
        b as char
    } else {
        middle_code_points()[b - 0x80] as char
    }
}

/// `encoding_rs::WINDOWS_1252.decode`: the decoded text, which depends on the bytes
/// alone. Without a byte order mark at their beginning it is one character for each
/// byte; with one, they are read in the encoding of the mark. The outside function
/// panics where the size of its buffer, three bytes for each of the input and rounded
/// up to a power of two, does not fit in `usize`.
#[verifier::external_body]
fn decode_windows_1252(bytes: &[u8]) -> (r: String)
    requires
        bytes@.len() <= usize::MAX / 8,
    ensures
        r@ == decoded_1252(bytes@),
        !has_byte_order_mark(bytes@) ==> r@ == bytes@.map_values(|b: u8| char_1252(b)),
{
    encoding_rs::WINDOWS_1252.decode(bytes).0.to_string()
}

/// The text that bytes stand for in windows-1252, or in the encoding of the byte order
/// mark that they begin with.
pub open spec fn windows_1252(bytes: Seq<u8>) -> Seq<char> {
    if has_byte_order_mark(bytes) {
        decoded_1252(bytes)
    } else {
        bytes.map_values(|b: u8| char_1252(b))
    }
}

/// The text of a file: UTF-8 where it is that, windows-1252 otherwise.
pub open spec fn text_of(bytes: Seq<u8>) -> Seq<char> {
    if vstd::utf8::valid_utf8(bytes) {
        vstd::utf8::decode_utf8(bytes)
    } else {
        windows_1252(bytes)
    }
}

/// The text of a file.
pub fn decode_text(bytes: &[u8]) -> (r: String)
    requires
        bytes@.len() <= usize::MAX / 8,
    ensures
        r@ == text_of(bytes@),
{
    match utf8_text(bytes) {
        Some(s) => s,
        None => decode_windows_1252(bytes),
    }
}

/// Text that was written as UTF-8 is read back as it was.
pub proof fn utf8_text_reads_back(s: Seq<char>)
    ensures
        text_of(vstd::utf8::encode_utf8(s)) == s,
{
    vstd::utf8::encode_utf8_valid_utf8(s);
    vstd::utf8::encode_utf8_decode_utf8(s);
}

/// What `String::from_utf8_lossy` makes of bytes.
pub uninterp spec fn std_lossy(bytes: Seq<u8>) -> Seq<char>;

/// `String::from_utf8_lossy`: the text depends on the bytes alone, and is what they
/// encode where they are valid UTF-8.
#[verifier::external_body]
fn std_from_utf8_lossy(bytes: &[u8]) -> (r: String)
    ensures
        r@ == std_lossy(bytes@),
        vstd::utf8::valid_utf8(bytes@) ==> r@ == vstd::utf8::decode_utf8(bytes@),
{
    String::from_utf8_lossy(bytes).to_string()
}

/// The text that bytes stand for in UTF-8, with replacement characters for what is
/// malformed.
pub open spec fn utf8_lossy(bytes: Seq<u8>) -> Seq<char> {
    if vstd::utf8::valid_utf8(bytes) {
        vstd::utf8::decode_utf8(bytes)
    } else {
        std_lossy(bytes)
    }
}

/// The text that bytes stand for in UTF-8, with replacement characters for what is
/// malformed.
pub fn lossy_text(bytes: &[u8]) -> (r: String)
    ensures
        r@ == utf8_lossy(bytes@),
{
    std_from_utf8_lossy(bytes)
}

/// What is known of a document's text once its file is read.
pub enum Extraction {
    /// The text.
    Text(String),
    /// The text has to be extracted from the PDF first.
    Pdf,
}

/// The extension of a path in lower case; empty where there is none.
pub open spec fn lower_extension(path: Seq<char>) -> Seq<char> {
    text::lowercase(
        match paths::extension_part(path) {
            Some(ext) => ext,
            None => ""@,
        },
    )
}

/// What is said of a file whose extension, in lower case, is not supported.
pub fn unsupported_format(ext: &str) -> (r: String)
    ensures
        r@ == "Formato no soportado: "@ + ext@,
{
    let mut message: String = owned("Formato no soportado: ");
    message.push_str(ext);
    message
}

/// The text of the file at `path` with the given bytes, by its extension: decoded from
/// the bytes, to be extracted from the PDF, or refused.
pub fn extract_text(path: &str, bytes: &[u8]) -> (r: Result<Extraction, String>)
    requires
        paths::kind_at(path@) == Some(DocumentKind::Text) ==> bytes@.len() <= usize::MAX / 8,
    ensures
        match r {
            Ok(Extraction::Text(s)) => paths::kind_at(path@) == Some(DocumentKind::Text) && s@
                == text_of(bytes@),
            Ok(Extraction::Pdf) => paths::kind_at(path@) == Some(DocumentKind::Pdf),
            Err(message) => paths::kind_at(path@) is None && message@ == "Formato no soportado: "@
                + lower_extension(path@),
        },
{
    match path_kind(path) {
        Some(DocumentKind::Text) => Ok(Extraction::Text(decode_text(bytes))),
        Some(DocumentKind::Pdf) => Ok(Extraction::Pdf),
        None => {
            let ext: String = match extension(path) {
                Some(ext) => to_lowercase(ext.as_str()),
                None => to_lowercase(""),
            };
            Err(unsupported_format(ext.as_str()))
        },
    }
}

/// The text of a PDF, given how the extraction ended and what it wrote.
pub fn extract_pdf_text(path: &str, success: bool, stdout: &[u8]) -> (r: Result<String, String>)
    ensures
        match r {
            Ok(s) => success && s@ == utf8_lossy(stdout@),
            Err(message) => !success && message@ == "pdftotext falló para "@ + path@,
        },
{
    if success {
        Ok(lossy_text(stdout))
    } else {
        let mut message: String = owned("pdftotext falló para ");
        message.push_str(path);
        Err(message)
    }
}

// ---------------------------------------------------------------------------
// Passages
// ---------------------------------------------------------------------------

/// The words `window.0` up to, not including, `window.1`, with blanks between them.
pub open spec fn passage(ws: Seq<Seq<char>>, window: (int, int)) -> Seq<char> {
    text::joined(ws.subrange(window.0, window.1), " "@)
}

/// The windows of at most `size` out of `n` words from `start` on: each begins
/// `overlap` words before the end of the one before it, and the last ends at `n`.
pub open spec fn windows(n: int, start: int, size: int, overlap: int) -> Seq<(int, int)>
    decreases n - start,
{
    if start < 0 || start >= n || overlap < 0 || overlap >= size {
        Seq::empty()
    } else if start + size >= n {
        seq![(start, n)]
    } else {
        seq![(start, start + size)] + windows(n, start + size - overlap, size, overlap)
    }
}

/// Whether a passage is long enough to be kept.
pub open spec fn long_enough(s: Seq<char>) -> bool {
    vstd::utf8::encode_utf8(text::trimmed(s)).len() > SHORT_CHUNK_BYTES
}

/// The passages of the windows that are long enough.
pub open spec fn kept(ws: Seq<Seq<char>>, list: Seq<(int, int)>) -> Seq<Seq<char>>
    decreases list.len(),
{
    if list.len() == 0 {
        Seq::empty()
    } else if long_enough(passage(ws, list.last())) {
        kept(ws, list.drop_last()).push(passage(ws, list.last()))
    } else {
        kept(ws, list.drop_last())
    }
}

/// The passages that a text of the words `ws` is cut into: the whole text where it
/// has no more than `size` words, else the windows that are long enough.
pub open spec fn passages(ws: Seq<Seq<char>>, size: int, overlap: int) -> Seq<Seq<char>> {
    if ws.len() == 0 {
        Seq::empty()
    } else if ws.len() <= size {
        seq![text::joined(ws, " "@)]
    } else {
        kept(ws, windows(ws.len() as int, 0, size, overlap))
    }
}

/// The indices of the words that the passages of the windows begin with, of those that
/// are long enough.
pub open spec fn kept_starts(ws: Seq<Seq<char>>, list: Seq<(int, int)>) -> Seq<int>
    decreases list.len(),
{
    if list.len() == 0 {
        Seq::empty()
    } else if long_enough(passage(ws, list.last())) {
        kept_starts(ws, list.drop_last()).push(list.last().0)
    } else {
        kept_starts(ws, list.drop_last())
    }
}

/// The indices of the words that the passages of `passages` begin with.
pub open spec fn passage_starts(ws: Seq<Seq<char>>, size: int, overlap: int) -> Seq<int> {
    if ws.len() == 0 {
        Seq::empty()
    } else if ws.len() <= size {
        seq![0int]
    } else {
        kept_starts(ws, windows(ws.len() as int, 0, size, overlap))
    }
}

/// Passages, and the indices of the words that they begin with.
pub struct Cut {
    pub chunks: Vec<String>,
    pub starts: Vec<usize>,
}

/// The indices of a list, as integers.
pub open spec fn indices(list: Seq<usize>) -> Seq<int> {
    Seq::new(list.len(), |i: int| list[i] as int)
}

/// Cuts `text` into passages of at most `chunk_words` words, each with
/// `overlap_words` words of the one before it.
pub fn chunk_text(text: &str, chunk_words: usize, overlap_words: usize) -> (r: Vec<String>)
    requires
        text::words(text@).len() <= chunk_words || overlap_words < chunk_words,
    ensures
        text::views(r@) == passages(text::words(text@), chunk_words as int, overlap_words as int),
{
    cut_text(text, chunk_words, overlap_words).chunks
}

/// Cuts `text` into passages, and notes the words that they begin with.
pub fn cut_text(text: &str, chunk_words: usize, overlap_words: usize) -> (r: Cut)
    requires
        text::words(text@).len() <= chunk_words || overlap_words < chunk_words,
    ensures
        text::views(r.chunks@) == passages(
            text::words(text@),
            chunk_words as int,
            overlap_words as int,
        ),
        indices(r.starts@) == passage_starts(
            text::words(text@),
            chunk_words as int,
            overlap_words as int,
        ),
        r.starts@.len() == r.chunks@.len(),
        forall|k: int|
            0 <= k < r.starts@.len() ==> #[trigger] r.starts@[k] < text::words(text@).len(),
{
    let parts: Vec<String> = split_whitespace(text);
    let n: usize = parts.len();
    let ghost ws = text::words(text@);
    let mut chunks: Vec<String> = Vec::new();
    let mut starts: Vec<usize> = Vec::new();
    assert(ws.len() == n);
    if n == 0 {
        assert(text::views(chunks@) == Seq::<Seq<char>>::empty());
        assert(indices(starts@) == Seq::<int>::empty());
        return Cut { chunks, starts };
    }
    if n <= chunk_words {
        let whole: String = join_range(&parts, 0, n, " ");
        assert(ws.subrange(0, n as int) == ws);
        chunks.push(whole);
        starts.push(0);
        assert(text::views(chunks@) == seq![text::joined(ws, " "@)]);
        assert(indices(starts@) == seq![0int]);
        return Cut { chunks, starts };
    }
    let ghost size = chunk_words as int;
    let ghost overlap = overlap_words as int;
    let ghost all = windows(n as int, 0, size, overlap);
    let ghost mut done: Seq<(int, int)> = Seq::empty();
    let mut start: usize = 0;
    assert(done + all == all);
    assert(text::views(chunks@) == kept(ws, done));
    assert(indices(starts@) == kept_starts(ws, done));
    loop
        invariant_except_break
            done + windows(n as int, start as int, size, overlap) == all,
            start < n,
        invariant
            n == parts@.len(),
            ws == text::views(parts@),
            size == chunk_words,
            overlap == overlap_words,
            overlap_words < chunk_words,
            text::views(chunks@) == kept(ws, done),
            indices(starts@) == kept_starts(ws, done),
            starts@.len() == chunks@.len(),
            forall|k: int| 0 <= k < starts@.len() ==> #[trigger] starts@[k] < n,
        ensures
            done == all,
        decreases n - start,
    {
        let end: usize = if chunk_words >= n - start {
            n
        } else {
            start + chunk_words
        };
        let chunk: String = join_range(&parts, start, end, " ");
        let inner: String = trim(chunk.as_str());
        let ghost window = (start as int, end as int);
        let ghost before = done;
        let ghost kept_before = text::views(chunks@);
        let ghost starts_before = indices(starts@);
        proof {
            done = done.push(window);
            assert(done.drop_last() == before);
            assert(passage(ws, window) == chunk@);
        }
        if inner.as_str().as_bytes().len() > SHORT_CHUNK_BYTES {
            chunks.push(chunk);
            starts.push(start);
            assert(text::views(chunks@) == kept_before.push(chunk@));
            assert(indices(starts@) == starts_before.push(start as int));
        }
        if end == n {
            assert(before + seq![window] == done);
            break;
        }
        proof {
            let rest = windows(n as int, end - overlap, size, overlap);
            assert(before + (seq![window] + rest) == done + rest);
        }
        start = end - overlap_words;
    }
    Cut { chunks, starts }
}

// ---------------------------------------------------------------------------
// What holds of passages
// ---------------------------------------------------------------------------

/// The windows begin at the first word and end at the last; each but the last has
/// `size` words, and each begins `overlap` words before the end of the one before it.
pub proof fn windows_overlap(n: int, start: int, size: int, overlap: int)
    requires
        0 <= start < n,
        0 <= overlap < size,
    ensures
        ({
            let list = windows(n, start, size, overlap);
            &&& list.len() > 0
            &&& list[0].0 == start
            &&& list.last().1 == n
            &&& forall|k: int|
                0 <= k < list.len() ==> start <= (#[trigger] list[k]).0 < list[k].1 <= n
                    && list[k].1 - list[k].0 <= size
            &&& forall|k: int|
                0 <= k < list.len() - 1 ==> (#[trigger] list[k]).1 - list[k].0 == size && list[k
                    + 1].0 == list[k].1 - overlap
        }),
    decreases n - start,
{
    let list = windows(n, start, size, overlap);
    if start + size < n {
        let next = start + size - overlap;
        windows_overlap(n, next, size, overlap);
        let rest = windows(n, next, size, overlap);
        assert(list == seq![(start, start + size)] + rest);
        assert forall|k: int| 0 <= k < list.len() implies start <= (#[trigger] list[k]).0
            < list[k].1 <= n && list[k].1 - list[k].0 <= size by {
            if k > 0 {
                assert(list[k] == rest[k - 1]);
            }
        }
        assert forall|k: int| 0 <= k < list.len() - 1 implies (#[trigger] list[k]).1 - list[k].0
            == size && list[k + 1].0 == list[k].1 - overlap by {
            if k > 0 {
                assert(list[k] == rest[k - 1]);
                assert(list[k + 1] == rest[k]);
            } else {
                assert(list[1] == rest[0]);
            }
        }
    }
}

/// Every word lies in some window.
pub proof fn windows_cover(n: int, start: int, size: int, overlap: int, i: int)
    requires
        0 <= start <= i < n,
        0 <= overlap < size,
    ensures
        exists|k: int|
            0 <= k < windows(n, start, size, overlap).len() && (#[trigger] windows(
                n,
                start,
                size,
                overlap,
            )[k]).0 <= i < windows(n, start, size, overlap)[k].1,
    decreases n - start,
{
    let list = windows(n, start, size, overlap);
    if start + size >= n || i < start + size {
        assert(list[0].0 <= i < list[0].1);
    } else {
        let next = start + size - overlap;
        windows_cover(n, next, size, overlap, i);
        let rest = windows(n, next, size, overlap);
        let k = choose|k: int| 0 <= k < rest.len() && (#[trigger] rest[k]).0 <= i < rest[k].1;
        assert(list[k + 1] == rest[k]);
    }
}

proof fn lemma_utf8_length(s: Seq<char>)
    ensures
        vstd::utf8::encode_utf8(s).len() >= s.len(),
    decreases s.len(),
{
    if s.len() > 0 {
        lemma_utf8_length(s.drop_first());
        vstd::utf8::char_is_scalar(s[0]);
    }
}

/// Words that are joined by blanks are not trimmed, and have at least two
/// characters for each word but one.
proof fn lemma_joined_words(ws: Seq<Seq<char>>)
    requires
        ws.len() > 0,
        forall|k: int| 0 <= k < ws.len() ==> text::is_word(#[trigger] ws[k]),
    ensures
        text::joined(ws, " "@).len() >= 2 * ws.len() - 1,
        !text::is_white(text::joined(ws, " "@)[0]),
        !text::is_white(text::joined(ws, " "@).last()),
        text::trimmed(text::joined(ws, " "@)) == text::joined(ws, " "@),
    decreases ws.len(),
{
    reveal_strlit(" ");
    let s = text::joined(ws, " "@);
    let w = ws.last();
    assert(text::is_word(ws[ws.len() - 1]));
    assert(!text::is_white(w[0]) && !text::is_white(w[w.len() - 1]));
    if ws.len() > 1 {
        let init = ws.drop_last();
        assert forall|k: int| 0 <= k < init.len() implies text::is_word(#[trigger] init[k]) by {
            assert(init[k] == ws[k]);
        }
        lemma_joined_words(init);
        let t = text::joined(init, " "@);
        assert(s == t + " "@ + w);
        assert(s[0] == t[0]);
        assert(s.last() == w.last());
    }
    text::lemma_trimmed_fixed(s);
}

proof fn lemma_long_windows_are_kept(ws: Seq<Seq<char>>, list: Seq<(int, int)>)
    requires
        forall|k: int| 0 <= k < ws.len() ==> text::is_word(#[trigger] ws[k]),
        forall|k: int|
            0 <= k < list.len() ==> 0 <= (#[trigger] list[k]).0 && list[k].1 <= ws.len()
                && list[k].1 - list[k].0 > 20,
    ensures
        kept(ws, list).len() == list.len(),
        forall|k: int|
            0 <= k < list.len() ==> #[trigger] kept(ws, list)[k] == passage(ws, list[k]),
    decreases list.len(),
{
    if list.len() > 0 {
        let init = list.drop_last();
        assert forall|k: int| 0 <= k < init.len() implies 0 <= (#[trigger] init[k]).0 && init[k].1
            <= ws.len() && init[k].1 - init[k].0 > 20 by {
            assert(init[k] == list[k]);
        }
        lemma_long_windows_are_kept(ws, init);
        let w = list[list.len() - 1];
        let part = ws.subrange(w.0, w.1);
        assert forall|k: int| 0 <= k < part.len() implies text::is_word(#[trigger] part[k]) by {
            assert(part[k] == ws[w.0 + k]);
        }
        lemma_joined_words(part);
        lemma_utf8_length(passage(ws, w));
        assert(long_enough(passage(ws, list.last())));
    }
}

/// Where neighbouring passages share at least 20 words, nothing is dropped: a text
/// of more than `size` words gives one passage for each window, in order.
pub proof fn every_window_is_kept(s: Seq<char>, size: int, overlap: int)
    requires
        20 <= overlap < size < text::words(s).len(),
    ensures
        ({
            let ws = text::words(s);
            let list = windows(ws.len() as int, 0, size, overlap);
            let r = passages(ws, size, overlap);
            &&& r.len() == list.len()
            &&& forall|k: int| 0 <= k < list.len() ==> #[trigger] r[k] == passage(ws, list[k])
        }),
{
    let ws = text::words(s);
    let n = ws.len() as int;
    let list = windows(n, 0, size, overlap);
    text::words_are_words(s);
    windows_overlap(n, 0, size, overlap);
    assert forall|k: int| 0 <= k < list.len() implies 0 <= (#[trigger] list[k]).0 && list[k].1
        <= ws.len() && list[k].1 - list[k].0 > 20 by {
        if k == list.len() - 1 && k > 0 {
            assert(list[k - 1].1 - list[k - 1].0 == size);
            lemma_last_window(n, 0, size, overlap);
        }
    }
    lemma_long_windows_are_kept(ws, list);
}

proof fn lemma_last_window(n: int, start: int, size: int, overlap: int)
    requires
        0 <= start < n,
        0 <= overlap < size,
    ensures
        ({
            let list = windows(n, start, size, overlap);
            list.len() > 1 ==> list.last().1 - list.last().0 > overlap
        }),
    decreases n - start,
{
    if start + size < n {
        let next = start + size - overlap;
        let rest = windows(n, next, size, overlap);
        windows_overlap(n, next, size, overlap);
        lemma_last_window(n, next, size, overlap);
        assert(windows(n, start, size, overlap).last() == rest.last());
        if rest.len() == 1 {
            assert(rest.last() == rest[0]);
        }
    }
}

proof fn lemma_kept_starts(ws: Seq<Seq<char>>, list: Seq<(int, int)>, k: int)
    requires
        0 <= k < kept(ws, list).len(),
    ensures
        kept_starts(ws, list).len() == kept(ws, list).len(),
        exists|i: int|
            0 <= i < list.len() && (#[trigger] list[i]).0 == kept_starts(ws, list)[k] && kept(
                ws,
                list,
            )[k] == passage(ws, list[i]),
    decreases list.len(),
{
    let init = list.drop_last();
    lemma_kept_lengths(ws, list);
    lemma_kept_lengths(ws, init);
    if k < kept(ws, init).len() {
        lemma_kept_starts(ws, init, k);
        let i = choose|i: int|
            0 <= i < init.len() && (#[trigger] init[i]).0 == kept_starts(ws, init)[k] && kept(
                ws,
                init,
            )[k] == passage(ws, init[i]);
        assert(list[i] == init[i]);
    } else {
        assert(list[list.len() - 1] == list.last());
    }
}

proof fn lemma_kept_lengths(ws: Seq<Seq<char>>, list: Seq<(int, int)>)
    ensures
        kept_starts(ws, list).len() == kept(ws, list).len(),
    decreases list.len(),
{
    if list.len() > 0 {
        lemma_kept_lengths(ws, list.drop_last());
    }
}

/// Each passage begins with the word that is noted for it, and goes on from there.
pub proof fn passages_begin_at_their_starts(s: Seq<char>, size: int, overlap: int, k: int)
    requires
        0 <= overlap < size,
        0 <= k < passages(text::words(s), size, overlap).len(),
    ensures
        ({
            let ws = text::words(s);
            let start = passage_starts(ws, size, overlap)[k];
            &&& passage_starts(ws, size, overlap).len() == passages(ws, size, overlap).len()
            &&& exists|end: int|
                0 <= start < end <= ws.len() && passages(ws, size, overlap)[k]
                    == #[trigger] passage(ws, (start, end))
        }),
{
    let ws = text::words(s);
    let n = ws.len() as int;
    let start = passage_starts(ws, size, overlap)[k];
    if n <= size {
        assert(ws.subrange(0, n) == ws);
        assert(passages(ws, size, overlap)[k] == passage(ws, (start, n)));
    } else {
        let list = windows(n, 0, size, overlap);
        windows_overlap(n, 0, size, overlap);
        lemma_kept_starts(ws, list, k);
        let i = choose|i: int|
            0 <= i < list.len() && (#[trigger] list[i]).0 == kept_starts(ws, list)[k] && kept(
                ws,
                list,
            )[k] == passage(ws, list[i]);
        assert(list[i] == (start, list[i].1));
        assert(passages(ws, size, overlap)[k] == passage(ws, (start, list[i].1)));
    }
}

/// With the sizes that documents are indexed with, no word of a document is lost:
/// each lies in a passage, among neighbours that the passage has in the document's
/// order.
pub proof fn no_word_is_lost(s: Seq<char>, i: int)
    requires
        0 <= i < text::words(s).len(),
    ensures
        ({
            let ws = text::words(s);
            let r = passages(ws, CHUNK_WORDS as int, CHUNK_OVERLAP_WORDS as int);
            exists|k: int, a: int, b: int|
                0 <= k < r.len() && 0 <= a <= i < b <= ws.len() && b - a <= CHUNK_WORDS
                    && #[trigger] r[k] == #[trigger] passage(ws, (a, b))
        }),
{
    let ws = text::words(s);
    let n = ws.len() as int;
    let size = CHUNK_WORDS as int;
    let overlap = CHUNK_OVERLAP_WORDS as int;
    let r = passages(ws, size, overlap);
    if n <= size {
        assert(ws.subrange(0, n) == ws);
        assert(r[0] == passage(ws, (0, n)));
    } else {
        let list = windows(n, 0, size, overlap);
        windows_overlap(n, 0, size, overlap);
        windows_cover(n, 0, size, overlap, i);
        every_window_is_kept(s, size, overlap);
        let k = choose|k: int| 0 <= k < list.len() && (#[trigger] list[k]).0 <= i < list[k].1;
        assert(r[k] == passage(ws, list[k]));
        assert(list[k] == (list[k].0, list[k].1));
    }
}

proof fn lemma_words_in_a_row(ws: Seq<Seq<char>>, a: int, b: int)
    requires
        0 <= a <= b <= ws.len(),
        forall|k: int| 0 <= k < ws.len() ==> text::is_word(#[trigger] ws[k]),
    ensures
        text::words(passage(ws, (a, b))) == ws.subrange(a, b),
{
    let part = ws.subrange(a, b);
    assert forall|k: int| 0 <= k < part.len() implies text::is_word(#[trigger] part[k]) by {
        assert(part[k] == ws[a + k]);
    }
    text::joined_words_are_found_again(part);
}

/// The words of a passage are the words of its window, all of them in order and no
/// others.
pub proof fn passages_have_the_words_of_their_window(s: Seq<char>, a: int, b: int)
    requires
        0 <= a <= b <= text::words(s).len(),
    ensures
        text::words(passage(text::words(s), (a, b))) == text::words(s).subrange(a, b),
{
    text::words_are_words(s);
    lemma_words_in_a_row(text::words(s), a, b);
}

/// Every passage of a text has words that stand in a row in the text, no more of them
/// than a passage may have, from the one on that is noted for it.
pub proof fn passages_are_words_in_a_row(s: Seq<char>, size: int, overlap: int, k: int)
    requires
        0 <= overlap < size,
        0 <= k < passages(text::words(s), size, overlap).len(),
    ensures
        ({
            let ws = text::words(s);
            let found = text::words(passages(ws, size, overlap)[k]);
            let start = passage_starts(ws, size, overlap)[k];
            &&& 0 < found.len() <= size
            &&& 0 <= start
            &&& start + found.len() <= ws.len()
            &&& found == ws.subrange(start, start + found.len())
        }),
{
    let ws = text::words(s);
    let n = ws.len() as int;
    let start = passage_starts(ws, size, overlap)[k];
    text::words_are_words(s);
    if n <= size {
        assert(ws.subrange(0, n) == ws);
        lemma_words_in_a_row(ws, 0, n);
        assert(passages(ws, size, overlap)[k] == passage(ws, (0, n)));
    } else {
        let list = windows(n, 0, size, overlap);
        windows_overlap(n, 0, size, overlap);
        lemma_kept_starts(ws, list, k);
        let i = choose|i: int|
            0 <= i < list.len() && (#[trigger] list[i]).0 == kept_starts(ws, list)[k] && kept(
                ws,
                list,
            )[k] == passage(ws, list[i]);
        assert(list[i] == (start, list[i].1));
        lemma_words_in_a_row(ws, start, list[i].1);
    }
}

/// A text that has no more words than a passage may have is one passage with all its
/// words, however short; a blank one is none.
pub proof fn short_texts_are_one_passage(s: Seq<char>, size: int, overlap: int)
    requires
        text::words(s).len() <= size,
    ensures
        ({
            let r = passages(text::words(s), size, overlap);
            let starts = passage_starts(text::words(s), size, overlap);
            &&& text::words(s).len() == 0 ==> r.len() == 0 && starts.len() == 0
            &&& text::words(s).len() > 0 ==> r.len() == 1 && text::words(r[0]) == text::words(s)
                && starts == seq![0int]
        }),
{
    let ws = text::words(s);
    text::words_are_words(s);
    if ws.len() > 0 {
        assert(ws.subrange(0, ws.len() as int) == ws);
        lemma_words_in_a_row(ws, 0, ws.len() as int);
        assert(passages(ws, size, overlap)[0] == passage(ws, (0, ws.len() as int)));
    }
}

/// A text that has more words than a passage may have is cut at its windows: those that are
/// kept give its passages, in order. The last window goes on beyond what it has in common
/// with the one before it.
pub proof fn long_texts_are_cut_at_windows(s: Seq<char>, size: int, overlap: int)
    requires
        0 <= overlap < size < text::words(s).len(),
    ensures
        ({
            let ws = text::words(s);
            let list = windows(ws.len() as int, 0, size, overlap);
            &&& passages(ws, size, overlap) == kept(ws, list)
            &&& passage_starts(ws, size, overlap) == kept_starts(ws, list)
            &&& list.len() > 1
            &&& list.last().1 - list.last().0 > overlap
        }),
{
    let n = text::words(s).len() as int;
    let list = windows(n, 0, size, overlap);
    windows_overlap(n, 0, size, overlap);
    if list.len() == 1 {
        assert(list.last() == list[0]);
    }
    lemma_last_window(n, 0, size, overlap);
}

/// The places where passages begin are listed one by one.
pub proof fn places_are_listed_one_by_one(list: Seq<usize>)
    ensures
        indices(list).len() == list.len(),
        forall|i: int| 0 <= i < list.len() ==> #[trigger] indices(list)[i] == list[i],
{
}

proof fn lemma_words_in_common(ws: Seq<Seq<char>>, a: int, b: int, c: int, d: int)
    requires
        0 <= a < b < d <= ws.len(),
        b - a == 300,
        c == b - 50,
    ensures
        ws.subrange(c, d).take(50) == ws.subrange(a, b).skip(250),
{
}

/// The passages of a text of more than 300 words begin with its first words and end with
/// its last; each but the last has 300 words, and each begins with the last 50 words of
/// the one before it.
pub proof fn long_texts_are_passages_that_overlap(s: Seq<char>)
    requires
        text::words(s).len() > 300,
    ensures
        ({
            let ws = text::words(s);
            let r = passages(ws, 300, 50);
            &&& r.len() > 1
            &&& text::words(r[0]) == ws.take(300)
            &&& text::words(r.last()).len() <= 300
            &&& text::words(r.last()) == ws.skip(ws.len() - text::words(r.last()).len())
            &&& forall|k: int|
                0 <= k < r.len() - 1 ==> text::words(#[trigger] r[k]).len() == 300 && text::words(
                    r[k + 1],
                ).len() > 50 && text::words(r[k + 1]).take(50) == text::words(r[k]).skip(250)
        }),
{
    let ws = text::words(s);
    let n = ws.len() as int;
    let list = windows(n, 0, 300, 50);
    let r = passages(ws, 300, 50);
    text::words_are_words(s);
    windows_overlap(n, 0, 300, 50);
    lemma_last_window(n, 0, 300, 50);
    every_window_is_kept(s, 300, 50);
    assert forall|k: int| 0 <= k < list.len() implies text::words(#[trigger] r[k]) == ws.subrange(
        list[k].0,
        list[k].1,
    ) by {
        assert(list[k] == (list[k].0, list[k].1));
        lemma_words_in_a_row(ws, list[k].0, list[k].1);
    }
    assert(list[0].1 - list[0].0 <= 300);
    assert(list.len() > 1) by {
        if list.len() == 1 {
            assert(list.last() == list[0]);
        }
    }
    assert(list[0].1 == 300);
    assert(text::words(r[0]) == ws.take(300));
    let last = list.len() - 1;
    assert(list[last] == list.last());
    assert(r[last] == r.last());
    assert(text::words(r[last]) == ws.skip(list[last].0));
    assert forall|k: int| 0 <= k < r.len() - 1 implies text::words(#[trigger] r[k]).len() == 300
        && text::words(r[k + 1]).len() > 50 && text::words(r[k + 1]).take(50) == text::words(
        r[k],
    ).skip(250) by {
        assert(list[k].1 - list[k].0 == 300 && list[k + 1].0 == list[k].1 - 50);
        if k + 1 != last {
            assert(list[k + 1].1 - list[k + 1].0 == 300);
        }
        lemma_words_in_common(ws, list[k].0, list[k].1, list[k + 1].0, list[k + 1].1);
    }
}

/// Every word of a document is a word of some passage that is stored of it.
pub proof fn every_word_is_a_word_of_a_passage(s: Seq<char>, i: int)
    requires
        0 <= i < text::words(s).len(),
    ensures
        exists|k: int, j: int|
            0 <= k < passages(text::words(s), 300, 50).len() && 0 <= j < text::words(
                passages(text::words(s), 300, 50)[k],
            ).len() && #[trigger] text::words(passages(text::words(s), 300, 50)[k])[j]
                == text::words(s)[i],
{
    let ws = text::words(s);
    let r = passages(ws, 300, 50);
    no_word_is_lost(s, i);
    text::words_are_words(s);
    let (k, a, b) = choose|k: int, a: int, b: int|
        0 <= k < r.len() && 0 <= a <= i < b <= ws.len() && b - a <= CHUNK_WORDS && #[trigger] r[k]
            == #[trigger] passage(ws, (a, b));
    lemma_words_in_a_row(ws, a, b);
    assert(text::words(r[k])[i - a] == ws[i]);
}

proof fn lemma_single_spaced(ws: Seq<Seq<char>>)
    requires
        ws.len() > 0,
        forall|k: int| 0 <= k < ws.len() ==> text::is_word(#[trigger] ws[k]),
    ensures
        ({
            let p = text::joined(ws, " "@);
            forall|i: int|
                0 <= i < p.len() && text::is_white(#[trigger] p[i]) ==> p[i] == ' ' && 0 < i
                    < p.len() - 1 && !text::is_white(p[i + 1])
        }),
    decreases ws.len(),
{
    reveal_strlit(" ");
    let p = text::joined(ws, " "@);
    let w = ws.last();
    assert(text::is_word(ws[ws.len() - 1]));
    if ws.len() > 1 {
        let init = ws.drop_last();
        assert forall|k: int| 0 <= k < init.len() implies text::is_word(#[trigger] init[k]) by {
            assert(init[k] == ws[k]);
        }
        lemma_single_spaced(init);
        lemma_joined_words(init);
        let a = text::joined(init, " "@);
        assert(p == a + " "@ + w);
        assert forall|i: int| 0 <= i < p.len() && text::is_white(#[trigger] p[i]) implies p[i]
            == ' ' && 0 < i < p.len() - 1 && !text::is_white(p[i + 1]) by {
            if i < a.len() {
                assert(p[i] == a[i]);
                assert(a[i + 1] == p[i + 1]);
            } else if i == a.len() {
                assert(p[i + 1] == w[0]);
            } else {
                assert(p[i] == w[i - a.len() - 1]);
            }
        }
    } else {
        assert(p == w);
    }
}

/// Between the words of a passage stands a single blank, and nothing stands around them.
pub proof fn passages_are_single_spaced(s: Seq<char>, size: int, overlap: int, k: int, i: int)
    requires
        0 <= overlap < size,
        0 <= k < passages(text::words(s), size, overlap).len(),
        0 <= i < passages(text::words(s), size, overlap)[k].len(),
        text::is_white(passages(text::words(s), size, overlap)[k][i]),
    ensures
        ({
            let p = passages(text::words(s), size, overlap)[k];
            &&& p[i] == ' '
            &&& 0 < i < p.len() - 1
            &&& !text::is_white(p[i + 1])
        }),
{
    let ws = text::words(s);
    let n = ws.len() as int;
    text::words_are_words(s);
    if n <= size {
        lemma_single_spaced(ws);
    } else {
        let list = windows(n, 0, size, overlap);
        windows_overlap(n, 0, size, overlap);
        lemma_kept_starts(ws, list, k);
        let j = choose|j: int|
            0 <= j < list.len() && (#[trigger] list[j]).0 == kept_starts(ws, list)[k] && kept(
                ws,
                list,
            )[k] == passage(ws, list[j]);
        let part = ws.subrange(list[j].0, list[j].1);
        assert forall|m: int| 0 <= m < part.len() implies text::is_word(#[trigger] part[m]) by {
            assert(part[m] == ws[list[j].0 + m]);
        }
        lemma_single_spaced(part);
    }
}

/// Of the windows of a long text those are kept, one by one and in order, whose passage
/// has more than 40 bytes.
pub proof fn windows_of_more_than_40_bytes_are_kept(
    ws: Seq<Seq<char>>,
    a: Seq<(int, int)>,
    window: (int, int),
)
    ensures
        kept(ws, Seq::empty()) == Seq::<Seq<char>>::empty(),
        kept(ws, a.push(window)) == (if vstd::utf8::encode_utf8(
            text::trimmed(passage(ws, window)),
        ).len() > 40 {
            kept(ws, a).push(passage(ws, window))
        } else {
            kept(ws, a)
        }),
        kept_starts(ws, a.push(window)) == (if vstd::utf8::encode_utf8(
            text::trimmed(passage(ws, window)),
        ).len() > 40 {
            kept_starts(ws, a).push(window.0)
        } else {
            kept_starts(ws, a)
        }),
{
    assert(a.push(window).drop_last() == a);
}

/// Bytes that are no UTF-8 and have no byte order mark are read one character for one
/// byte: those below 0x80 and from 0xa0 on as the character of that number, those between
/// as windows-1252 has them.
pub proof fn bytes_are_read_one_by_one(bytes: Seq<u8>, i: int)
    requires
        !vstd::utf8::valid_utf8(bytes),
        bytes.len() >= 3 ==> !(bytes[0] == 0xef && bytes[1] == 0xbb && bytes[2] == 0xbf),
        bytes.len() >= 2 ==> !(bytes[0] == 0xff && bytes[1] == 0xfe) && !(bytes[0] == 0xfe
            && bytes[1] == 0xff),
        0 <= i < bytes.len(),
    ensures
        text_of(bytes).len() == bytes.len(),
        bytes[i] < 0x80 || bytes[i] >= 0xa0 ==> text_of(bytes)[i] as int == bytes[i],
        0x80 <= bytes[i] < 0xa0 ==> text_of(bytes)[i] == seq![
            '\u{20ac}', '\u{81}', '\u{201a}', '\u{192}', '\u{201e}', '\u{2026}', '\u{2020}',
            '\u{2021}', '\u{2c6}', '\u{2030}', '\u{160}', '\u{2039}', '\u{152}', '\u{8d}',
            '\u{17d}', '\u{8f}', '\u{90}', '\u{2018}', '\u{2019}', '\u{201c}', '\u{201d}',
            '\u{2022}', '\u{2013}', '\u{2014}', '\u{2dc}', '\u{2122}', '\u{161}', '\u{203a}',
            '\u{153}', '\u{9d}', '\u{17e}', '\u{178}',
        ][bytes[i] - 0x80],
{
}

/// What a program wrote as UTF-8 is read back as it was.
pub proof fn written_utf8_is_read_back(s: Seq<char>)
    ensures
        utf8_lossy(vstd::utf8::encode_utf8(s)) == s,
{
    vstd::utf8::encode_utf8_valid_utf8(s);
    vstd::utf8::encode_utf8_decode_utf8(s);
}

/// The extension that a file is refused for is the one behind the last `.` of its name,
/// in lower case.
pub proof fn refused_extensions_are_shown(base: Seq<char>, stem: Seq<char>, ext: Seq<char>)
    requires
        stem.len() > 0,
        stem != "."@ || ext.len() > 0,
        forall|i: int| 0 <= i < stem.len() ==> #[trigger] stem[i] != '/',
        forall|i: int| 0 <= i < ext.len() ==> #[trigger] ext[i] != '/' && ext[i] != '.',
    ensures
        lower_extension(paths::path_in(base, stem.push('.') + ext)) == text::lowercase(ext),
{
    paths::extensions_follow_the_last_dot(base, stem, ext);
}

/// Bytes that are no UTF-8 and begin with a byte order mark are read as windows-1252 is
/// decoded, and malformed UTF-8 of an extraction with replacement characters, all of them
/// and nothing else.
pub proof fn marked_and_malformed_bytes_are_decoded_whole(bytes: Seq<u8>)
    requires
        !vstd::utf8::valid_utf8(bytes),
    ensures
        bytes.len() >= 3 && bytes[0] == 0xef && bytes[1] == 0xbb && bytes[2] == 0xbf ==> text_of(
            bytes,
        ) == decoded_1252(bytes),
        bytes.len() >= 2 && bytes[0] == 0xff && bytes[1] == 0xfe ==> text_of(bytes)
            == decoded_1252(bytes),
        bytes.len() >= 2 && bytes[0] == 0xfe && bytes[1] == 0xff ==> text_of(bytes)
            == decoded_1252(bytes),
        utf8_lossy(bytes) == std_lossy(bytes),
{
}

/// A file whose name has no extension is refused with an empty one.
pub proof fn names_without_extension_are_refused_with_none(path: Seq<char>)
    requires
        paths::extension_part(path) is None,
    ensures
        lower_extension(path).len() == 0,
{
    reveal_strlit("");
    assert(""@ == Seq::<char>::empty());
    assert(text::lower_chars(Seq::<char>::empty()) == Seq::<char>::empty());
}

} // verus!
