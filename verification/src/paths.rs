//! Paths as text, with `/` between their parts: file names, extensions, paths
//! relative to a directory, and names that are safe to store a file under.
use crate::text;
use crate::text::{ascii_fold, from_chars, owned, position_of, replace, same_text, split, to_chars};
use vstd::prelude::*;

verus! {

/// `name` inside the directory `base`; an absolute `name` stands for itself.
pub open spec fn path_in(base: Seq<char>, name: Seq<char>) -> Seq<char> {
    if name.len() > 0 && name[0] == '/' {
        name
    } else if base.len() == 0 || base.last() == '/' {
        base + name
    } else {
        base.push('/') + name
    }
}

/// `name` inside the directory `base`.
pub fn join_path(base: &str, name: &str) -> (r: String)
    ensures
        r@ == path_in(base@, name@),
{
    let b: Vec<char> = to_chars(base);
    let n: Vec<char> = to_chars(name);
    if n.len() > 0 && n[0] == '/' {
        return owned(name);
    }
    let mut out: String = owned(base);
    if b.len() > 0 && b[b.len() - 1] != '/' {
        out.push('/');
    }
    out.push_str(name);
    out
}

// ---------------------------------------------------------------------------
// File names and extensions
// ---------------------------------------------------------------------------

/// The last of the parts that is neither empty nor `.`.
pub open spec fn last_part(parts: Seq<Seq<char>>) -> Option<Seq<char>>
    decreases parts.len(),
{
    if parts.len() == 0 {
        None
    } else if parts.last().len() > 0 && parts.last() != "."@ {
        Some(parts.last())
    } else {
        last_part(parts.drop_last())
    }
}

/// The last part of a path, unless that is `..` or there is none.
pub open spec fn name_part(path: Seq<char>) -> Option<Seq<char>> {
    match last_part(text::pieces(path, '/')) {
        Some(part) => if part == ".."@ {
            None
        } else {
            Some(part)
        },
        None => None,
    }
}

/// The last part of a path, unless that is `..` or there is none.
pub fn file_name(path: &str) -> (r: Option<String>)
    ensures
        match r {
            Some(name) => name_part(path@) == Some(name@),
            None => name_part(path@) is None,
        },
{
    let parts: Vec<String> = split(path, '/');
    let mut n: usize = parts.len();
    let ghost all = text::views(parts@);
    assert(all.take(n as int) == all);
    while n > 0
        invariant
            n <= parts@.len(),
            all == text::views(parts@),
            all == text::pieces(path@, '/'),
            last_part(all.take(n as int)) == last_part(all),
        decreases n,
    {
        let part: &String = &parts[n - 1];
        assert(all.take(n as int).last() == part@);
        if !part.as_str().is_empty() && !same_text(part.as_str(), ".") {
            if same_text(part.as_str(), "..") {
                return None;
            }
            return Some(part.clone());
        }
        assert(all.take(n as int).drop_last() == all.take(n - 1));
        n = n - 1;
    }
    None
}

/// The index of the last `.` of a name, or -1.
pub open spec fn dot_place(name: Seq<char>) -> int
    decreases name.len(),
{
    if name.len() == 0 {
        -1
    } else if name.last() == '.' {
        name.len() - 1
    } else {
        dot_place(name.drop_last())
    }
}

/// What follows the last `.` of the file name, unless the name has no `.` but,
/// at most, at its beginning.
pub open spec fn extension_part(path: Seq<char>) -> Option<Seq<char>> {
    match name_part(path) {
        Some(name) => if dot_place(name) <= 0 {
            None
        } else {
            Some(name.skip(dot_place(name) + 1))
        },
        None => None,
    }
}

/// What follows the last `.` of the file name.
pub fn extension(path: &str) -> (r: Option<String>)
    ensures
        match r {
            Some(ext) => extension_part(path@) == Some(ext@),
            None => extension_part(path@) is None,
        },
{
    let name: String = match file_name(path) {
        Some(name) => name,
        None => {
            return None;
        },
    };
    let chars: Vec<char> = to_chars(name.as_str());
    let mut n: usize = chars.len();
    assert(chars@.take(n as int) == name@);
    while n > 0 && chars[n - 1] != '.'
        invariant
            n <= chars@.len(),
            chars@ == name@,
            dot_place(chars@.take(n as int)) == dot_place(name@),
        decreases n,
    {
        assert(chars@.take(n as int).drop_last() == chars@.take(n - 1));
        n = n - 1;
    }
    if n <= 1 {
        return None;
    }
    assert(dot_place(name@) == n - 1);
    let ext: String = from_chars(&chars, n, chars.len());
    assert(ext@ == name@.skip(n as int));
    Some(ext)
}

/// How the text of a supported document is obtained.
#[derive(Clone, Copy, PartialEq, Eq, Debug, Structural)]
pub enum DocumentKind {
    /// The file holds the text.
    Text,
    /// The file is a PDF.
    Pdf,
}

/// The kind of document that a lower-case extension stands for.
pub open spec fn kind_of(ext: Seq<char>) -> Option<DocumentKind> {
    if ext == "txt"@ || ext == "md"@ {
        Some(DocumentKind::Text)
    } else if ext == "pdf"@ {
        Some(DocumentKind::Pdf)
    } else {
        None
    }
}

/// The kind of document that a lower-case extension stands for.
pub fn document_kind(ext: &str) -> (r: Option<DocumentKind>)
    ensures
        r == kind_of(ext@),
{
    if same_text(ext, "txt") || same_text(ext, "md") {
        Some(DocumentKind::Text)
    } else if same_text(ext, "pdf") {
        Some(DocumentKind::Pdf)
    } else {
        None
    }
}

/// The kind of document at a path: the one of its extension, in any case.
pub open spec fn kind_at(path: Seq<char>) -> Option<DocumentKind> {
    match extension_part(path) {
        Some(ext) => kind_of(text::ascii_folded(ext)),
        None => None,
    }
}

/// The kind of document at a path. No character beyond ASCII becomes one of the letters
/// of the extensions in lower case, so that ASCII letters are all that matters.
pub fn path_kind(path: &str) -> (r: Option<DocumentKind>)
    ensures
        r == kind_at(path@),
{
    match extension(path) {
        Some(ext) => document_kind(ascii_fold(ext.as_str()).as_str()),
        None => None,
    }
}

/// Whether the extension of a path, in any case, is one of the supported ones.
pub open spec fn supported(path: Seq<char>) -> bool {
    kind_at(path) is Some
}

/// Whether a file found under the document directory is indexed.
pub fn is_supported_file(path: &str) -> (r: bool)
    ensures
        r == supported(path@),
{
    path_kind(path).is_some()
}

/// Whether a file of this name may be uploaded.
pub fn is_supported_filename(name: &str) -> (r: bool)
    ensures
        r == supported(name@),
{
    is_supported_file(name)
}

// ---------------------------------------------------------------------------
// Safe names
// ---------------------------------------------------------------------------

/// The characters that a stored file's name may have.
pub open spec fn safe_char(c: char) -> bool {
    text::ascii_alphanumeric(c) || c == '.' || c == '-' || c == '_'
}

/// A text with `_` in place of every character that is not safe.
pub open spec fn made_safe(s: Seq<char>) -> Seq<char> {
    s.map_values(|c: char| if safe_char(c) { c } else { '_' })
}

/// The name that an upload is stored under: its last part with `_` in place of
/// every character that is not safe.
pub open spec fn safe_name(name: Seq<char>) -> Seq<char> {
    let base = match name_part(name) {
        Some(part) => part,
        None => "documento.txt"@,
    };
    made_safe(base)
}

/// The name that an upload is stored under.
pub fn sanitize_filename(name: &str) -> (r: String)
    ensures
        r@ == safe_name(name@),
{
    let base: String = match file_name(name) {
        Some(part) => part,
        None => owned("documento.txt"),
    };
    let chars: Vec<char> = to_chars(base.as_str());
    let mut out: String = String::new();
    let mut i: usize = 0;
    while i < chars.len()
        invariant
            i <= chars@.len() == safe_name(name@).len(),
            forall|k: int|
                0 <= k < chars@.len() ==> #[trigger] safe_name(name@)[k] == (if safe_char(
                    chars@[k],
                ) {
                    chars@[k]
                } else {
                    '_'
                }),
            out@ == safe_name(name@).take(i as int),
        decreases chars@.len() - i,
    {
        let c: char = chars[i];
        if ('a' <= c && c <= 'z') || ('A' <= c && c <= 'Z') || ('0' <= c && c <= '9') || c == '.'
            || c == '-' || c == '_' {
            out.push(c);
        } else {
            out.push('_');
        }
        i = i + 1;
        assert(safe_name(name@).take(i as int) == safe_name(name@).take(i - 1).push(
            safe_name(name@)[i - 1],
        ));
    }
    assert(safe_name(name@).take(i as int) == safe_name(name@));
    out
}

proof fn lemma_last_part(parts: Seq<Seq<char>>)
    ensures
        last_part(parts) matches Some(p) ==> p.len() > 0 && p != "."@ && parts.contains(p),
    decreases parts.len(),
{
    if parts.len() > 0 {
        if parts.last().len() > 0 && parts.last() != "."@ {
            assert(parts[parts.len() - 1] == parts.last());
        } else {
            lemma_last_part(parts.drop_last());
            if let Some(p) = last_part(parts.drop_last()) {
                let k = choose|k: int| 0 <= k < parts.drop_last().len() && parts.drop_last()[k] == p;
                assert(parts[k] == p);
            }
        }
    }
}

proof fn lemma_one_piece(s: Seq<char>)
    requires
        forall|i: int| 0 <= i < s.len() ==> #[trigger] s[i] != '/',
    ensures
        text::pieces(s, '/') == seq![s],
{
    text::lemma_find_char_at(s, '/', s.len());
}

/// A name without separators that is not empty, `.` or `..` is its own file name.
proof fn lemma_plain_name(s: Seq<char>)
    requires
        forall|i: int| 0 <= i < s.len() ==> #[trigger] s[i] != '/',
        s.len() > 0,
        s != "."@,
        s != ".."@,
    ensures
        name_part(s) == Some(s),
{
    lemma_one_piece(s);
    assert(seq![s].last() == s);
}

/// Whatever name comes with an upload, the name that it is stored under is a
/// single part made of safe characters: not empty, neither `.` nor `..`, and
/// without a separator. So the file lands in the document directory itself.
pub proof fn safe_name_is_one_safe_part(name: Seq<char>)
    ensures
        safe_name(name).len() > 0,
        forall|i: int|
            0 <= i < safe_name(name).len() ==> safe_char(#[trigger] safe_name(name)[i]),
        safe_name(name) != "."@,
        safe_name(name) != ".."@,
        name_part(safe_name(name)) == Some(safe_name(name)),
{
    reveal_strlit("documento.txt");
    reveal_strlit(".");
    reveal_strlit("..");
    let parts = text::pieces(name, '/');
    lemma_last_part(parts);
    let base = match name_part(name) {
        Some(part) => part,
        None => "documento.txt"@,
    };
    let r = safe_name(name);
    assert(r.len() == base.len());
    assert forall|i: int| 0 <= i < r.len() implies safe_char(#[trigger] r[i]) && r[i] != '/' by {
        assert(r[i] == if safe_char(base[i]) { base[i] } else { '_' });
    }
    if r == "."@ {
        assert(r[0] == if safe_char(base[0]) { base[0] } else { '_' });
        assert(base == "."@);
    }
    if r == ".."@ {
        assert(r[0] == if safe_char(base[0]) { base[0] } else { '_' });
        assert(r[1] == if safe_char(base[1]) { base[1] } else { '_' });
        assert(base == ".."@);
    }
    lemma_plain_name(r);
}

/// A safe name is left as it is: making a name safe twice is making it safe once.
pub proof fn safe_name_is_idempotent(name: Seq<char>)
    ensures
        safe_name(safe_name(name)) == safe_name(name),
{
    safe_name_is_one_safe_part(name);
    let r = safe_name(name);
    assert(safe_name(r) == r);
}

proof fn lemma_dot_place(name: Seq<char>)
    ensures
        dot_place(made_safe(name)) == dot_place(name),
        -1 <= dot_place(name) < name.len(),
    decreases name.len(),
{
    if name.len() > 0 {
        assert(made_safe(name).drop_last() == made_safe(name.drop_last()));
        lemma_dot_place(name.drop_last());
    }
}

proof fn lemma_kind_letters(ext: Seq<char>, i: int)
    requires
        kind_of(ext) is Some,
        0 <= i < ext.len(),
    ensures
        'a' <= ext[i] <= 'z',
{
    reveal_strlit("txt");
    reveal_strlit("md");
    reveal_strlit("pdf");
    assert(i == 0 || i == 1 || i == 2);
}

/// An extension with a character that is not safe stands for no kind of document, and
/// neither does what it is made into.
proof fn lemma_safe_extension(ext: Seq<char>)
    ensures
        kind_of(text::ascii_folded(made_safe(ext))) == kind_of(text::ascii_folded(ext)),
{
    let safe = made_safe(ext);
    if exists|i: int| 0 <= i < ext.len() && !safe_char(#[trigger] ext[i]) {
        let i = choose|i: int| 0 <= i < ext.len() && !safe_char(#[trigger] ext[i]);
        assert(text::ascii_folded(safe)[i] == '_');
        assert(text::ascii_folded(ext)[i] == ext[i]);
        if kind_of(text::ascii_folded(safe)) is Some {
            lemma_kind_letters(text::ascii_folded(safe), i);
        }
        if kind_of(text::ascii_folded(ext)) is Some {
            lemma_kind_letters(text::ascii_folded(ext), i);
        }
    } else {
        assert(safe == ext);
    }
}

/// Making a name safe keeps its format: the safe name is supported if and only if the
/// name is.
pub proof fn safe_name_keeps_the_format(name: Seq<char>)
    requires
        name_part(name) is Some,
    ensures
        kind_at(safe_name(name)) == kind_at(name),
        supported(safe_name(name)) == supported(name),
{
    safe_name_is_one_safe_part(name);
    let base = name_part(name)->0;
    lemma_dot_place(base);
    let at = dot_place(base) + 1;
    assert(made_safe(base).skip(at) == made_safe(base.skip(at)));
    lemma_safe_extension(base.skip(at));
}

// ---------------------------------------------------------------------------
// Paths relative to a directory
// ---------------------------------------------------------------------------

/// A path without the separators and the `.` parts that it begins with.
pub open spec fn from_first_part(s: Seq<char>) -> Seq<char>
    decreases s.len(),
{
    if s.len() > 0 && s[0] == '/' {
        from_first_part(s.skip(1))
    } else if s.len() > 0 && s[0] == '.' && (s.len() == 1 || s[1] == '/') {
        from_first_part(s.skip(1))
    } else {
        s
    }
}

/// A path without the separators and the `.` parts that it ends with.
pub open spec fn to_last_part(s: Seq<char>) -> Seq<char>
    decreases s.len(),
{
    if s.len() > 0 && s.last() == '/' {
        to_last_part(s.drop_last())
    } else if s.len() > 0 && s.last() == '.' && (s.len() == 1 || s[s.len() - 2] == '/') {
        to_last_part(s.drop_last())
    } else {
        s
    }
}

/// What is left of a path from its first part on is the end of the path.
proof fn lemma_from_first_part(s: Seq<char>)
    ensures
        from_first_part(s).len() <= s.len(),
        from_first_part(s) == s.skip(s.len() - from_first_part(s).len()),
        from_first_part(s).len() > 0 ==> from_first_part(s)[0] != '/',
    decreases s.len(),
{
    let r = from_first_part(s);
    if s.len() > 0 && (s[0] == '/' || (s[0] == '.' && (s.len() == 1 || s[1] == '/'))) {
        lemma_from_first_part(s.skip(1));
        assert(s.skip(1).skip(s.len() - 1 - r.len()) == s.skip(s.len() - r.len()));
    } else {
        assert(s.skip(0) == s);
    }
}

/// What is left of `path` after the parts of `base`, where `path` begins with
/// them; neither has a beginning of its own (a root or a leading `.`).
pub open spec fn after_parts(path: Seq<char>, base: Seq<char>) -> Option<Seq<char>>
    decreases base.len(),
    via after_parts_decreases
{
    let p = from_first_part(path);
    let b = from_first_part(base);
    if b.len() == 0 {
        Some(p)
    } else {
        let n = text::find_char(b, '/') as int;
        let m = text::find_char(p, '/') as int;
        if n == m && p.take(m) == b.take(n) {
            after_parts(p.skip(m), b.skip(n))
        } else {
            None
        }
    }
}

#[via_fn]
proof fn after_parts_decreases(path: Seq<char>, base: Seq<char>) {
    lemma_from_first_part(base);
    text::lemma_find_char(from_first_part(base), '/');
}

/// Whether a path begins with a root.
pub open spec fn is_absolute(s: Seq<char>) -> bool {
    s.len() > 0 && s[0] == '/'
}

/// Whether a path begins with a `.` part.
pub open spec fn starts_here(s: Seq<char>) -> bool {
    s.len() > 0 && s[0] == '.' && (s.len() == 1 || s[1] == '/')
}

/// The path that leads from `base` to `path`, where `path` begins with the parts
/// of `base`; separators and `.` parts at its ends are left out.
pub open spec fn path_from(base: Seq<char>, path: Seq<char>) -> Option<Seq<char>> {
    if base.len() == 0 {
        if is_absolute(path) || starts_here(path) {
            Some(path.take(1) + to_last_part(path.skip(1)))
        } else {
            Some(to_last_part(path))
        }
    } else if is_absolute(base) != is_absolute(path) || starts_here(base) != starts_here(path) {
        None
    } else {
        let tail = if is_absolute(base) || starts_here(base) {
            after_parts(path.skip(1), base.skip(1))
        } else {
            after_parts(path, base)
        };
        match tail {
            Some(t) => Some(to_last_part(t)),
            None => None,
        }
    }
}

/// The name under which a document is known: its path from the document
/// directory, or its whole path where it lies elsewhere, with `/` for every `\`.
pub open spec fn source_name(root: Seq<char>, path: Seq<char>) -> Seq<char> {
    text::replaced(
        match path_from(root, path) {
            Some(rel) => rel,
            None => path,
        },
        '\\',
        '/',
    )
}

/// The index from which the parts of a path go on after `from`.
fn first_part_at(chars: &Vec<char>, from: usize) -> (r: usize)
    requires
        from <= chars@.len(),
    ensures
        from <= r <= chars@.len(),
        chars@.skip(r as int) == from_first_part(chars@.skip(from as int)),
{
    let n: usize = chars.len();
    let mut i: usize = from;
    while i < n && (chars[i] == '/' || (chars[i] == '.' && (i + 1 == n || chars[i + 1] == '/')))
        invariant
            from <= i <= n == chars@.len(),
            from_first_part(chars@.skip(i as int)) == from_first_part(chars@.skip(from as int)),
        decreases n - i,
    {
        assert(chars@.skip(i as int).skip(1) == chars@.skip(i + 1));
        i = i + 1;
    }
    i
}

/// The index after the last part of the path between `from` and the end.
fn last_part_end(chars: &Vec<char>, from: usize) -> (r: usize)
    requires
        from <= chars@.len(),
    ensures
        from <= r <= chars@.len(),
        chars@.subrange(from as int, r as int) == to_last_part(chars@.skip(from as int)),
{
    let mut n: usize = chars.len();
    let ghost s = chars@.skip(from as int);
    assert(s.take(n - from) == s);
    while n > from && (chars[n - 1] == '/' || (chars[n - 1] == '.' && (n == from + 1 || chars[n - 2]
        == '/')))
        invariant
            from <= n <= chars@.len(),
            s == chars@.skip(from as int),
            to_last_part(s.take(n - from)) == to_last_part(s),
        decreases n,
    {
        assert(s.take(n - from).drop_last() == s.take(n - from - 1));
        n = n - 1;
    }
    assert(s.take(n - from) == chars@.subrange(from as int, n as int));
    n
}

/// The index in `path` after the parts of `base`, both taken from `from` on.
fn skip_parts(path: &Vec<char>, base: &Vec<char>, from: usize) -> (r: Option<usize>)
    requires
        from <= path@.len(),
        from <= base@.len(),
    ensures
        match r {
            Some(i) => i <= path@.len() && after_parts(
                path@.skip(from as int),
                base@.skip(from as int),
            ) == Some(path@.skip(i as int)),
            None => after_parts(path@.skip(from as int), base@.skip(from as int)) is None,
        },
{
    let mut i: usize = from;
    let mut j: usize = from;
    loop
        invariant
            i <= path@.len(),
            j <= base@.len(),
            after_parts(path@.skip(from as int), base@.skip(from as int)) == after_parts(
                path@.skip(i as int),
                base@.skip(j as int),
            ),
        decreases base@.len() - j,
    {
        let p: usize = first_part_at(path, i);
        let b: usize = first_part_at(base, j);
        if b == base.len() {
            return Some(p);
        }
        let pe: usize = position_of(path, p, '/');
        let be: usize = position_of(base, b, '/');
        proof {
            lemma_from_first_part(base@.skip(j as int));
            text::lemma_find_char(base@.skip(b as int), '/');
        }
        if pe - p != be - b {
            return None;
        }
        let part: String = from_chars(path, p, pe);
        let expected: String = from_chars(base, b, be);
        proof {
            assert(part@ == path@.skip(p as int).take(pe - p));
            assert(expected@ == base@.skip(b as int).take(be - b));
            assert(path@.skip(p as int).skip(pe - p) == path@.skip(pe as int));
            assert(base@.skip(b as int).skip(be - b) == base@.skip(be as int));
        }
        if !same_text(part.as_str(), expected.as_str()) {
            return None;
        }
        i = pe;
        j = be;
    }
}

/// The path that leads from `base` to `path`, where `path` begins with the parts
/// of `base`.
pub fn strip_base(base: &str, path: &str) -> (r: Option<String>)
    ensures
        match r {
            Some(rel) => path_from(base@, path@) == Some(rel@),
            None => path_from(base@, path@) is None,
        },
{
    let b: Vec<char> = to_chars(base);
    let p: Vec<char> = to_chars(path);
    let absolute: bool = p.len() > 0 && p[0] == '/';
    let here: bool = p.len() > 0 && p[0] == '.' && (p.len() == 1 || p[1] == '/');
    assert(p@.skip(0) == p@ && b@.skip(0) == b@);
    if b.len() == 0 {
        let from: usize = if absolute || here {
            1
        } else {
            0
        };
        let end: usize = last_part_end(&p, from);
        let rel: String = from_chars(&p, 0, end);
        proof {
            assert(rel@ == p@.take(from as int) + p@.subrange(from as int, end as int));
        }
        return Some(rel);
    }
    let base_absolute: bool = b[0] == '/';
    let base_here: bool = b[0] == '.' && (b.len() == 1 || b[1] == '/');
    if base_absolute != absolute || base_here != here {
        return None;
    }
    let from: usize = if absolute || here {
        1
    } else {
        0
    };
    match skip_parts(&p, &b, from) {
        Some(at) => {
            let end: usize = last_part_end(&p, at);
            Some(from_chars(&p, at, end))
        },
        None => None,
    }
}

/// The name under which the document at `path` is known, where `root` is the
/// document directory.
pub fn relative_source(root: &str, path: &str) -> (r: String)
    ensures
        r@ == source_name(root@, path@),
{
    match strip_base(root, path) {
        Some(rel) => replace(rel.as_str(), '\\', '/'),
        None => replace(path, '\\', '/'),
    }
}

/// What is put behind `base` to name a file inside it: `name`, with a separator in
/// front at least where `base` ends in a part.
spec fn is_tail(base: Seq<char>, tail: Seq<char>, name: Seq<char>) -> bool {
    &&& tail == name || tail == seq!['/'] + name
    &&& base.len() > 0 && base.last() != '/' ==> tail == seq!['/'] + name
}

/// A name of one part: no separator, and not `.`.
pub open spec fn one_part(name: Seq<char>) -> bool {
    &&& name.len() > 0
    &&& name != "."@
    &&& forall|i: int| 0 <= i < name.len() ==> #[trigger] name[i] != '/'
}

/// A relative path that neither begins nor ends with a separator or a `.` part.
pub open spec fn clean_path(path: Seq<char>) -> bool {
    &&& path.len() > 0
    &&& !is_absolute(path)
    &&& !starts_here(path)
    &&& path.last() != '/'
    &&& !(path.last() == '.' && (path.len() == 1 || path[path.len() - 2] == '/'))
}

proof fn lemma_one_part_is_clean(name: Seq<char>)
    requires
        one_part(name),
    ensures
        clean_path(name),
{
    reveal_strlit(".");
    if name.len() == 1 {
        assert(name == seq![name[0]]);
        assert("."@ == seq!['.']);
    }
    assert(name[name.len() - 1] != '/');
}

proof fn lemma_part_starts(name: Seq<char>)
    requires
        clean_path(name),
    ensures
        name[0] != '/',
        from_first_part(name) == name,
        from_first_part(seq!['/'] + name) == name,
        to_last_part(name) == name,
{
    let longer = seq!['/'] + name;
    assert(longer.skip(1) == name);
    assert(from_first_part(longer) == from_first_part(longer.skip(1)));
}

proof fn lemma_first_part_of_longer(base: Seq<char>, tail: Seq<char>, name: Seq<char>)
    requires
        clean_path(name),
        is_tail(base, tail, name),
    ensures
        from_first_part(base + tail) == if from_first_part(base).len() == 0 {
            name
        } else {
            from_first_part(base) + tail
        },
    decreases base.len(),
{
    lemma_part_starts(name);
    if base.len() == 0 {
        assert(base + tail == tail);
    } else if base[0] == '/' || (base[0] == '.' && (base.len() == 1 || base[1] == '/')) {
        assert((base + tail).skip(1) == base.skip(1) + tail);
        if base.len() > 1 {
            assert(base.skip(1).last() == base.last());
        }
        lemma_first_part_of_longer(base.skip(1), tail, name);
    }
}

proof fn lemma_after_parts_of_base(base: Seq<char>, tail: Seq<char>, name: Seq<char>)
    requires
        clean_path(name),
        is_tail(base, tail, name),
    ensures
        after_parts(base + tail, base) == Some(name),
    decreases base.len(),
{
    lemma_first_part_of_longer(base, tail, name);
    lemma_from_first_part(base);
    let b = from_first_part(base);
    if b.len() > 0 {
        assert(b.last() == base.last());
        let n = text::find_char(b, '/');
        text::lemma_find_char(b, '/');
        assert forall|i: int| 0 <= i < n implies #[trigger] (b + tail)[i] != '/' by {
            assert((b + tail)[i] == b[i]);
        }
        text::lemma_find_char_at(b + tail, '/', n);
        assert((b + tail).take(n as int) == b.take(n as int));
        assert((b + tail).skip(n as int) == b.skip(n as int) + tail);
        lemma_after_parts_of_base(b.skip(n as int), tail, name);
    }
}

/// A file below the document directory is known by its path from there, of one part or
/// of several.
pub proof fn source_of_stored_file(root: Seq<char>, name: Seq<char>)
    requires
        clean_path(name),
        forall|i: int| 0 <= i < name.len() ==> #[trigger] name[i] != '\\',
    ensures
        source_name(root, path_in(root, name)) == name,
{
    lemma_part_starts(name);
    let path = path_in(root, name);
    let tail = if root.len() == 0 || root.last() == '/' {
        name
    } else {
        seq!['/'] + name
    };
    assert(path == root + tail);
    if root.len() == 0 {
        assert(path == name);
    } else if is_absolute(root) || starts_here(root) {
        assert(path.skip(1) == root.skip(1) + tail);
        if root.len() > 1 {
            assert(root.skip(1).last() == root.last());
        }
        lemma_after_parts_of_base(root.skip(1), tail, name);
    } else {
        lemma_after_parts_of_base(root, tail, name);
    }
    assert(path_from(root, path) == Some(name));
    assert(text::replaced(name, '\\', '/') == name);
}

/// An accepted upload is found again: the file stored in the document directory
/// is indexed if and only if its name was accepted, and it is indexed under that
/// name.
pub proof fn stored_upload_is_indexed_by_name(root: Seq<char>, upload: Seq<char>)
    ensures
        supported(path_in(root, safe_name(upload))) == supported(safe_name(upload)),
        source_name(root, path_in(root, safe_name(upload))) == safe_name(upload),
{
    let name = safe_name(upload);
    safe_name_is_one_safe_part(upload);
    assert forall|i: int| 0 <= i < name.len() implies #[trigger] name[i] != '/' && name[i]
        != '\\' by {
        assert(safe_char(name[i]));
    }
    lemma_one_part_is_clean(name);
    source_of_stored_file(root, name);
    lemma_name_of_path_in(root, name);
}

proof fn lemma_pieces_end(base: Seq<char>, name: Seq<char>)
    requires
        forall|i: int| 0 <= i < name.len() ==> #[trigger] name[i] != '/',
    ensures
        pieces_end_with(base.push('/') + name, name),
    decreases base.len(),
{
    let s = base.push('/') + name;
    let n = text::find_char(s, '/') as int;
    text::lemma_find_char(s, '/');
    assert(s[base.len() as int] == '/');
    if n > base.len() {
        assert(s[base.len() as int] != '/');
    }
    let rest = s.skip(n + 1);
    if n == base.len() {
        assert(rest == name);
        lemma_one_piece(name);
    } else {
        let shorter = base.skip(n + 1);
        assert(rest == shorter.push('/') + name);
        lemma_pieces_end(shorter, name);
    }
    assert(text::pieces(s, '/') == seq![s.take(n)] + text::pieces(rest, '/'));
}

spec fn pieces_end_with(s: Seq<char>, name: Seq<char>) -> bool {
    text::pieces(s, '/').len() > 0 && text::pieces(s, '/').last() == name
}

proof fn lemma_name_of_path_in(root: Seq<char>, name: Seq<char>)
    requires
        one_part(name),
        name != ".."@,
    ensures
        name_part(path_in(root, name)) == name_part(name),
{
    lemma_plain_name(name);
    let path = path_in(root, name);
    if root.len() == 0 {
        assert(path == name);
    } else if root.last() == '/' {
        assert(path == root.drop_last().push('/') + name);
        lemma_pieces_end(root.drop_last(), name);
    } else {
        lemma_pieces_end(root, name);
    }
}

/// A path inside a directory is the directory and the name, with one separator between
/// them where the directory does not end in one; an absolute name stands for itself.
pub proof fn paths_inside_a_directory(base: Seq<char>, name: Seq<char>)
    ensures
        name.len() > 0 && name[0] == '/' ==> path_in(base, name) == name,
        name.len() == 0 || name[0] != '/' ==> exists|between: Seq<char>|
            path_in(base, name) == #[trigger] (base + between) + name && (if base.len() == 0
                || base.last() == '/' {
                between.len() == 0
            } else {
                between == seq!['/']
            }),
{
    if name.len() == 0 || name[0] != '/' {
        if base.len() == 0 || base.last() == '/' {
            let none = Seq::<char>::empty();
            assert(path_in(base, name) == (base + none) + name);
        } else {
            assert(path_in(base, name) == (base + seq!['/']) + name);
        }
    }
}

/// The name of a file inside a directory is its name, whatever the directory.
pub proof fn files_have_their_name_in_any_directory(base: Seq<char>, name: Seq<char>)
    requires
        one_part(name),
        name != ".."@,
    ensures
        name_part(path_in(base, name)) == Some(name),
        name_part(base.push('/') + name) == Some(name),
{
    lemma_name_of_path_in(base, name);
    lemma_plain_name(name);
    lemma_pieces_end(base, name);
    let parts = text::pieces(base.push('/') + name, '/');
    assert(parts.last() == name);
}

proof fn lemma_dot_of(stem: Seq<char>, ext: Seq<char>)
    requires
        forall|i: int| 0 <= i < ext.len() ==> #[trigger] ext[i] != '.',
    ensures
        dot_place(stem.push('.') + ext) == stem.len(),
    decreases ext.len(),
{
    let s = stem.push('.') + ext;
    if ext.len() > 0 {
        let init = ext.drop_last();
        assert(s.drop_last() == stem.push('.') + init);
        assert(s.last() == ext[ext.len() - 1]);
        assert forall|i: int| 0 <= i < init.len() implies #[trigger] init[i] != '.' by {
            assert(init[i] == ext[i]);
        }
        lemma_dot_of(stem, init);
    } else {
        assert(s == stem.push('.'));
    }
}

proof fn lemma_no_dot(s: Seq<char>)
    requires
        forall|i: int| 0 <= i < s.len() ==> #[trigger] s[i] != '.',
    ensures
        dot_place(s) == -1,
    decreases s.len(),
{
    if s.len() > 0 {
        assert(s[s.len() - 1] != '.');
        let init = s.drop_last();
        assert forall|i: int| 0 <= i < init.len() implies #[trigger] init[i] != '.' by {
            assert(init[i] == s[i]);
        }
        lemma_no_dot(init);
    }
}

/// The extension of a file is what follows the last `.` of its name, and its kind is the
/// one of that extension in any case: text for `txt` and `md`, PDF for `pdf`, none for
/// anything else.
pub proof fn extensions_follow_the_last_dot(base: Seq<char>, stem: Seq<char>, ext: Seq<char>)
    requires
        stem.len() > 0,
        stem != "."@ || ext.len() > 0,
        forall|i: int| 0 <= i < stem.len() ==> #[trigger] stem[i] != '/',
        forall|i: int| 0 <= i < ext.len() ==> #[trigger] ext[i] != '/' && ext[i] != '.',
    ensures
        ({
            let path = path_in(base, stem.push('.') + ext);
            let small = text::ascii_folded(ext);
            &&& extension_part(path) == Some(ext)
            &&& kind_at(path) == (if small == "txt"@ || small == "md"@ {
                Some(DocumentKind::Text)
            } else if small == "pdf"@ {
                Some(DocumentKind::Pdf)
            } else {
                None
            })
            &&& supported(path) <==> small == "txt"@ || small == "md"@ || small == "pdf"@
        }),
{
    reveal_strlit(".");
    reveal_strlit("..");
    let name = stem.push('.') + ext;
    assert(name.len() >= 2);
    assert forall|i: int| 0 <= i < name.len() implies #[trigger] name[i] != '/' by {
        if i < stem.len() {
            assert(name[i] == stem[i]);
        } else if i > stem.len() {
            assert(name[i] == ext[i - stem.len() - 1]);
        }
    }
    if name == ".."@ {
        assert(name[1] == '.');
        assert(stem.len() == 1);
        assert(name[0] == stem[0]);
        assert(stem == "."@);
    }
    files_have_their_name_in_any_directory(base, name);
    lemma_dot_of(stem, ext);
    assert(name.skip(stem.len() as int + 1) == ext);
}

/// A name without a `.`, or with none but the one that it begins with, has no extension.
pub proof fn names_without_a_dot_have_no_extension(base: Seq<char>, name: Seq<char>)
    requires
        one_part(name),
        name != ".."@,
        forall|i: int| 1 <= i < name.len() ==> #[trigger] name[i] != '.',
    ensures
        extension_part(path_in(base, name)) is None,
        !supported(path_in(base, name)),
{
    files_have_their_name_in_any_directory(base, name);
    if name[0] == '.' {
        let rest = name.skip(1);
        assert forall|i: int| 0 <= i < rest.len() implies #[trigger] rest[i] != '.' by {
            assert(rest[i] == name[i + 1]);
        }
        lemma_dot_of(Seq::empty(), rest);
        assert(Seq::<char>::empty().push('.') + rest == name);
    } else {
        lemma_no_dot(name);
    }
}

/// The name that an upload is stored under has every safe character of its last part
/// where it was, and `_` in place of each other; an upload without a last part is stored
/// as `documento.txt`.
pub proof fn safe_characters_are_kept(name: Seq<char>)
    ensures
        name_part(name) matches Some(base) ==> {
            &&& safe_name(name).len() == base.len()
            &&& forall|i: int|
                0 <= i < base.len() ==> if 'a' <= #[trigger] base[i] <= 'z' || 'A' <= base[i] <= 'Z'
                    || '0' <= base[i] <= '9' || base[i] == '.' || base[i] == '-' || base[i] == '_' {
                    safe_name(name)[i] == base[i]
                } else {
                    safe_name(name)[i] == '_'
                }
        },
        name_part(name) is None ==> safe_name(name) == "documento.txt"@,
{
    if name_part(name) is None {
        reveal_strlit("documento.txt");
        assert(safe_name(name) =~= "documento.txt"@);
    }
}

/// A file outside of the document directory is known by its whole path, with `/` for
/// every `\`: so where only one of the two is absolute, and where their first parts
/// differ.
pub proof fn files_elsewhere_are_known_by_their_path(
    root: Seq<char>,
    path: Seq<char>,
    first: Seq<char>,
    rest: Seq<char>,
)
    requires
        one_part(root),
        one_part(first),
        root != first,
    ensures
        is_absolute(path) ==> source_name(root, path) == text::replaced(path, '\\', '/'),
        source_name(seq!['/'] + root, seq!['/'] + first.push('/') + rest) == text::replaced(
            seq!['/'] + first.push('/') + rest,
            '\\',
            '/',
        ),
{
    lemma_one_part_is_clean(root);
    lemma_one_part_is_clean(first);
    lemma_part_starts(root);
    let whole = seq!['/'] + first.push('/') + rest;
    let base = seq!['/'] + root;
    let tail = first.push('/') + rest;
    assert(whole.skip(1) == tail);
    assert(base.skip(1) == root);
    assert(tail[0] == first[0]);
    assert(from_first_part(tail) == tail) by {
        if tail[0] == '.' && tail[1] == '/' {
            if first.len() > 1 {
                assert(first[1] == tail[1]);
            } else {
                assert(starts_here(first));
            }
        }
    }
    assert forall|i: int| 0 <= i < first.len() implies #[trigger] tail[i] != '/' by {
        assert(tail[i] == first[i]);
    }
    assert(tail[first.len() as int] == '/');
    text::lemma_find_char_at(tail, '/', first.len());
    text::lemma_find_char_at(root, '/', root.len());
    assert(tail.take(first.len() as int) == first);
    assert(root.take(root.len() as int) == root);
    assert(after_parts(tail, root) is None);
}

proof fn lemma_other_parts(base: Seq<char>, dir: Seq<char>, name: Seq<char>)
    requires
        one_part(dir),
        clean_path(name),
        name != dir,
        forall|more: Seq<char>| name != #[trigger] (dir.push('/') + more),
    ensures
        after_parts(base + (seq!['/'] + name), base + (seq!['/'] + dir)) is None,
        after_parts(name, dir) is None,
    decreases base.len(),
{
    let tail = seq!['/'] + name;
    let other = seq!['/'] + dir;
    lemma_one_part_is_clean(dir);
    lemma_part_starts(name);
    lemma_part_starts(dir);
    text::lemma_find_char_at(dir, '/', dir.len());
    text::lemma_find_char(name, '/');
    let m = text::find_char(name, '/') as int;
    assert(dir.take(dir.len() as int) == dir);
    if m == dir.len() && name.take(m) == dir {
        if m < name.len() {
            assert(name[m] == '/');
            assert(name == dir.push('/') + name.skip(m + 1));
        } else {
            assert(name.take(m) == name);
        }
    }
    assert(after_parts(name, dir) is None);
    lemma_first_part_of_longer(base, tail, name);
    lemma_first_part_of_longer(base, other, dir);
    lemma_from_first_part(base);
    let b = from_first_part(base);
    if b.len() == 0 {
        assert(after_parts(base + tail, base + other) is None);
    } else {
        let n = text::find_char(b, '/');
        text::lemma_find_char(b, '/');
        assert forall|i: int| 0 <= i < n implies #[trigger] (b + tail)[i] != '/' by {
            assert((b + tail)[i] == b[i]);
        }
        assert forall|i: int| 0 <= i < n implies #[trigger] (b + other)[i] != '/' by {
            assert((b + other)[i] == b[i]);
        }
        text::lemma_find_char_at(b + tail, '/', n);
        text::lemma_find_char_at(b + other, '/', n);
        assert((b + tail).take(n as int) == b.take(n as int));
        assert((b + other).take(n as int) == b.take(n as int));
        assert((b + tail).skip(n as int) == b.skip(n as int) + tail);
        assert((b + other).skip(n as int) == b.skip(n as int) + other);
        lemma_other_parts(b.skip(n as int), dir, name);
    }
}

/// A file beside the document directory, or below another directory beside it, is known by
/// its whole path, with `/` for every `\`: however alike the two paths begin.
pub proof fn files_beside_the_directory_are_known_by_their_path(
    base: Seq<char>,
    dir: Seq<char>,
    name: Seq<char>,
)
    requires
        one_part(dir),
        clean_path(name),
        name != dir,
        forall|more: Seq<char>| name != #[trigger] (dir.push('/') + more),
    ensures
        source_name(base.push('/') + dir, base.push('/') + name) == text::replaced(
            base.push('/') + name,
            '\\',
            '/',
        ),
{
    let tail = seq!['/'] + name;
    let other = seq!['/'] + dir;
    let path = base.push('/') + name;
    let root = base.push('/') + dir;
    assert(path == base + tail);
    assert(root == base + other);
    lemma_other_parts(base, dir, name);
    if base.len() == 0 {
        assert(path.skip(1) == name);
        assert(root.skip(1) == dir);
    } else {
        assert(path[0] == base[0] && root[0] == base[0]);
        assert(path[1] == root[1]);
        if is_absolute(root) || starts_here(root) {
            lemma_other_parts(base.skip(1), dir, name);
            assert(path.skip(1) == base.skip(1) + tail);
            assert(root.skip(1) == base.skip(1) + other);
        }
    }
    assert(path_from(root, path) is None);
}

} // verus!
