//! Digests: of passwords, of questions, of documents, and the ids that stored
//! passages have.
use crate::config::Config;
use crate::numbers;
use crate::numbers::push_decimal;
use vstd::prelude::*;

verus! {

/// The version of the way in which documents are indexed. It goes into the digest
/// of every document, so that a new version has them all indexed again.
pub const INDEX_PIPELINE_VERSION: &'static str = "2026-05-13-e5large-v1";

/// The SHA-256 digest of a message.
pub uninterp spec fn sha256(message: Seq<u8>) -> Seq<u8>;

/// `sha2::Sha256::digest`: the SHA-256 digest of the message, 32 bytes that depend
/// on the message alone.
#[verifier::external_body]
fn sha256_digest(message: &[u8]) -> (r: Vec<u8>)
    ensures
        r@ == sha256(message@),
        r@.len() == 32,
{
    <sha2::Sha256 as sha2::Digest>::digest(message).to_vec()
}

/// The hexadecimal digit, in lower case, of a number from 0 to 15.
pub open spec fn hex_digit(n: int) -> char {
    if n < 10 {
        ('0' as u32 + n) as char
    } else {
        ('a' as u32 + n - 10) as char
    }
}

/// The bytes in hexadecimal: two lower-case digits each, the high one first.
pub open spec fn hex_text(bytes: Seq<u8>) -> Seq<char> {
    Seq::new(
        bytes.len() * 2,
        |i: int|
            if i % 2 == 0 {
                hex_digit(bytes[i / 2] as int / 16)
            } else {
                hex_digit(bytes[i / 2] as int % 16)
            },
    )
}

/// `hex::encode`: each byte as two lower-case hexadecimal digits.
#[verifier::external_body]
fn hex_encode(bytes: &[u8]) -> (r: String)
    ensures
        r@ == hex_text(bytes@),
{
    hex::encode(bytes)
}

/// Appends `tail` to `bytes`.
fn append(bytes: &mut Vec<u8>, tail: &[u8])
    ensures
        final(bytes)@ == old(bytes)@ + tail@,
{
    let mut i: usize = 0;
    while i < tail.len()
        invariant
            i <= tail@.len(),
            bytes@ == old(bytes)@ + tail@.take(i as int),
        decreases tail@.len() - i,
    {
        bytes.push(tail[i]);
        i = i + 1;
        assert(tail@.take(i as int) == tail@.take(i - 1).push(tail@[i - 1]));
    }
    assert(tail@.take(i as int) == tail@);
}

/// What is kept of a password: the digest of the salt, a colon and the password.
pub open spec fn password_digest(salt: Seq<char>, password: Seq<char>) -> Seq<char> {
    hex_text(
        sha256(
            vstd::utf8::encode_utf8(salt).push(58u8) + vstd::utf8::encode_utf8(password),
        ),
    )
}

/// What is kept of a password.
pub fn hash_password(config: &Config, password: &str) -> (r: String)
    ensures
        r@ == password_digest(config.auth_salt@, password@),
        r@.len() == 64,
{
    let mut message: Vec<u8> = Vec::new();
    append(&mut message, config.auth_salt.as_str().as_bytes());
    message.push(58u8);
    append(&mut message, password.as_bytes());
    assert(message@ == vstd::utf8::encode_utf8(config.auth_salt@).push(58u8)
        + vstd::utf8::encode_utf8(password@));
    let digest: Vec<u8> = sha256_digest(message.as_slice());
    hex_encode(digest.as_slice())
}

/// The key under which an answer is cached, given the digest of the question: the
/// first 16 hexadecimal digits.
pub fn key_of_digest(digest: &Vec<u8>) -> (r: String)
    requires
        digest@.len() >= 8,
    ensures
        r@ == hex_text(digest@).take(16),
{
    let full: String = hex_encode(digest.as_slice());
    let chars: Vec<char> = crate::text::to_chars(full.as_str());
    let r: String = crate::text::from_chars(&chars, 0, 16);
    assert(chars@.subrange(0, 16) == chars@.take(16));
    r
}

/// The key under which the answer to a question is cached.
pub open spec fn question_key(question: Seq<char>) -> Seq<char> {
    hex_text(sha256(vstd::utf8::encode_utf8(question))).take(16)
}

/// The key under which the answer to a question is cached.
pub fn faq_question_hash(question: &str) -> (r: String)
    ensures
        r@ == question_key(question@),
        r@.len() == 16,
{
    let digest: Vec<u8> = sha256_digest(question.as_bytes());
    key_of_digest(&digest)
}

/// The digest by which a document is recognised: of the version of the indexing
/// followed by the bytes of the file.
pub open spec fn document_digest(bytes: Seq<u8>) -> Seq<char> {
    hex_text(sha256(vstd::utf8::encode_utf8(INDEX_PIPELINE_VERSION@) + bytes))
}

/// The digest by which a document is recognised.
pub fn file_hash_with_pipeline(bytes: &[u8]) -> (r: String)
    ensures
        r@ == document_digest(bytes@),
        r@.len() == 64,
{
    let mut message: Vec<u8> = Vec::new();
    append(&mut message, INDEX_PIPELINE_VERSION.as_bytes());
    append(&mut message, bytes);
    assert(message@ == vstd::utf8::encode_utf8(INDEX_PIPELINE_VERSION@) + bytes@);
    let digest: Vec<u8> = sha256_digest(message.as_slice());
    hex_encode(digest.as_slice())
}

/// The form in which a UUID is written: 36 characters, lower-case hexadecimal
/// digits with a hyphen after the 8th, 12th, 16th and 20th of them.
pub open spec fn uuid_form(s: Seq<char>) -> bool {
    &&& s.len() == 36
    &&& forall|i: int|
        0 <= i < 36 ==> if i == 8 || i == 13 || i == 18 || i == 23 {
            #[trigger] s[i] == '-'
        } else {
            ('0' <= s[i] <= '9') || ('a' <= s[i] <= 'f')
        }
}

/// The form of a UUID of the given version: the version is its 15th character, and the
/// 20th is one of `8`, `9`, `a` and `b`.
pub open spec fn uuid_of_version(s: Seq<char>, version: char) -> bool {
    &&& uuid_form(s)
    &&& s[14] == version
    &&& s[19] == '8' || s[19] == '9' || s[19] == 'a' || s[19] == 'b'
}

/// The name-based (version 5) UUID of a name in the URL namespace, as it is
/// written.
pub uninterp spec fn url_uuid(name: Seq<u8>) -> Seq<char>;

/// `uuid::Uuid::new_v5` in the URL namespace, written out: it depends on the name
/// alone and has the form of a UUID of version 5.
#[verifier::external_body]
fn new_url_uuid(name: &[u8]) -> (r: String)
    ensures
        r@ == url_uuid(name@),
        uuid_of_version(r@, '5'),
{
    uuid::Uuid::new_v5(&uuid::Uuid::NAMESPACE_URL, name).to_string()
}

/// The name from which the id of a stored passage is made: source, digest of the
/// document and index of the passage, with colons between them.
pub open spec fn passage_name(source: Seq<char>, hash: Seq<char>, index: nat) -> Seq<char> {
    source.push(':') + hash.push(':') + numbers::decimal(index)
}

/// Different passages have different names, as long as all digests have the same
/// length.
pub proof fn passage_names_are_distinct(
    source: Seq<char>,
    hash: Seq<char>,
    index: nat,
    other_source: Seq<char>,
    other_hash: Seq<char>,
    other_index: nat,
)
    requires
        hash.len() == other_hash.len(),
        passage_name(source, hash, index) == passage_name(other_source, other_hash, other_index),
    ensures
        source == other_source,
        hash == other_hash,
        index == other_index,
{
    let name = passage_name(source, hash, index);
    let d = numbers::decimal(index);
    let e = numbers::decimal(other_index);
    numbers::decimal_reads_back(index);
    numbers::decimal_reads_back(other_index);
    let colon = name.len() - d.len() - 1;
    let other_colon = name.len() - e.len() - 1;
    assert(name[colon] == ':');
    assert(name[other_colon] == ':');
    if d.len() < e.len() {
        assert(name[colon] == e[colon - other_colon - 1]);
        assert(numbers::is_digit(e[colon - other_colon - 1]));
    }
    if e.len() < d.len() {
        assert(name[other_colon] == d[other_colon - colon - 1]);
        assert(numbers::is_digit(d[other_colon - colon - 1]));
    }
    assert(d == name.skip(colon + 1));
    assert(e == name.skip(other_colon + 1));
    assert(source == name.take(colon - hash.len() - 1));
    assert(other_source == name.take(colon - hash.len() - 1));
    assert(hash == name.subrange(colon - hash.len(), colon));
    assert(other_hash == name.subrange(colon - hash.len(), colon));
}

/// The id of a stored passage.
pub open spec fn passage_id(source: Seq<char>, hash: Seq<char>, index: nat) -> Seq<char> {
    url_uuid(vstd::utf8::encode_utf8(passage_name(source, hash, index)))
}

/// The id of a stored passage.
pub fn point_id(source: &str, hash: &str, chunk_index: usize) -> (r: String)
    ensures
        r@ == passage_id(source@, hash@, chunk_index as nat),
        uuid_of_version(r@, '5'),
{
    let mut name: String = crate::text::owned(source);
    name.push(':');
    name.push_str(hash);
    name.push(':');
    push_decimal(&mut name, chunk_index as u64);
    assert(name@ == passage_name(source@, hash@, chunk_index as nat));
    new_url_uuid(name.as_str().as_bytes())
}

/// The value of a hexadecimal digit.
pub open spec fn hex_value(c: char) -> int {
    if '0' <= c <= '9' {
        c as int - '0' as int
    } else {
        c as int - 'a' as int + 10
    }
}

/// Bytes in hexadecimal are read back: two digits for each, the high one first, of `0` to
/// `9` and `a` to `f`.
pub proof fn hexadecimal_is_read_back(bytes: Seq<u8>, i: int)
    requires
        0 <= i < bytes.len(),
    ensures
        hex_text(bytes).len() == 2 * bytes.len(),
        hex_value(hex_text(bytes)[2 * i]) * 16 + hex_value(hex_text(bytes)[2 * i + 1]) == bytes[i],
        '0' <= hex_text(bytes)[2 * i] <= '9' || 'a' <= hex_text(bytes)[2 * i] <= 'f',
        '0' <= hex_text(bytes)[2 * i + 1] <= '9' || 'a' <= hex_text(bytes)[2 * i + 1] <= 'f',
{
    let t = hex_text(bytes);
    let high = bytes[i] as int / 16;
    let low = bytes[i] as int % 16;
    assert((2 * i) % 2 == 0 && (2 * i) / 2 == i);
    assert((2 * i + 1) % 2 == 1 && (2 * i + 1) / 2 == i);
    assert(t[2 * i] == hex_digit(high));
    assert(t[2 * i + 1] == hex_digit(low));
}

/// Different bytes differ in hexadecimal.
pub proof fn hexadecimal_tells_bytes_apart(a: Seq<u8>, b: Seq<u8>)
    requires
        hex_text(a) == hex_text(b),
    ensures
        a == b,
{
    assert(hex_text(a).len() == 2 * a.len());
    assert(hex_text(b).len() == 2 * b.len());
    assert forall|i: int| 0 <= i < a.len() implies a[i] == b[i] by {
        hexadecimal_is_read_back(a, i);
        hexadecimal_is_read_back(b, i);
    }
    assert(a =~= b);
}

/// Whether the SHA-256 digests of two messages tell them apart.
pub open spec fn sha256_tells_apart(x: Seq<u8>, y: Seq<u8>) -> bool {
    sha256(x) == sha256(y) ==> x == y
}

proof fn lemma_utf8_tells_apart(a: Seq<char>, b: Seq<char>)
    requires
        vstd::utf8::encode_utf8(a) == vstd::utf8::encode_utf8(b),
    ensures
        a == b,
{
    vstd::utf8::encode_utf8_decode_utf8(a);
    vstd::utf8::encode_utf8_decode_utf8(b);
}

/// Files that differ in any byte have different digests, as long as SHA-256 tells the two
/// messages apart, of the version and all bytes: all bytes of a file go into its digest.
pub proof fn digests_tell_files_apart(a: Seq<u8>, b: Seq<u8>)
    requires
        sha256_tells_apart(
            vstd::utf8::encode_utf8("2026-05-13-e5large-v1"@) + a,
            vstd::utf8::encode_utf8("2026-05-13-e5large-v1"@) + b,
        ),
        document_digest(a) == document_digest(b),
    ensures
        a == b,
{
    let version = vstd::utf8::encode_utf8(INDEX_PIPELINE_VERSION@);
    hexadecimal_tells_bytes_apart(sha256(version + a), sha256(version + b));
    assert((version + a).skip(version.len() as int) == a);
    assert((version + b).skip(version.len() as int) == b);
}

/// What goes into the digest of a file is the same text in front for every file, and then
/// the bytes of the file, as they are.
pub proof fn digests_are_of_the_version_and_the_bytes()
    ensures
        forall|bytes: Seq<u8>| #[trigger]
            document_digest(bytes) == hex_text(
                sha256(vstd::utf8::encode_utf8("2026-05-13-e5large-v1"@) + bytes),
            ),
{
}

/// Different passwords have different digests under one salt, and one password has
/// different digests under different salts, as long as SHA-256 tells the messages apart.
pub proof fn digests_tell_passwords_and_salts_apart(
    salt: Seq<char>,
    other_salt: Seq<char>,
    password: Seq<char>,
    other_password: Seq<char>,
)
    requires
        sha256_tells_apart(
            vstd::utf8::encode_utf8(salt + ":"@ + password),
            vstd::utf8::encode_utf8(salt + ":"@ + other_password),
        ),
        sha256_tells_apart(
            vstd::utf8::encode_utf8(salt + ":"@ + password),
            vstd::utf8::encode_utf8(other_salt + ":"@ + password),
        ),
    ensures
        password_digest(salt, password) == password_digest(salt, other_password) ==> password
            == other_password,
        password_digest(salt, password) == password_digest(other_salt, password) ==> salt
            == other_salt,
{
    let m = salt + ":"@ + password;
    let o = salt + ":"@ + other_password;
    let p = other_salt + ":"@ + password;
    let n = salt.len() + ":"@.len();
    passwords_are_kept_behind_salt_and_colon(salt, password);
    passwords_are_kept_behind_salt_and_colon(salt, other_password);
    passwords_are_kept_behind_salt_and_colon(other_salt, password);
    if password_digest(salt, password) == password_digest(salt, other_password) {
        hexadecimal_tells_bytes_apart(
            sha256(vstd::utf8::encode_utf8(m)),
            sha256(vstd::utf8::encode_utf8(o)),
        );
        lemma_utf8_tells_apart(m, o);
        assert(m.skip(n as int) == password);
        assert(o.skip(n as int) == other_password);
    }
    if password_digest(salt, password) == password_digest(other_salt, password) {
        hexadecimal_tells_bytes_apart(
            sha256(vstd::utf8::encode_utf8(m)),
            sha256(vstd::utf8::encode_utf8(p)),
        );
        lemma_utf8_tells_apart(m, p);
        assert(m.len() == p.len());
        assert(m.take(salt.len() as int) == salt);
        assert(p.take(other_salt.len() as int) == other_salt);
    }
}

/// What is kept of a password is the digest of the salt, a colon and the password.
pub proof fn passwords_are_kept_behind_salt_and_colon(salt: Seq<char>, password: Seq<char>)
    ensures
        password_digest(salt, password) == hex_text(
            sha256(vstd::utf8::encode_utf8(salt + ":"@ + password)),
        ),
{
    reveal_strlit(":");
    assert(":"@ == seq![':']);
    lemma_utf8_of_joined(salt, ":"@);
    lemma_utf8_of_joined(salt + ":"@, password);
    assert(vstd::utf8::is_ascii_chars(":"@));
    vstd::utf8::is_ascii_chars_encode_utf8(":"@);
    assert(vstd::utf8::encode_utf8(":"@) == seq![58u8]);
    assert(vstd::utf8::encode_utf8(salt) + seq![58u8] == vstd::utf8::encode_utf8(salt).push(58u8));
}

proof fn lemma_utf8_of_joined(a: Seq<char>, b: Seq<char>)
    ensures
        vstd::utf8::encode_utf8(a + b) == vstd::utf8::encode_utf8(a) + vstd::utf8::encode_utf8(b),
    decreases a.len(),
{
    if a.len() == 0 {
        assert(a + b == b);
        assert(vstd::utf8::encode_utf8(a) + vstd::utf8::encode_utf8(b) == vstd::utf8::encode_utf8(
            b,
        ));
    } else {
        assert((a + b).drop_first() == a.drop_first() + b);
        lemma_utf8_of_joined(a.drop_first(), b);
        assert((a + b)[0] == a[0]);
    }
}

/// Different questions have different keys, as long as the first 8 bytes of their SHA-256
/// digests differ.
pub proof fn keys_tell_questions_apart(a: Seq<char>, b: Seq<char>)
    requires
        sha256(vstd::utf8::encode_utf8(a)).len() >= 8,
        sha256(vstd::utf8::encode_utf8(b)).len() >= 8,
        sha256(vstd::utf8::encode_utf8(a)).take(8) == sha256(vstd::utf8::encode_utf8(b)).take(8)
            ==> a == b,
        question_key(a) == question_key(b),
    ensures
        a == b,
{
    let x = sha256(vstd::utf8::encode_utf8(a));
    let y = sha256(vstd::utf8::encode_utf8(b));
    assert(hex_text(x.take(8)) =~= hex_text(x).take(16)) by {
        assert forall|i: int| 0 <= i < 16 implies hex_text(x.take(8))[i] == hex_text(x)[i] by {
            assert(x.take(8)[i / 2] == x[i / 2]);
        }
    }
    assert(hex_text(y.take(8)) =~= hex_text(y).take(16)) by {
        assert forall|i: int| 0 <= i < 16 implies hex_text(y.take(8))[i] == hex_text(y)[i] by {
            assert(y.take(8)[i / 2] == y[i / 2]);
        }
    }
    hexadecimal_tells_bytes_apart(x.take(8), y.take(8));
}

/// A key is the beginning of the digest of the question, in 16 digits.
pub proof fn keys_are_beginnings_of_digests(question: Seq<char>)
    ensures
        question_key(question) == hex_text(sha256(vstd::utf8::encode_utf8(question))).take(16),
{
}

/// Different passages have different ids, as long as the name-based UUIDs tell their names
/// apart and all digests of documents have the same length.
pub proof fn ids_tell_passages_apart(
    source: Seq<char>,
    hash: Seq<char>,
    index: nat,
    other_source: Seq<char>,
    other_hash: Seq<char>,
    other_index: nat,
)
    requires
        ({
            let name = source + ":"@ + hash + ":"@ + numbers::decimal(index);
            let other_name = other_source + ":"@ + other_hash + ":"@ + numbers::decimal(
                other_index,
            );
            url_uuid(vstd::utf8::encode_utf8(name)) == url_uuid(
                vstd::utf8::encode_utf8(other_name),
            ) ==> name == other_name
        }),
        hash.len() == other_hash.len(),
        passage_id(source, hash, index) == passage_id(other_source, other_hash, other_index),
    ensures
        source == other_source,
        hash == other_hash,
        index == other_index,
{
    reveal_strlit(":");
    assert(source + ":"@ + hash + ":"@ + numbers::decimal(index) =~= passage_name(
        source,
        hash,
        index,
    ));
    assert(other_source + ":"@ + other_hash + ":"@ + numbers::decimal(other_index)
        =~= passage_name(other_source, other_hash, other_index));
    passage_names_are_distinct(source, hash, index, other_source, other_hash, other_index);
}

/// The id of a passage is made of source, digest and index, with colons between them.
pub proof fn ids_are_of_source_digest_and_index(source: Seq<char>, hash: Seq<char>, index: nat)
    ensures
        passage_id(source, hash, index) == url_uuid(
            vstd::utf8::encode_utf8(source + ":"@ + hash + ":"@ + numbers::decimal(index)),
        ),
{
    reveal_strlit(":");
    assert(source + ":"@ + hash + ":"@ + numbers::decimal(index) =~= passage_name(
        source,
        hash,
        index,
    ));
}

} // verus!
