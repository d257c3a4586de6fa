//! Text as sequences of characters: white space, words, trimming, joining, splitting,
//! excerpts, and lower case.
use vstd::prelude::*;

verus! {

/// Appends one character: `String::push` ("appends the given `char` to the end
/// of this `String`").
pub assume_specification[ String::push ](s: &mut String, c: char)
    ensures
        final(s)@ == old(s)@.push(c),
;

/// Appends a string slice: `String::push_str` ("appends a given string slice
/// onto the end of this `String`").
pub assume_specification[ String::push_str ](s: &mut String, tail: &str)
    ensures
        final(s)@ == old(s)@ + tail@,
;

/// The contents of a list of strings.
pub open spec fn views(parts: Seq<String>) -> Seq<Seq<char>> {
    Seq::new(parts.len(), |i: int| parts[i]@)
}

/// The characters of `s`, one by one.
pub(crate) fn to_chars(s: &str) -> (r: Vec<char>)
    ensures
        r@ == s@,
{
    let mut out: Vec<char> = Vec::new();
    for c in it: s.chars()
        invariant
            it.seq() == s@,
            out@ == s@.take(it.index() as int),
    {
        out.push(c);
    }
    assert(s@.take(s@.len() as int) == s@);
    out
}

/// The string made of the characters from `from` up to, not including, `to`.
pub(crate) fn from_chars(chars: &Vec<char>, from: usize, to: usize) -> (r: String)
    requires
        from <= to <= chars@.len(),
    ensures
        r@ == chars@.subrange(from as int, to as int),
{
    let mut out: String = String::new();
    let mut i: usize = from;
    while i < to
        invariant
            from <= i <= to <= chars@.len(),
            out@ == chars@.subrange(from as int, i as int),
        decreases to - i,
    {
        out.push(chars[i]);
        i = i + 1;
        assert(chars@.subrange(from as int, i as int) == chars@.subrange(
            from as int,
            i - 1,
        ).push(chars@[i - 1]));
    }
    out
}

/// A fresh string with the contents of `s`.
pub(crate) fn owned(s: &str) -> (r: String)
    ensures
        r@ == s@,
{
    let mut out: String = String::new();
    out.push_str(s);
    assert(Seq::<char>::empty() + s@ == s@);
    out
}

// ---------------------------------------------------------------------------
// White space
// ---------------------------------------------------------------------------

/// The characters that have the Unicode property `White_Space`.
pub open spec fn is_white(c: char) -> bool {
    let u = c as u32;
    ||| 0x09 <= u <= 0x0d
    ||| u == 0x20
    ||| u == 0x85
    ||| u == 0xa0
    ||| u == 0x1680
    ||| 0x2000 <= u <= 0x200a
    ||| u == 0x2028
    ||| u == 0x2029
    ||| u == 0x202f
    ||| u == 0x205f
    ||| u == 0x3000
}

/// Whether `c` is white space.
pub fn is_whitespace(c: char) -> (r: bool)
    ensures
        r == is_white(c),
{
    let u: u32 = c as u32;
    (0x09 <= u && u <= 0x0d) || u == 0x20 || u == 0x85 || u == 0xa0 || u == 0x1680 || (0x2000 <= u
        && u <= 0x200a) || u == 0x2028 || u == 0x2029 || u == 0x202f || u == 0x205f || u == 0x3000
}

/// `s` without the white space that it begins with.
pub open spec fn trimmed_start(s: Seq<char>) -> Seq<char>
    decreases s.len(),
{
    if s.len() > 0 && is_white(s[0]) {
        trimmed_start(s.skip(1))
    } else {
        s
    }
}

/// `s` without the white space that it ends with.
pub open spec fn trimmed_end(s: Seq<char>) -> Seq<char>
    decreases s.len(),
{
    if s.len() > 0 && is_white(s.last()) {
        trimmed_end(s.drop_last())
    } else {
        s
    }
}

/// `s` without the white space at its two ends.
pub open spec fn trimmed(s: Seq<char>) -> Seq<char> {
    trimmed_end(trimmed_start(s))
}

/// What is left after trimming the beginning is the end of the text.
proof fn lemma_trimmed_start_shorter(s: Seq<char>)
    ensures
        trimmed_start(s).len() <= s.len(),
        trimmed_start(s).len() > 0 ==> !is_white(trimmed_start(s)[0]),
        trimmed_start(s) == s.skip(s.len() - trimmed_start(s).len()),
    decreases s.len(),
{
    if s.len() > 0 && is_white(s[0]) {
        lemma_trimmed_start_shorter(s.skip(1));
        assert(s.skip(1).skip(s.len() - 1 - trimmed_start(s).len()) == s.skip(
            s.len() - trimmed_start(s).len(),
        ));
    } else {
        assert(s.skip(0) == s);
    }
}

/// What is left after trimming the end is the beginning of the text.
proof fn lemma_trimmed_end_shorter(s: Seq<char>)
    ensures
        trimmed_end(s).len() <= s.len(),
        trimmed_end(s).len() > 0 ==> !is_white(trimmed_end(s).last()),
        trimmed_end(s) == s.take(trimmed_end(s).len() as int),
    decreases s.len(),
{
    if s.len() > 0 && is_white(s.last()) {
        lemma_trimmed_end_shorter(s.drop_last());
        let n = trimmed_end(s).len() as int;
        assert(s.drop_last().take(n) == s.take(n));
    } else {
        assert(s.take(s.len() as int) == s);
    }
}

/// Trimming leaves no white space at either end.
pub proof fn trimmed_ends_are_not_white(s: Seq<char>)
    ensures
        trimmed(s).len() <= s.len(),
        trimmed(s).len() > 0 ==> !is_white(trimmed(s)[0]) && !is_white(trimmed(s).last()),
{
    lemma_trimmed_start_shorter(s);
    lemma_trimmed_end_shorter(trimmed_start(s));
}

/// What has no white space at either end is left as it is by trimming.
pub(crate) proof fn lemma_trimmed_fixed(s: Seq<char>)
    requires
        s.len() > 0 ==> !is_white(s[0]) && !is_white(s.last()),
    ensures
        trimmed(s) == s,
{
}

/// Whether `s` is white space only.
pub open spec fn is_blank(s: Seq<char>) -> bool {
    forall|i: int| 0 <= i < s.len() ==> is_white(#[trigger] s[i])
}

proof fn lemma_trimmed_start_padding(before: Seq<char>, s: Seq<char>)
    requires
        is_blank(before),
    ensures
        trimmed_start(before + s) == trimmed_start(s),
    decreases before.len(),
{
    if before.len() > 0 {
        assert((before + s)[0] == before[0]);
        assert((before + s).skip(1) == before.skip(1) + s);
        assert forall|i: int| 0 <= i < before.skip(1).len() implies is_white(
            #[trigger] before.skip(1)[i],
        ) by {
            assert(before.skip(1)[i] == before[i + 1]);
        }
        lemma_trimmed_start_padding(before.skip(1), s);
    } else {
        assert(before + s == s);
    }
}

proof fn lemma_trimmed_end_padding(s: Seq<char>, after: Seq<char>)
    requires
        is_blank(after),
    ensures
        trimmed_end(s + after) == trimmed_end(s),
    decreases after.len(),
{
    if after.len() > 0 {
        assert(is_white(after[after.len() - 1]));
        assert((s + after).last() == after.last());
        assert((s + after).drop_last() == s + after.drop_last());
        assert forall|i: int| 0 <= i < after.drop_last().len() implies is_white(
            #[trigger] after.drop_last()[i],
        ) by {
            assert(after.drop_last()[i] == after[i]);
        }
        lemma_trimmed_end_padding(s, after.drop_last());
    } else {
        assert(s + after == s);
    }
}

proof fn lemma_trimmed_start_tail(s: Seq<char>, after: Seq<char>)
    ensures
        trimmed_start(s + after) == if trimmed_start(s).len() > 0 {
            trimmed_start(s) + after
        } else {
            trimmed_start(after)
        },
    decreases s.len(),
{
    if s.len() == 0 {
        assert(s + after == after);
    } else if is_white(s[0]) {
        assert((s + after).skip(1) == s.skip(1) + after);
        lemma_trimmed_start_tail(s.skip(1), after);
    }
}

/// White space around a text does not matter once it is trimmed.
pub proof fn padding_is_trimmed(before: Seq<char>, s: Seq<char>, after: Seq<char>)
    requires
        is_blank(before),
        is_blank(after),
    ensures
        trimmed(before + s + after) == trimmed(s),
{
    assert(before + s + after == before + (s + after));
    lemma_trimmed_start_padding(before, s + after);
    lemma_trimmed_start_tail(s, after);
    if trimmed_start(s).len() > 0 {
        lemma_trimmed_end_padding(trimmed_start(s), after);
    } else {
        let none = Seq::<char>::empty();
        lemma_trimmed_start_padding(after, none);
        assert(after + none == after);
        assert(trimmed_start(s) == none);
    }
}

/// Trimming twice is trimming once.
pub proof fn trim_is_idempotent(s: Seq<char>)
    ensures
        trimmed(trimmed(s)) == trimmed(s),
{
    trimmed_ends_are_not_white(s);
    lemma_trimmed_fixed(trimmed(s));
}

/// Where the text that is left after trimming begins and ends.
fn trim_bounds(chars: &Vec<char>) -> (r: (usize, usize))
    ensures
        r.0 <= r.1 <= chars@.len(),
        chars@.subrange(r.0 as int, r.1 as int) == trimmed(chars@),
{
    let n: usize = chars.len();
    let mut a: usize = 0;
    assert(chars@.skip(0) == chars@);
    while a < n && is_whitespace(chars[a])
        invariant
            a <= n == chars@.len(),
            trimmed_start(chars@.skip(a as int)) == trimmed_start(chars@),
        decreases n - a,
    {
        assert(chars@.skip(a as int).skip(1) == chars@.skip(a + 1));
        a = a + 1;
    }
    assert(trimmed_start(chars@) == chars@.skip(a as int));
    let ghost body = chars@.skip(a as int);
    let mut b: usize = n;
    assert(body.take(n - a) == body);
    while b > a && is_whitespace(chars[b - 1])
        invariant
            a <= b <= n == chars@.len(),
            body == chars@.skip(a as int),
            trimmed_end(body.take(b - a)) == trimmed_end(body),
        decreases b,
    {
        assert(body.take(b - a).drop_last() == body.take(b - a - 1));
        b = b - 1;
    }
    assert(trimmed_end(body) == body.take(b - a));
    assert(body.take(b - a) == chars@.subrange(a as int, b as int));
    (a, b)
}

/// `s` without leading and trailing white space.
pub fn trim(s: &str) -> (r: String)
    ensures
        r@ == trimmed(s@),
{
    let chars: Vec<char> = to_chars(s);
    let (a, b) = trim_bounds(&chars);
    from_chars(&chars, a, b)
}

// ---------------------------------------------------------------------------
// Words
// ---------------------------------------------------------------------------

/// How many characters come before the first white space of `s`.
pub open spec fn word_length(s: Seq<char>) -> nat
    decreases s.len(),
{
    if s.len() > 0 && !is_white(s[0]) {
        1 + word_length(s.skip(1))
    } else {
        0
    }
}

/// The maximal runs of characters of `s` that are not white space, in order.
pub open spec fn words(s: Seq<char>) -> Seq<Seq<char>>
    decreases s.len(),
    via words_decreases
{
    let t = trimmed_start(s);
    if t.len() == 0 {
        Seq::empty()
    } else {
        seq![t.take(word_length(t) as int)] + words(t.skip(word_length(t) as int))
    }
}

#[via_fn]
proof fn words_decreases(s: Seq<char>) {
    lemma_trimmed_start_shorter(s);
    lemma_word_length(trimmed_start(s));
}

/// A word ends at white space or at the end of the text.
proof fn lemma_word_length(s: Seq<char>)
    ensures
        word_length(s) <= s.len(),
        s.len() > 0 && !is_white(s[0]) ==> word_length(s) > 0,
        forall|i: int| 0 <= i < word_length(s) ==> !is_white(#[trigger] s[i]),
        word_length(s) < s.len() ==> is_white(s[word_length(s) as int]),
    decreases s.len(),
{
    if s.len() > 0 && !is_white(s[0]) {
        lemma_word_length(s.skip(1));
        assert forall|i: int| 0 <= i < word_length(s) implies !is_white(#[trigger] s[i]) by {
            if i > 0 {
                assert(s[i] == s.skip(1)[i - 1]);
            }
        }
        if word_length(s) < s.len() {
            assert(s[word_length(s) as int] == s.skip(1)[word_length(s) - 1]);
        }
    }
}

/// Whether `w` is a word: not empty, and free of white space.
pub open spec fn is_word(w: Seq<char>) -> bool {
    &&& w.len() > 0
    &&& forall|i: int| 0 <= i < w.len() ==> !is_white(#[trigger] w[i])
}

/// Every entry of `words` is a word.
pub proof fn words_are_words(s: Seq<char>)
    ensures
        forall|k: int| 0 <= k < words(s).len() ==> is_word(#[trigger] words(s)[k]),
    decreases s.len(),
{
    lemma_trimmed_start_shorter(s);
    let t = trimmed_start(s);
    if t.len() > 0 {
        let n = word_length(t) as int;
        lemma_word_length(t);
        words_are_words(t.skip(n));
        assert(is_word(t.take(n))) by {
            assert forall|i: int| 0 <= i < n implies !is_white(#[trigger] t.take(n)[i]) by {
                assert(t.take(n)[i] == t[i]);
            }
        }
        assert forall|k: int| 0 <= k < words(s).len() implies is_word(#[trigger] words(s)[k]) by {
            if k > 0 {
                assert(words(s)[k] == words(t.skip(n))[k - 1]);
            }
        }
    }
}

/// The words of `s`.
pub fn split_whitespace(s: &str) -> (r: Vec<String>)
    ensures
        views(r@) == words(s@),
{
    let chars: Vec<char> = to_chars(s);
    let n: usize = chars.len();
    let mut out: Vec<String> = Vec::new();
    let mut i: usize = 0;
    assert(chars@.skip(0) == chars@);
    assert(views(out@) + words(chars@) == words(chars@));
    loop
        invariant
            i <= n == chars@.len(),
            chars@ == s@,
            views(out@) + words(chars@.skip(i as int)) == words(chars@),
        ensures
            views(out@) == words(s@),
        decreases n - i,
    {
        let ghost start = i as int;
        while i < n && is_whitespace(chars[i])
            invariant
                start <= i <= n == chars@.len(),
                trimmed_start(chars@.skip(i as int)) == trimmed_start(chars@.skip(start)),
            decreases n - i,
        {
            assert(chars@.skip(i as int).skip(1) == chars@.skip(i + 1));
            i = i + 1;
        }
        let ghost t = chars@.skip(i as int);
        assert(trimmed_start(chars@.skip(start)) == t);
        if i == n {
            assert(words(chars@.skip(start)) == Seq::<Seq<char>>::empty());
            assert(views(out@) + Seq::<Seq<char>>::empty() == views(out@));
            break;
        }
        let from: usize = i;
        proof {
            lemma_word_length(t);
        }
        while i < n && !is_whitespace(chars[i])
            invariant
                from <= i <= n == chars@.len(),
                t == chars@.skip(from as int),
                word_length(t) == (i - from) + word_length(chars@.skip(i as int)),
            decreases n - i,
        {
            assert(chars@.skip(i as int).skip(1) == chars@.skip(i + 1));
            i = i + 1;
        }
        assert(word_length(chars@.skip(i as int)) == 0);
        let word: String = from_chars(&chars, from, i);
        let ghost before = out@;
        out.push(word);
        proof {
            assert(word@ == t.take(i - from));
            assert(t.skip(i - from) == chars@.skip(i as int));
            assert(words(chars@.skip(start)) == seq![word@] + words(chars@.skip(i as int)));
            assert(views(out@) == views(before).push(word@));
            assert(views(out@) + words(chars@.skip(i as int)) == views(before) + (seq![word@]
                + words(chars@.skip(i as int))));
        }
    }
    out
}

// ---------------------------------------------------------------------------
// Where words begin, and on which page
// ---------------------------------------------------------------------------

/// The indices at which the words of `s` begin: those of the characters that are not
/// white space, at the beginning or behind white space.
pub open spec fn word_starts(s: Seq<char>) -> Seq<int>
    decreases s.len(),
{
    if s.len() == 0 {
        Seq::empty()
    } else if !is_white(s.last()) && (s.len() == 1 || is_white(s[s.len() - 2])) {
        word_starts(s.drop_last()).push(s.len() - 1)
    } else {
        word_starts(s.drop_last())
    }
}

/// How many form feeds `s` has. A form feed ends a page.
pub open spec fn form_feeds(s: Seq<char>) -> nat
    decreases s.len(),
{
    if s.len() == 0 {
        0
    } else if s.last() == '\x0c' {
        form_feeds(s.drop_last()) + 1
    } else {
        form_feeds(s.drop_last())
    }
}

/// The page that the word with index `k` begins on, counted from one.
pub open spec fn word_page(s: Seq<char>, k: int) -> nat {
    1 + form_feeds(s.take(word_starts(s)[k]))
}

/// What follows does not change where the words before it begin.
proof fn lemma_word_starts_of_longer(x: Seq<char>, y: Seq<char>)
    requires
        y.len() == 0 || is_white(y[0]) || x.len() == 0 || is_white(x.last()),
    ensures
        word_starts(x + y) == word_starts(x) + word_starts(y).map_values(|k: int| x.len() + k),
    decreases y.len(),
{
    let shift = |k: int| x.len() + k;
    if y.len() == 0 {
        assert(x + y == x);
        assert(word_starts(x) + word_starts(y).map_values(shift) == word_starts(x));
    } else {
        let init = y.drop_last();
        lemma_word_starts_of_longer(x, init);
        assert((x + y).drop_last() == x + init);
        assert((x + y).last() == y.last());
        if y.len() > 1 {
            assert((x + y)[x.len() + y.len() - 2] == y[y.len() - 2]);
        } else if x.len() > 0 {
            assert((x + y)[x.len() + y.len() - 2] == x.last());
        }
        let r = word_starts(init);
        assert(word_starts(x) + r.push(y.len() - 1).map_values(shift) == (word_starts(x)
            + r.map_values(shift)).push(x.len() + y.len() - 1));
    }
}

proof fn lemma_no_word_starts(s: Seq<char>)
    requires
        forall|i: int| 0 <= i < s.len() ==> is_white(#[trigger] s[i]),
    ensures
        word_starts(s) == Seq::<int>::empty(),
    decreases s.len(),
{
    if s.len() > 0 {
        assert(is_white(s[s.len() - 1]));
        assert forall|i: int| 0 <= i < s.drop_last().len() implies is_white(
            #[trigger] s.drop_last()[i],
        ) by {
            assert(s.drop_last()[i] == s[i]);
        }
        lemma_no_word_starts(s.drop_last());
    }
}

proof fn lemma_one_word_start(w: Seq<char>)
    requires
        is_word(w),
    ensures
        word_starts(w) == seq![0int],
    decreases w.len(),
{
    assert(!is_white(w[w.len() - 1]));
    if w.len() == 1 {
        assert(word_starts(w.drop_last()) == Seq::<int>::empty());
        assert(word_starts(w) == seq![0int]);
    } else {
        let init = w.drop_last();
        assert(!is_white(w[w.len() - 2]));
        assert forall|i: int| 0 <= i < init.len() implies !is_white(#[trigger] init[i]) by {
            assert(init[i] == w[i]);
        }
        lemma_one_word_start(init);
    }
}

proof fn lemma_trimmed_start_is_white(s: Seq<char>)
    ensures
        trimmed_start(s).len() <= s.len(),
        forall|i: int|
            0 <= i < s.len() - trimmed_start(s).len() ==> is_white(#[trigger] s[i]),
    decreases s.len(),
{
    if s.len() > 0 && is_white(s[0]) {
        lemma_trimmed_start_is_white(s.skip(1));
        assert forall|i: int| 0 <= i < s.len() - trimmed_start(s).len() implies is_white(
            #[trigger] s[i],
        ) by {
            if i > 0 {
                assert(s[i] == s.skip(1)[i - 1]);
            }
        }
    }
}

/// The words begin at their indices: there are as many of these as words, and each word
/// stands in the text from its index on.
pub proof fn words_begin_at_their_starts(s: Seq<char>)
    ensures
        word_starts(s).len() == words(s).len(),
        forall|k: int|
            0 <= k < words(s).len() ==> starts_with(
                s.skip(#[trigger] word_starts(s)[k]),
                words(s)[k],
            ) && 0 <= word_starts(s)[k] < s.len(),
    decreases s.len(),
{
    lemma_trimmed_start_shorter(s);
    lemma_trimmed_start_is_white(s);
    let t = trimmed_start(s);
    let a = s.len() - t.len();
    let white = s.take(a);
    assert forall|i: int| 0 <= i < white.len() implies is_white(#[trigger] white[i]) by {
        assert(white[i] == s[i]);
    }
    lemma_no_word_starts(white);
    assert(s == white + t);
    if t.len() == 0 {
        assert(s == white);
    } else {
        let n = word_length(t) as int;
        lemma_word_length(t);
        let w = t.take(n);
        let rest = t.skip(n);
        assert(is_word(w)) by {
            assert forall|i: int| 0 <= i < n implies !is_white(#[trigger] w[i]) by {
                assert(w[i] == t[i]);
            }
        }
        lemma_one_word_start(w);
        assert(t == w + rest);
        if rest.len() > 0 {
            assert(rest[0] == t[n]);
        }
        lemma_word_starts_of_longer(w, rest);
        if white.len() > 0 {
            assert(is_white(white[white.len() - 1]));
        }
        lemma_word_starts_of_longer(white, t);
        words_begin_at_their_starts(rest);
        let inner = word_starts(rest);
        let outer = word_starts(s);
        let all = words(s);
        assert(all == seq![w] + words(rest));
        assert(outer.len() == inner.len() + 1);
        assert forall|k: int| 0 <= k < all.len() implies starts_with(
            s.skip(#[trigger] outer[k]),
            all[k],
        ) && 0 <= outer[k] < s.len() by {
            if k == 0 {
                assert(word_starts(t)[0] == 0);
                assert(outer[0] == a);
                assert(s.skip(a) == t);
                assert(all[0] == w);
            } else {
                assert(word_starts(t)[k] == n + inner[k - 1]);
                assert(outer[k] == a + n + inner[k - 1]);
                assert(s.skip(outer[k]) == rest.skip(inner[k - 1]));
                assert(all[k] == words(rest)[k - 1]);
            }
        }
    }
}

/// The page that each word begins on.
pub fn word_pages(s: &str) -> (r: Vec<usize>)
    ensures
        r@.len() == words(s@).len(),
        forall|k: int| 0 <= k < r@.len() ==> #[trigger] r@[k] == word_page(s@, k),
{
    let chars: Vec<char> = to_chars(s);
    let mut out: Vec<usize> = Vec::new();
    let mut feeds: usize = 0;
    let mut i: usize = 0;
    assert(chars@.take(0) == Seq::<char>::empty());
    while i < chars.len()
        invariant
            i <= chars@.len(),
            feeds == form_feeds(chars@.take(i as int)),
            feeds <= i,
            out@.len() == word_starts(chars@.take(i as int)).len(),
            forall|k: int|
                0 <= k < out@.len() ==> #[trigger] out@[k] == 1 + form_feeds(
                    chars@.take(word_starts(chars@.take(i as int))[k]),
                ),
        decreases chars@.len() - i,
    {
        let c: char = chars[i];
        let ghost head = chars@.take(i as int);
        let ghost next = chars@.take(i + 1);
        proof {
            assert(next.drop_last() == head);
            assert(next.last() == c);
            if i > 0 {
                assert(next[next.len() - 2] == chars@[i - 1]);
            }
        }
        if !is_whitespace(c) && (i == 0 || is_whitespace(chars[i - 1])) {
            out.push(feeds + 1);
        }
        if c == '\x0c' {
            feeds = feeds + 1;
        }
        i = i + 1;
    }
    proof {
        assert(chars@.take(i as int) == s@);
        words_begin_at_their_starts(s@);
    }
    out
}

// ---------------------------------------------------------------------------
// Joining and splitting
// ---------------------------------------------------------------------------

/// The parts one after the other, with `sep` between neighbours.
pub open spec fn joined(parts: Seq<Seq<char>>, sep: Seq<char>) -> Seq<char>
    decreases parts.len(),
{
    if parts.len() == 0 {
        Seq::empty()
    } else if parts.len() == 1 {
        parts[0]
    } else {
        joined(parts.drop_last(), sep) + sep + parts.last()
    }
}

/// The strings of `parts` from `from` up to, not including, `to`, joined by `sep`.
pub(crate) fn join_range(parts: &Vec<String>, from: usize, to: usize, sep: &str) -> (r: String)
    requires
        from <= to <= parts@.len(),
    ensures
        r@ == joined(views(parts@).subrange(from as int, to as int), sep@),
{
    let mut out: String = String::new();
    let mut i: usize = from;
    let ghost all = views(parts@);
    while i < to
        invariant
            from <= i <= to <= parts@.len(),
            all == views(parts@),
            out@ == joined(all.subrange(from as int, i as int), sep@),
        decreases to - i,
    {
        let ghost before = out@;
        if i > from {
            out.push_str(sep);
        }
        out.push_str(parts[i].as_str());
        proof {
            let next = all.subrange(from as int, i + 1);
            assert(next.drop_last() == all.subrange(from as int, i as int));
            assert(next.last() == parts@[i as int]@);
            if i == from {
                assert(before + parts@[i as int]@ == parts@[i as int]@);
            }
        }
        i = i + 1;
    }
    out
}

/// The strings of `parts` joined by `sep`.
pub fn join(parts: &Vec<String>, sep: &str) -> (r: String)
    ensures
        r@ == joined(views(parts@), sep@),
{
    let r: String = join_range(parts, 0, parts.len(), sep);
    assert(views(parts@).subrange(0, parts@.len() as int) == views(parts@));
    r
}

/// How many characters come before the first `c` of `s`: all, where there is none.
pub open spec fn find_char(s: Seq<char>, c: char) -> nat
    decreases s.len(),
{
    if s.len() > 0 && s[0] != c {
        1 + find_char(s.skip(1), c)
    } else {
        0
    }
}

/// What stands before the first `c`, and at its place.
pub(crate) proof fn lemma_find_char(s: Seq<char>, c: char)
    ensures
        find_char(s, c) <= s.len(),
        forall|i: int| 0 <= i < find_char(s, c) ==> #[trigger] s[i] != c,
        find_char(s, c) < s.len() ==> s[find_char(s, c) as int] == c,
    decreases s.len(),
{
    if s.len() > 0 && s[0] != c {
        lemma_find_char(s.skip(1), c);
        assert forall|i: int| 0 <= i < find_char(s, c) implies #[trigger] s[i] != c by {
            if i > 0 {
                assert(s[i] == s.skip(1)[i - 1]);
            }
        }
        if find_char(s, c) < s.len() {
            assert(s[find_char(s, c) as int] == s.skip(1)[find_char(s, c) - 1]);
        }
    }
}

/// The place of the first `c` is fixed by what stands before it.
pub(crate) proof fn lemma_find_char_at(s: Seq<char>, c: char, n: nat)
    requires
        n <= s.len(),
        forall|i: int| 0 <= i < n ==> #[trigger] s[i] != c,
        n < s.len() ==> s[n as int] == c,
    ensures
        find_char(s, c) == n,
{
    lemma_find_char(s, c);
    let f = find_char(s, c);
    if f < n {
        assert(s[f as int] != c);
    }
    if n < f {
        assert(s[n as int] != c);
    }
}

/// The index of the first `c` at or after `from`, or the length.
pub(crate) fn position_of(chars: &Vec<char>, from: usize, c: char) -> (r: usize)
    requires
        from <= chars@.len(),
    ensures
        from <= r <= chars@.len(),
        r == from + find_char(chars@.skip(from as int), c),
{
    let n: usize = chars.len();
    let mut i: usize = from;
    while i < n && chars[i] != c
        invariant
            from <= i <= n == chars@.len(),
            find_char(chars@.skip(from as int), c) == (i - from) + find_char(
                chars@.skip(i as int),
                c,
            ),
        decreases n - i,
    {
        assert(chars@.skip(i as int).skip(1) == chars@.skip(i + 1));
        i = i + 1;
    }
    i
}

/// The pieces of `s` between the occurrences of `c`: always one more than there
/// are occurrences.
pub open spec fn pieces(s: Seq<char>, c: char) -> Seq<Seq<char>>
    decreases s.len(),
{
    let n = find_char(s, c) as int;
    if n < s.len() {
        seq![s.take(n)] + pieces(s.skip(n + 1), c)
    } else {
        seq![s]
    }
}

/// The pieces of `s` between the occurrences of `c`.
pub fn split(s: &str, c: char) -> (r: Vec<String>)
    ensures
        views(r@) == pieces(s@, c),
{
    let chars: Vec<char> = to_chars(s);
    let n: usize = chars.len();
    let mut out: Vec<String> = Vec::new();
    let mut from: usize = 0;
    assert(chars@.skip(0) == chars@);
    assert(views(out@) + pieces(chars@, c) == pieces(chars@, c));
    loop
        invariant_except_break
            from <= n,
            views(out@) + pieces(chars@.skip(from as int), c) == pieces(s@, c),
        invariant
            n == chars@.len(),
            chars@ == s@,
        ensures
            views(out@) == pieces(s@, c),
        decreases n - from,
    {
        let at: usize = position_of(&chars, from, c);
        let piece: String = from_chars(&chars, from, at);
        let ghost rest = chars@.skip(from as int);
        let ghost before = views(out@);
        proof {
            assert(piece@ == rest.take(at - from));
            assert(rest.take(rest.len() as int) == rest);
        }
        out.push(piece);
        assert(views(out@) == before.push(piece@));
        assert(before.push(piece@) == before + seq![piece@]);
        if at == n {
            break;
        }
        proof {
            assert(rest.skip(at - from + 1) == chars@.skip(at + 1));
            assert(before + (seq![piece@] + pieces(chars@.skip(at + 1), c)) == views(out@) + pieces(
                chars@.skip(at + 1),
                c,
            ));
        }
        from = at + 1;
    }
    out
}

/// Whether `s` begins with `prefix`.
pub open spec fn starts_with(s: Seq<char>, prefix: Seq<char>) -> bool {
    prefix.len() <= s.len() && s.take(prefix.len() as int) == prefix
}

/// What follows `prefix` in `s`, where `s` begins with it.
pub fn strip_prefix(s: &str, prefix: &str) -> (r: Option<String>)
    ensures
        match r {
            Some(rest) => starts_with(s@, prefix@) && rest@ == s@.skip(prefix@.len() as int),
            None => !starts_with(s@, prefix@),
        },
{
    let a: Vec<char> = to_chars(s);
    let b: Vec<char> = to_chars(prefix);
    let n: usize = b.len();
    if a.len() < n {
        return None;
    }
    let mut i: usize = 0;
    while i < n
        invariant
            i <= n == b@.len() <= a@.len(),
            a@ == s@,
            b@ == prefix@,
            forall|k: int| 0 <= k < i ==> a@[k] == #[trigger] b@[k],
        decreases n - i,
    {
        if a[i] != b[i] {
            assert(s@.take(n as int)[i as int] != prefix@[i as int]);
            return None;
        }
        i = i + 1;
    }
    assert(s@.take(n as int) == prefix@);
    let rest: String = from_chars(&a, n, a.len());
    assert(rest@ == s@.skip(n as int));
    Some(rest)
}

/// `s` without the occurrences of `c` that it ends with.
pub open spec fn without_trailing(s: Seq<char>, c: char) -> Seq<char>
    decreases s.len(),
{
    if s.len() > 0 && s.last() == c {
        without_trailing(s.drop_last(), c)
    } else {
        s
    }
}

/// `s` without the occurrences of `c` that it ends with.
pub fn trim_end_matches(s: &str, c: char) -> (r: String)
    ensures
        r@ == without_trailing(s@, c),
{
    let chars: Vec<char> = to_chars(s);
    let mut n: usize = chars.len();
    assert(chars@.take(n as int) == s@);
    while n > 0 && chars[n - 1] == c
        invariant
            n <= chars@.len(),
            without_trailing(chars@.take(n as int), c) == without_trailing(s@, c),
        decreases n,
    {
        assert(chars@.take(n as int).drop_last() == chars@.take(n - 1));
        n = n - 1;
    }
    let r: String = from_chars(&chars, 0, n);
    assert(chars@.subrange(0, n as int) == chars@.take(n as int));
    r
}

/// `s` with every `from` turned into `to`.
pub open spec fn replaced(s: Seq<char>, from: char, to: char) -> Seq<char> {
    s.map_values(|c: char| if c == from { to } else { c })
}

/// `s` with every `from` turned into `to`.
pub fn replace(s: &str, from: char, to: char) -> (r: String)
    ensures
        r@ == replaced(s@, from, to),
{
    let chars: Vec<char> = to_chars(s);
    let mut out: String = String::new();
    let mut i: usize = 0;
    while i < chars.len()
        invariant
            i <= chars@.len(),
            chars@ == s@,
            out@ == replaced(s@, from, to).take(i as int),
        decreases chars@.len() - i,
    {
        if chars[i] == from {
            out.push(to);
        } else {
            out.push(chars[i]);
        }
        i = i + 1;
        assert(replaced(s@, from, to).take(i as int) == replaced(s@, from, to).take(i - 1).push(
            replaced(s@, from, to)[i - 1],
        ));
    }
    assert(replaced(s@, from, to).take(i as int) == replaced(s@, from, to));
    out
}

// ---------------------------------------------------------------------------
// Excerpts
// ---------------------------------------------------------------------------

/// `s` cut after `max` characters, with three dots where something was cut.
pub open spec fn limited(s: Seq<char>, max: nat) -> Seq<char> {
    if s.len() <= max {
        s
    } else {
        s.take(max as int) + "..."@
    }
}

/// `text` cut after `max_chars` characters, with `...` where something was cut.
pub fn limit_chars(text: &str, max_chars: usize) -> (r: String)
    ensures
        r@ == limited(text@, max_chars as nat),
{
    let chars: Vec<char> = to_chars(text);
    if chars.len() <= max_chars {
        let whole: String = from_chars(&chars, 0, chars.len());
        assert(chars@.subrange(0, chars@.len() as int) == text@);
        whole
    } else {
        let mut out: String = from_chars(&chars, 0, max_chars);
        assert(chars@.subrange(0, max_chars as int) == text@.take(max_chars as int));
        out.push_str("...");
        out
    }
}

/// The words of `s` with one blank between them, cut after `max` characters.
pub open spec fn excerpt(s: Seq<char>, max: nat) -> Seq<char> {
    limited(joined(words(s), " "@), max)
}

/// `text` on one line: its words with one blank between them, cut after
/// `max_chars` characters.
pub fn clean_excerpt(text: &str, max_chars: usize) -> (r: String)
    ensures
        r@ == excerpt(text@, max_chars as nat),
{
    let parts: Vec<String> = split_whitespace(text);
    let line: String = join(&parts, " ");
    limit_chars(line.as_str(), max_chars)
}

/// An excerpt has at most `max` characters of the text, and three dots.
pub proof fn limited_is_short(s: Seq<char>, max: nat)
    ensures
        limited(s, max).len() <= max + 3,
        s.len() <= max ==> limited(s, max) == s,
        s.len() > max ==> limited(s, max).len() == max + 3 && starts_with(
            limited(s, max),
            s.take(max as int),
        ),
{
    reveal_strlit("...");
    if s.len() > max {
        assert(limited(s, max).take(max as int) == s.take(max as int));
    }
}

// ---------------------------------------------------------------------------
// Lower case and classes of characters
// ---------------------------------------------------------------------------

/// What `str::to_lowercase` makes of a text.
pub uninterp spec fn unicode_lowercase(s: Seq<char>) -> Seq<char>;

/// What `char::to_lowercase` makes of a character.
pub uninterp spec fn char_lowercase(c: char) -> Seq<char>;

/// An ASCII capital turned into its small letter; any other character as it is.
pub open spec fn ascii_lower(c: char) -> char {
    if 'A' <= c <= 'Z' {
        (c as u32 + 32) as char
    } else {
        c
    }
}

/// A text with its ASCII capitals turned into their small letters.
pub open spec fn ascii_folded(s: Seq<char>) -> Seq<char> {
    s.map_values(|c: char| ascii_lower(c))
}

/// Whether a text has no ASCII capital.
pub open spec fn no_ascii_capital(s: Seq<char>) -> bool {
    forall|i: int| 0 <= i < s.len() ==> !('A' <= #[trigger] s[i] <= 'Z')
}

/// A text with its ASCII capitals turned into their small letters.
pub fn ascii_fold(s: &str) -> (r: String)
    ensures
        r@ == ascii_folded(s@),
{
    let chars: Vec<char> = to_chars(s);
    let mut out: String = String::new();
    let mut i: usize = 0;
    while i < chars.len()
        invariant
            i <= chars@.len(),
            chars@ == s@,
            out@ == ascii_folded(s@).take(i as int),
        decreases chars@.len() - i,
    {
        let c: char = chars[i];
        if 'A' <= c && c <= 'Z' {
            out.push((c as u8 + 32) as char);
        } else {
            out.push(c);
        }
        i = i + 1;
        assert(ascii_folded(s@).take(i as int) == ascii_folded(s@).take(i - 1).push(
            ascii_folded(s@)[i - 1],
        ));
    }
    assert(ascii_folded(s@).take(i as int) == ascii_folded(s@));
    out
}

/// `str::to_lowercase`. Its result depends on the text alone, and has no ASCII capital;
/// on a text that is all ASCII it maps `A` to `Z` to `a` to `z` and keeps the rest.
#[verifier::external_body]
fn std_to_lowercase(s: &str) -> (r: String)
    ensures
        r@ == unicode_lowercase(s@),
        no_ascii_capital(r@),
        vstd::utf8::is_ascii_chars(s@) ==> r@ == ascii_folded(s@),
{
    s.to_lowercase()
}

/// `char::to_lowercase`. Its result depends on the character alone, and has no ASCII
/// capital; of an ASCII character it is one character, `a` to `z` for `A` to `Z` and
/// otherwise the same.
#[verifier::external_body]
fn std_char_to_lowercase(c: char) -> (r: String)
    ensures
        r@ == char_lowercase(c),
        no_ascii_capital(r@),
        c <= '\u{7f}' ==> r@ == seq![ascii_lower(c)],
{
    c.to_lowercase().to_string()
}

/// The capital sigma. Its small letter depends on whether it ends a word.
pub const CAPITAL_SIGMA: char = '\u{3a3}';

/// A character in lower case, which may be several characters.
pub open spec fn lower_char(c: char) -> Seq<char> {
    if c <= '\u{7f}' {
        seq![ascii_lower(c)]
    } else {
        char_lowercase(c)
    }
}

/// The characters of a text in lower case, one after the other.
pub open spec fn lower_chars(s: Seq<char>) -> Seq<char>
    decreases s.len(),
{
    if s.len() == 0 {
        Seq::empty()
    } else {
        lower_chars(s.drop_last()) + lower_char(s.last())
    }
}

/// A text in lower case: character by character, but for a text with a capital sigma,
/// whose small letter depends on what stands around it.
pub open spec fn lowercase(s: Seq<char>) -> Seq<char> {
    if s.contains(CAPITAL_SIGMA) {
        unicode_lowercase(s)
    } else {
        lower_chars(s)
    }
}

/// A text in lower case.
pub fn to_lowercase(s: &str) -> (r: String)
    ensures
        r@ == lowercase(s@),
        no_ascii_capital(r@),
{
    let chars: Vec<char> = to_chars(s);
    let mut out: String = String::new();
    let mut i: usize = 0;
    assert(chars@.take(0) == Seq::<char>::empty());
    while i < chars.len()
        invariant
            i <= chars@.len(),
            chars@ == s@,
            forall|k: int| 0 <= k < i ==> #[trigger] chars@[k] != CAPITAL_SIGMA,
            out@ == lower_chars(chars@.take(i as int)),
            no_ascii_capital(out@),
        decreases chars@.len() - i,
    {
        let c: char = chars[i];
        if c == CAPITAL_SIGMA {
            assert(s@[i as int] == CAPITAL_SIGMA);
            return std_to_lowercase(s);
        }
        let lower: String = std_char_to_lowercase(c);
        let ghost before = out@;
        out.push_str(lower.as_str());
        i = i + 1;
        proof {
            assert(chars@.take(i as int).drop_last() == chars@.take(i - 1));
            assert(chars@.take(i as int).last() == c);
            assert forall|k: int| 0 <= k < out@.len() implies !('A' <= #[trigger] out@[k]
                <= 'Z') by {
                if k < before.len() {
                    assert(out@[k] == before[k]);
                } else {
                    assert(out@[k] == lower@[k - before.len()]);
                }
            }
        }
    }
    assert(chars@.take(i as int) == s@);
    out
}

proof fn lemma_lower_chars_concat(a: Seq<char>, b: Seq<char>)
    ensures
        lower_chars(a + b) == lower_chars(a) + lower_chars(b),
    decreases b.len(),
{
    if b.len() == 0 {
        assert(a + b == a);
        assert(lower_chars(a) + lower_chars(b) == lower_chars(a));
    } else {
        lemma_lower_chars_concat(a, b.drop_last());
        assert((a + b).drop_last() == a + b.drop_last());
        assert(lower_chars(a) + (lower_chars(b.drop_last()) + lower_char(b.last())) == (
        lower_chars(a) + lower_chars(b.drop_last())) + lower_char(b.last()));
    }
}

proof fn lemma_lower_chars_ascii(s: Seq<char>)
    requires
        vstd::utf8::is_ascii_chars(s),
    ensures
        lower_chars(s) == ascii_folded(s),
    decreases s.len(),
{
    if s.len() > 0 {
        let init = s.drop_last();
        assert forall|i: int| 0 <= i < init.len() implies '\0' <= #[trigger] init[i] <= '\u{7f}' by {
            assert(init[i] == s[i]);
        }
        lemma_lower_chars_ascii(init);
        assert(s[s.len() - 1] <= '\u{7f}');
        assert(ascii_folded(s) == ascii_folded(init).push(ascii_lower(s.last())));
    }
}

/// A text that is all ASCII is lowered letter by letter.
pub proof fn ascii_is_lowered_letter_by_letter(s: Seq<char>)
    requires
        vstd::utf8::is_ascii_chars(s),
    ensures
        lowercase(s) == ascii_folded(s),
{
    lemma_lower_chars_ascii(s);
}

proof fn lemma_folded_chars(a: Seq<char>, b: Seq<char>)
    requires
        ascii_folded(a) == ascii_folded(b),
    ensures
        a.len() == b.len(),
        forall|i: int|
            0 <= i < a.len() ==> ascii_lower(#[trigger] a[i]) == ascii_lower(b[i]),
{
    assert(ascii_folded(a).len() == a.len());
    assert(ascii_folded(b).len() == b.len());
    assert forall|i: int| 0 <= i < a.len() implies ascii_lower(#[trigger] a[i]) == ascii_lower(
        b[i],
    ) by {
        assert(ascii_folded(a)[i] == ascii_lower(a[i]));
        assert(ascii_folded(b)[i] == ascii_lower(b[i]));
    }
}

proof fn lemma_lower_chars_folded(a: Seq<char>, b: Seq<char>)
    requires
        ascii_folded(a) == ascii_folded(b),
    ensures
        lower_chars(a) == lower_chars(b),
    decreases a.len(),
{
    lemma_folded_chars(a, b);
    if a.len() > 0 {
        assert(ascii_lower(a[a.len() - 1]) == ascii_lower(b[a.len() - 1]));
        assert(ascii_folded(a.drop_last()) == ascii_folded(a).drop_last());
        assert(ascii_folded(b.drop_last()) == ascii_folded(b).drop_last());
        lemma_lower_chars_folded(a.drop_last(), b.drop_last());
        assert(lower_char(a.last()) == lower_char(b.last()));
    }
}

/// Lower case does not depend on the case of ASCII letters, where no capital sigma is
/// among the characters.
pub proof fn lowercase_ignores_ascii_case(a: Seq<char>, b: Seq<char>)
    requires
        ascii_folded(a) == ascii_folded(b),
        !a.contains(CAPITAL_SIGMA),
    ensures
        !b.contains(CAPITAL_SIGMA),
        lowercase(a) == lowercase(b),
{
    lemma_folded_chars(a, b);
    lemma_lower_chars_folded(a, b);
    if b.contains(CAPITAL_SIGMA) {
        let k = choose|k: int| 0 <= k < b.len() && b[k] == CAPITAL_SIGMA;
        assert(ascii_lower(a[k]) == ascii_lower(b[k]));
        assert(a[k] == CAPITAL_SIGMA);
    }
}

/// A text with ASCII characters behind it that are no capitals is lowered as if they
/// were not there, where it has no capital sigma.
pub(crate) proof fn lemma_lowercase_with_tail(s: Seq<char>, tail: Seq<char>)
    requires
        !s.contains(CAPITAL_SIGMA),
        vstd::utf8::is_ascii_chars(tail),
        no_ascii_capital(tail),
    ensures
        lowercase(s + tail) == lowercase(s) + tail,
{
    lemma_lower_chars_concat(s, tail);
    lemma_lower_chars_ascii(tail);
    assert(ascii_folded(tail) == tail);
    if (s + tail).contains(CAPITAL_SIGMA) {
        let k = choose|k: int| 0 <= k < (s + tail).len() && (s + tail)[k] == CAPITAL_SIGMA;
        if k < s.len() {
            assert(s[k] == CAPITAL_SIGMA);
        } else {
            assert(tail[k - s.len()] == CAPITAL_SIGMA);
        }
    }
}

/// White space at the ends of a text is the same in any case.
pub(crate) proof fn lemma_folded_ends(a: Seq<char>, b: Seq<char>)
    requires
        ascii_folded(a) == ascii_folded(b),
        a.len() > 0,
    ensures
        b.len() == a.len(),
        is_white(a[0]) == is_white(b[0]),
        is_white(a.last()) == is_white(b.last()),
{
    lemma_folded_chars(a, b);
    assert(ascii_lower(a[0]) == ascii_lower(b[0]));
    assert(ascii_lower(a[a.len() - 1]) == ascii_lower(b[a.len() - 1]));
}

/// What `char::is_alphanumeric` says of a character.
pub uninterp spec fn unicode_alphanumeric(c: char) -> bool;

/// The ASCII letters and digits.
pub open spec fn ascii_alphanumeric(c: char) -> bool {
    ||| 'a' <= c <= 'z'
    ||| 'A' <= c <= 'Z'
    ||| '0' <= c <= '9'
}

/// `char::is_alphanumeric`. Its result depends on the character alone; among the
/// ASCII characters it holds of the letters and the digits.
#[verifier::external_body]
fn std_is_alphanumeric(c: char) -> (r: bool)
    ensures
        r == unicode_alphanumeric(c),
        (c as u32) < 128 ==> r == ascii_alphanumeric(c),
{
    c.is_alphanumeric()
}

/// Whether a character is a letter or a digit: one of ASCII, or what Unicode counts
/// as one beyond that.
pub open spec fn alphanumeric(c: char) -> bool {
    if (c as u32) < 128 {
        ascii_alphanumeric(c)
    } else {
        unicode_alphanumeric(c)
    }
}

/// Whether a character is a letter or a digit.
pub fn is_alphanumeric(c: char) -> (r: bool)
    ensures
        r == alphanumeric(c),
{
    std_is_alphanumeric(c)
}

/// Whether two strings have the same contents.
pub(crate) fn same_text(a: &str, b: &str) -> (r: bool)
    ensures
        r == (a@ == b@),
{
    let x: Vec<char> = to_chars(a);
    let y: Vec<char> = to_chars(b);
    if x.len() != y.len() {
        return false;
    }
    let mut i: usize = 0;
    while i < x.len()
        invariant
            i <= x@.len() == y@.len(),
            x@ == a@,
            y@ == b@,
            forall|k: int| 0 <= k < i ==> #[trigger] x@[k] == y@[k],
        decreases x@.len() - i,
    {
        if x[i] != y[i] {
            return false;
        }
        i = i + 1;
    }
    assert(a@ == b@);
    true
}

/// Whether `list` has the entry `x`.
pub(crate) fn contains(list: &Vec<String>, x: &str) -> (r: bool)
    ensures
        r == views(list@).contains(x@),
{
    let mut i: usize = 0;
    while i < list.len()
        invariant
            i <= list@.len(),
            forall|k: int| 0 <= k < i ==> #[trigger] views(list@)[k] != x@,
        decreases list@.len() - i,
    {
        if same_text(list[i].as_str(), x) {
            assert(views(list@)[i as int] == x@);
            return true;
        }
        i = i + 1;
    }
    false
}

// ---------------------------------------------------------------------------
// What holds of texts
// ---------------------------------------------------------------------------

/// The contents of a list of strings are those of its strings, one for one.
pub proof fn views_show_every_string(parts: Seq<String>)
    ensures
        views(parts).len() == parts.len(),
        forall|i: int| 0 <= i < parts.len() ==> #[trigger] views(parts)[i] == parts[i]@,
{
}

/// White space is the blank, the ASCII characters from tab to carriage return, and the
/// blanks and line ends that Unicode has beside them.
pub proof fn white_space_is_blanks_and_line_ends(c: char)
    ensures
        is_white(c) <==> (c == ' ' || '\t' <= c <= '\r' || c == '\u{85}' || c == '\u{a0}' || c
            == '\u{1680}' || '\u{2000}' <= c <= '\u{200a}' || c == '\u{2028}' || c == '\u{2029}'
            || c == '\u{202f}' || c == '\u{205f}' || c == '\u{3000}'),
{
}

/// Trimming takes white space away at the two ends, all of it, and nothing else.
pub proof fn trimming_takes_white_ends_away(s: Seq<char>)
    ensures
        exists|a: int, b: int|
            0 <= a <= b <= s.len() && trimmed(s) == #[trigger] s.subrange(a, b) && (forall|i: int|
                0 <= i < a || b <= i < s.len() ==> is_white(#[trigger] s[i])) && (a < b
                ==> !is_white(s[a]) && !is_white(s[b - 1])),
{
    lemma_trimmed_start_is_white(s);
    lemma_trimmed_start_shorter(s);
    let t = trimmed_start(s);
    let a = s.len() - t.len();
    lemma_trimmed_end_shorter(t);
    lemma_trimmed_end_is_white(t);
    let b = a + trimmed_end(t).len();
    assert(trimmed(s) == s.subrange(a, b));
    assert forall|i: int| 0 <= i < a || b <= i < s.len() implies is_white(#[trigger] s[i]) by {
        if i >= b {
            assert(s[i] == t[i - a]);
        }
    }
    if a < b {
        assert(trimmed(s)[0] == s[a]);
        assert(trimmed(s).last() == s[b - 1]);
        trimmed_ends_are_not_white(s);
    }
}

proof fn lemma_trimmed_end_is_white(s: Seq<char>)
    ensures
        forall|i: int| trimmed_end(s).len() <= i < s.len() ==> is_white(#[trigger] s[i]),
    decreases s.len(),
{
    if s.len() > 0 && is_white(s.last()) {
        lemma_trimmed_end_is_white(s.drop_last());
        assert forall|i: int| trimmed_end(s).len() <= i < s.len() implies is_white(
            #[trigger] s[i],
        ) by {
            if i < s.len() - 1 {
                assert(s[i] == s.drop_last()[i]);
            }
        }
    }
}

/// A word begins at every character that is no white space and has white space or
/// nothing in front of it, and nowhere else; the beginnings are in order.
pub proof fn words_begin_behind_white_space(s: Seq<char>)
    ensures
        forall|i: int| #[trigger]
            word_starts(s).contains(i) <==> 0 <= i < s.len() && !is_white(s[i]) && (i == 0
                || is_white(s[i - 1])),
        forall|j: int, k: int|
            0 <= j < k < word_starts(s).len() ==> #[trigger] word_starts(s)[j]
                < #[trigger] word_starts(s)[k],
    decreases s.len(),
{
    if s.len() > 0 {
        let init = s.drop_last();
        words_begin_behind_white_space(init);
        let r = word_starts(init);
        let all = word_starts(s);
        let n = s.len() - 1;
        assert forall|i: int| #[trigger] all.contains(i) <==> 0 <= i < s.len() && !is_white(s[i])
            && (i == 0 || is_white(s[i - 1])) by {
            if r.contains(i) {
                let k = choose|k: int| 0 <= k < r.len() && r[k] == i;
                assert(all[k] == i);
                assert(init[i] == s[i]);
            }
            if all.contains(i) && i != n {
                let k = choose|k: int| 0 <= k < all.len() && all[k] == i;
                assert(r[k] == i);
            }
            if 0 <= i < n && !is_white(s[i]) && (i == 0 || is_white(s[i - 1])) {
                assert(init[i] == s[i]);
                assert(r.contains(i));
            }
            if i == n {
                if !is_white(s.last()) && (s.len() == 1 || is_white(s[s.len() - 2])) {
                    assert(all[all.len() - 1] == n);
                } else if all.contains(i) {
                    assert(r.contains(i));
                }
            }
        }
        assert forall|j: int, k: int| 0 <= j < k < all.len() implies #[trigger] all[j]
            < #[trigger] all[k] by {
            assert(r.contains(r[j]));
            if k < r.len() {
                assert(r[j] < r[k]);
            }
        }
    }
}

/// Every word stands in the text from its beginning on, is free of white space, and ends
/// at white space or at the end of the text.
pub proof fn words_are_whole(s: Seq<char>)
    ensures
        words(s).len() == word_starts(s).len(),
        forall|k: int|
            0 <= k < words(s).len() ==> {
                let a = #[trigger] word_starts(s)[k];
                let b = a + words(s)[k].len();
                &&& 0 <= a < b <= s.len()
                &&& words(s)[k] == s.subrange(a, b)
                &&& forall|i: int| a <= i < b ==> !is_white(#[trigger] s[i])
                &&& b == s.len() || is_white(s[b])
            },
    decreases s.len(),
{
    words_begin_at_their_starts(s);
    words_are_words(s);
    lemma_words_end(s);
    assert forall|k: int| 0 <= k < words(s).len() implies {
        let a = #[trigger] word_starts(s)[k];
        let b = a + words(s)[k].len();
        &&& 0 <= a < b <= s.len()
        &&& words(s)[k] == s.subrange(a, b)
        &&& forall|i: int| a <= i < b ==> !is_white(#[trigger] s[i])
        &&& b == s.len() || is_white(s[b])
    } by {
        let a = word_starts(s)[k];
        let w = words(s)[k];
        assert(is_word(w));
        assert(starts_with(s.skip(a), w));
        assert(s.skip(a).take(w.len() as int) == s.subrange(a, a + w.len()));
        assert forall|i: int| a <= i < a + w.len() implies !is_white(#[trigger] s[i]) by {
            assert(s[i] == w[i - a]);
        }
    }
}

proof fn lemma_words_end(s: Seq<char>)
    ensures
        forall|k: int|
            0 <= k < words(s).len() ==> ({
                let b = #[trigger] word_starts(s)[k] + words(s)[k].len();
                b >= s.len() || is_white(s[b])
            }),
    decreases s.len(),
{
    lemma_trimmed_start_shorter(s);
    lemma_trimmed_start_is_white(s);
    words_begin_at_their_starts(s);
    let t = trimmed_start(s);
    let a = s.len() - t.len();
    let white = s.take(a);
    assert forall|i: int| 0 <= i < white.len() implies is_white(#[trigger] white[i]) by {
        assert(white[i] == s[i]);
    }
    lemma_no_word_starts(white);
    assert(s == white + t);
    if t.len() > 0 {
        let n = word_length(t) as int;
        lemma_word_length(t);
        let w = t.take(n);
        let rest = t.skip(n);
        assert(is_word(w)) by {
            assert forall|i: int| 0 <= i < n implies !is_white(#[trigger] w[i]) by {
                assert(w[i] == t[i]);
            }
        }
        lemma_one_word_start(w);
        assert(t == w + rest);
        if rest.len() > 0 {
            assert(rest[0] == t[n]);
        }
        lemma_word_starts_of_longer(w, rest);
        if white.len() > 0 {
            assert(is_white(white[white.len() - 1]));
        }
        lemma_word_starts_of_longer(white, t);
        lemma_words_end(rest);
        words_begin_at_their_starts(rest);
        let inner = word_starts(rest);
        let outer = word_starts(s);
        assert forall|k: int| 0 <= k < words(s).len() implies ({
            let b = #[trigger] outer[k] + words(s)[k].len();
            b >= s.len() || is_white(s[b])
        }) by {
            if k == 0 {
                assert(word_starts(t)[0] == 0);
                assert(outer[0] == a);
                if a + n < s.len() {
                    assert(s[a + n] == t[n]);
                }
            } else {
                assert(word_starts(t)[k] == n + inner[k - 1]);
                assert(outer[k] == a + n + inner[k - 1]);
                assert(words(s)[k] == words(rest)[k - 1]);
                let b = inner[k - 1] + words(rest)[k - 1].len();
                if b < rest.len() {
                    assert(s[a + n + b] == rest[b]);
                }
            }
        }
    }
}

proof fn lemma_word_length_of_longer(t: Seq<char>, y: Seq<char>)
    requires
        word_length(t) < t.len() || y.len() == 0 || is_white(y[0]),
    ensures
        word_length(t + y) == word_length(t),
    decreases t.len(),
{
    if t.len() == 0 {
        assert(t + y == y);
    } else if !is_white(t[0]) {
        assert((t + y).skip(1) == t.skip(1) + y);
        lemma_word_length_of_longer(t.skip(1), y);
    }
}

/// Texts that meet at white space have the words of the one and then of the other.
pub proof fn words_of_texts_that_meet_at_white_space(x: Seq<char>, y: Seq<char>)
    requires
        x.len() == 0 || y.len() == 0 || is_white(x.last()) || is_white(y[0]),
    ensures
        words(x + y) == words(x) + words(y),
    decreases x.len(),
{
    lemma_trimmed_start_shorter(x);
    lemma_trimmed_start_tail(x, y);
    let t = trimmed_start(x);
    if t.len() == 0 {
        assert(words(x) == Seq::<Seq<char>>::empty());
        assert(trimmed_start(x + y) == trimmed_start(y));
        assert(words(x + y) == words(y));
        assert(words(x) + words(y) == words(y));
    } else {
        let n = word_length(t) as int;
        lemma_word_length(t);
        assert(t.last() == x.last());
        if n == t.len() {
            assert(!is_white(t[n - 1]));
        }
        lemma_word_length_of_longer(t, y);
        let rest = t.skip(n);
        assert((t + y).take(n) == t.take(n));
        assert((t + y).skip(n) == rest + y);
        if rest.len() > 0 {
            assert(rest.last() == t.last());
        }
        words_of_texts_that_meet_at_white_space(rest, y);
        assert(words(x) == seq![t.take(n)] + words(rest));
        assert(words(x + y) == seq![t.take(n)] + (words(rest) + words(y)));
        assert(seq![t.take(n)] + (words(rest) + words(y)) == (seq![t.take(n)] + words(rest))
            + words(y));
    }
}

proof fn lemma_words_of_word(w: Seq<char>)
    requires
        is_word(w),
    ensures
        words(w) == seq![w],
{
    assert(!is_white(w[0]));
    assert(trimmed_start(w) == w);
    lemma_word_length(w);
    let n = word_length(w) as int;
    if n < w.len() {
        assert(!is_white(w[n]));
    }
    assert(w.take(n) == w);
    assert(w.skip(n) == Seq::<char>::empty());
    assert(words(w.skip(n)) == Seq::<Seq<char>>::empty());
}

proof fn lemma_no_words(c: char)
    requires
        is_white(c),
    ensures
        words(seq![c]) == Seq::<Seq<char>>::empty(),
{
    let none = Seq::<char>::empty();
    assert(seq![c].skip(1) == none);
    assert(trimmed_start(none) == none);
    assert(trimmed_start(seq![c]) == none);
}

/// Words that are joined by blanks are found again: joining loses none of them and
/// changes none.
pub proof fn joined_words_are_found_again(ws: Seq<Seq<char>>)
    requires
        forall|k: int| 0 <= k < ws.len() ==> is_word(#[trigger] ws[k]),
    ensures
        words(joined(ws, " "@)) == ws,
    decreases ws.len(),
{
    reveal_strlit(" ");
    if ws.len() == 0 {
        assert(words(Seq::<char>::empty()) == Seq::<Seq<char>>::empty());
    } else {
        let init = ws.drop_last();
        let w = ws.last();
        assert(is_word(ws[ws.len() - 1]));
        assert forall|k: int| 0 <= k < init.len() implies is_word(#[trigger] init[k]) by {
            assert(init[k] == ws[k]);
        }
        joined_words_are_found_again(init);
        lemma_words_of_word(w);
        if ws.len() > 1 {
            let blank = " "@;
            let a = joined(init, blank);
            assert(joined(ws, blank) == a + blank + w);
            words_of_texts_that_meet_at_white_space(a, blank);
            words_of_texts_that_meet_at_white_space(a + blank, w);
            assert(blank == seq![' ']);
            lemma_no_words(' ');
            assert(words(a + blank) == words(a));
            assert(init + seq![w] == ws);
        } else {
            assert(joined(ws, " "@) == w);
            assert(seq![w] == ws);
        }
    }
}

/// Joining puts the separator between neighbours and nowhere else: nothing gives nothing,
/// one part gives that part, and one more comes behind one more separator.
pub proof fn joining_one_more(parts: Seq<Seq<char>>, sep: Seq<char>, part: Seq<char>)
    ensures
        joined(Seq::empty(), sep) == Seq::<char>::empty(),
        joined(seq![part], sep) == part,
        parts.len() > 0 ==> joined(parts.push(part), sep) == joined(parts, sep) + sep + part,
{
    assert(parts.push(part).drop_last() == parts);
    assert(seq![part][0] == part);
}

/// The place of the first `c`: none stands before it, and it is one, or the end.
pub proof fn the_first_is_found(s: Seq<char>, c: char)
    ensures
        find_char(s, c) <= s.len(),
        forall|i: int| 0 <= i < find_char(s, c) ==> #[trigger] s[i] != c,
        find_char(s, c) < s.len() ==> s[find_char(s, c) as int] == c,
{
    lemma_find_char(s, c);
}

/// Splitting a text and joining the pieces gives the text back, and no piece has the
/// character in it that was split at.
pub proof fn pieces_join_to_the_text(s: Seq<char>, c: char)
    ensures
        pieces(s, c).len() > 0,
        joined(pieces(s, c), seq![c]) == s,
        forall|k: int, i: int|
            0 <= k < pieces(s, c).len() && 0 <= i < pieces(s, c)[k].len()
                ==> #[trigger] pieces(s, c)[k][i] != c,
    decreases s.len(),
{
    let n = find_char(s, c) as int;
    lemma_find_char(s, c);
    let all = pieces(s, c);
    if n < s.len() {
        let rest = pieces(s.skip(n + 1), c);
        pieces_join_to_the_text(s.skip(n + 1), c);
        lemma_joined_front(s.take(n), rest, seq![c]);
        assert(s == s.take(n) + seq![c] + s.skip(n + 1));
        assert forall|k: int, i: int| 0 <= k < all.len() && 0 <= i < all[k].len() implies
            #[trigger] all[k][i] != c by {
            if k > 0 {
                assert(all[k] == rest[k - 1]);
                assert(rest[k - 1][i] != c);
            } else {
                assert(all[0][i] == s[i]);
            }
        }
    } else {
        assert(all[0] == s);
    }
}

proof fn lemma_joined_front(first: Seq<char>, rest: Seq<Seq<char>>, sep: Seq<char>)
    requires
        rest.len() > 0,
    ensures
        joined(seq![first] + rest, sep) == first + sep + joined(rest, sep),
    decreases rest.len(),
{
    let all = seq![first] + rest;
    assert(all.last() == rest.last());
    if rest.len() == 1 {
        assert(all.drop_last() == seq![first]);
        assert(seq![first][0] == first);
        assert(joined(seq![first], sep) == first);
        assert(rest.last() == rest[0]);
        assert(joined(rest, sep) == rest[0]);
    } else {
        let init = rest.drop_last();
        assert(all.drop_last() == seq![first] + init);
        lemma_joined_front(first, init, sep);
        assert(first + sep + joined(init, sep) + sep + rest.last() == first + sep + (joined(
            init,
            sep,
        ) + sep + rest.last()));
    }
}

/// A text begins with its own beginnings, and what it begins with is followed by the
/// rest.
pub proof fn beginnings_are_followed_by_the_rest(s: Seq<char>, prefix: Seq<char>)
    ensures
        starts_with(prefix + s, prefix),
        starts_with(s, prefix) <==> exists|rest: Seq<char>| s == #[trigger] (prefix + rest),
        starts_with(s, prefix) ==> s == prefix + s.skip(prefix.len() as int),
{
    assert((prefix + s).take(prefix.len() as int) == prefix);
    if starts_with(s, prefix) {
        assert(s == prefix + s.skip(prefix.len() as int));
    }
    if exists|rest: Seq<char>| s == #[trigger] (prefix + rest) {
        let rest = choose|rest: Seq<char>| s == #[trigger] (prefix + rest);
        assert((prefix + rest).take(prefix.len() as int) == prefix);
    }
}

/// Taking `c` away at the end of a text takes all of them there and nothing else.
pub proof fn trailing_characters_are_taken_away(s: Seq<char>, c: char)
    ensures
        without_trailing(s, c).len() <= s.len(),
        without_trailing(s, c) == s.take(without_trailing(s, c).len() as int),
        forall|i: int| without_trailing(s, c).len() <= i < s.len() ==> #[trigger] s[i] == c,
        without_trailing(s, c).len() > 0 ==> without_trailing(s, c).last() != c,
    decreases s.len(),
{
    let r = without_trailing(s, c);
    if s.len() > 0 && s.last() == c {
        trailing_characters_are_taken_away(s.drop_last(), c);
        assert(s.drop_last().take(r.len() as int) == s.take(r.len() as int));
        assert forall|i: int| r.len() <= i < s.len() implies #[trigger] s[i] == c by {
            if i < s.len() - 1 {
                assert(s[i] == s.drop_last()[i]);
            }
        }
    } else {
        assert(s.take(s.len() as int) == s);
    }
}

/// Replacing changes the characters that are replaced, and no others.
pub proof fn only_what_is_replaced_changes(s: Seq<char>, from: char, to: char)
    ensures
        replaced(s, from, to).len() == s.len(),
        forall|i: int|
            0 <= i < s.len() ==> (#[trigger] s[i] == from ==> replaced(s, from, to)[i] == to) && (
            s[i] != from ==> replaced(s, from, to)[i] == s[i]),
{
}

/// A text that is cut keeps its beginning and ends in three dots; one that fits is kept
/// as it is.
pub proof fn what_is_cut_ends_in_dots(s: Seq<char>, max: nat)
    ensures
        s.len() <= max ==> limited(s, max) == s,
        s.len() > max ==> {
            &&& limited(s, max).len() == max + 3
            &&& forall|i: int| 0 <= i < max ==> #[trigger] limited(s, max)[i] == s[i]
            &&& forall|i: int| max <= i < max + 3 ==> #[trigger] limited(s, max)[i] == '.'
        },
{
    reveal_strlit("...");
}

/// An excerpt that fits has the words of the text, all of them in order.
pub proof fn excerpts_that_fit_have_every_word(s: Seq<char>, max: nat)
    requires
        joined(words(s), " "@).len() <= max,
    ensures
        words(excerpt(s, max)) == words(s),
{
    words_are_words(s);
    joined_words_are_found_again(words(s));
}

/// An excerpt that does not fit begins as the line of all words does.
pub proof fn excerpts_begin_as_the_text_does(s: Seq<char>, max: nat)
    requires
        joined(words(s), " "@).len() > max,
    ensures
        excerpt(s, max).len() == max + 3,
        forall|i: int|
            0 <= i < max ==> #[trigger] excerpt(s, max)[i] == joined(words(s), " "@)[i],
{
    what_is_cut_ends_in_dots(joined(words(s), " "@), max);
}

/// ASCII letters become small, and no other ASCII character changes.
pub proof fn ascii_letters_become_small(c: char)
    ensures
        'A' <= c <= 'Z' ==> ascii_lower(c) as int == c as int + 32,
        !('A' <= c <= 'Z') ==> ascii_lower(c) == c,
{
}

/// Folding changes ASCII capitals, one for one.
pub proof fn folding_is_letter_by_letter(s: Seq<char>)
    ensures
        ascii_folded(s).len() == s.len(),
        forall|i: int|
            0 <= i < s.len() ==> if 'A' <= #[trigger] s[i] <= 'Z' {
                ascii_folded(s)[i] as int == s[i] as int + 32
            } else {
                ascii_folded(s)[i] == s[i]
            },
{
}

/// Lower case goes through a text without a capital sigma from left to right: a text
/// that is longer by one character is lowered as before, with that character behind it.
pub proof fn lowering_one_more(s: Seq<char>, c: char)
    requires
        !s.push(c).contains(CAPITAL_SIGMA),
    ensures
        lowercase(Seq::empty()) == Seq::<char>::empty(),
        'A' <= c <= 'Z' ==> lowercase(s.push(c)) == lowercase(s).push((c as u32 + 32) as char),
        c <= '\u{7f}' && !('A' <= c <= 'Z') ==> lowercase(s.push(c)) == lowercase(s).push(c),
        c > '\u{7f}' ==> lowercase(s.push(c)) == lowercase(s) + char_lowercase(c),
{
    assert(s.push(c).drop_last() == s);
    assert(!s.contains(CAPITAL_SIGMA)) by {
        if s.contains(CAPITAL_SIGMA) {
            let k = choose|k: int| 0 <= k < s.len() && s[k] == CAPITAL_SIGMA;
            assert(s.push(c)[k] == CAPITAL_SIGMA);
        }
    }
    if c <= '\u{7f}' {
        assert(lowercase(s) + seq![ascii_lower(c)] == lowercase(s).push(ascii_lower(c)));
    }
    assert(!Seq::<char>::empty().contains(CAPITAL_SIGMA));
}

/// A text with a capital sigma is lowered as a whole.
pub proof fn texts_with_a_capital_sigma_are_lowered_whole(s: Seq<char>, t: Seq<char>)
    ensures
        CAPITAL_SIGMA == '\u{3a3}',
        lowercase(s.push('\u{3a3}') + t) == unicode_lowercase(s.push('\u{3a3}') + t),
{
    assert((s.push('\u{3a3}') + t)[s.len() as int] == CAPITAL_SIGMA);
}

/// Among the ASCII characters the letters and digits are what they are in English;
/// beyond them Unicode says.
pub proof fn letters_and_digits(c: char)
    ensures
        c <= '\u{7f}' ==> (alphanumeric(c) <==> 'a' <= c <= 'z' || 'A' <= c <= 'Z' || '0' <= c
            <= '9'),
        c > '\u{7f}' ==> alphanumeric(c) == unicode_alphanumeric(c),
{
}

/// The form feeds of two texts add up, and a form feed counts as one, any other
/// character as none.
pub proof fn form_feeds_add_up(a: Seq<char>, b: Seq<char>, c: char)
    ensures
        form_feeds(a + b) == form_feeds(a) + form_feeds(b),
        form_feeds(seq![c]) == (if c == '\u{c}' {
            1nat
        } else {
            0nat
        }),
    decreases b.len(),
{
    if b.len() > 0 {
        form_feeds_add_up(a, b.drop_last(), c);
        assert((a + b).drop_last() == a + b.drop_last());
    } else {
        assert(a + b == a);
    }
    assert(seq![c].drop_last() == Seq::<char>::empty());
    assert(form_feeds(Seq::<char>::empty()) == 0);
}

/// A word is on the page that the form feeds before it have led to: the words of a text
/// without form feeds are on the first page, and behind a form feed they are one page
/// further than they would be without what stands before it.
pub proof fn pages_follow_form_feeds(a: Seq<char>, b: Seq<char>, k: int)
    requires
        0 <= k < words(b).len(),
    ensures
        ({
            let s = a.push('\u{c}') + b;
            &&& words(s) == words(a) + words(b)
            &&& word_page(s, words(a).len() + k) == form_feeds(a) + 1 + word_page(b, k)
        }),
        form_feeds(b) == 0 ==> word_page(b, k) == 1,
{
    let feed = a.push('\u{c}');
    let s = feed + b;
    let n = words(a).len() as int;
    words_begin_at_their_starts(a);
    words_begin_at_their_starts(b);
    assert(feed == a + seq!['\u{c}']);
    assert(is_white('\u{c}'));
    assert(seq!['\u{c}'][0] == '\u{c}');
    words_of_texts_that_meet_at_white_space(a, seq!['\u{c}']);
    lemma_no_words('\u{c}');
    assert(words(feed) == words(a));
    words_of_texts_that_meet_at_white_space(feed, b);
    lemma_word_starts_of_longer(a, seq!['\u{c}']);
    lemma_word_starts_of_longer(feed, b);
    assert(word_starts(seq!['\u{c}']) == Seq::<int>::empty()) by {
        lemma_no_word_starts(seq!['\u{c}']);
    }
    assert(word_starts(feed) == word_starts(a));
    let at = word_starts(b)[k];
    assert(word_starts(s)[n + k] == feed.len() + at);
    assert(s.take(feed.len() + at) == feed + b.take(at));
    form_feeds_add_up(feed, b.take(at), 'x');
    form_feeds_add_up(a, seq!['\u{c}'], '\u{c}');
    assert(b == b.take(at) + b.skip(at));
    form_feeds_add_up(b.take(at), b.skip(at), 'x');
}

/// A blank text is white space alone, and a word is a text that is not empty and has no
/// white space.
pub proof fn blank_texts_and_words(s: Seq<char>)
    ensures
        is_blank(s) <==> forall|i: int| 0 <= i < s.len() ==> is_white(#[trigger] s[i]),
        is_word(s) <==> s.len() > 0 && forall|i: int|
            0 <= i < s.len() ==> !is_white(#[trigger] s[i]),
        no_ascii_capital(s) <==> forall|i: int|
            0 <= i < s.len() ==> !('A' <= #[trigger] s[i] <= 'Z'),
{
}

} // verus!
