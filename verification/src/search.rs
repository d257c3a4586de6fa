//! What a search finds: fragments of documents, chosen by source, merged into one
//! context, and quoted in an answer.
use crate::json;
use crate::json::Json;
use crate::numbers;
use crate::numbers::push_decimal;
use crate::order;
use crate::order::{is_before, sort_and_dedup};
use crate::text;
use crate::text::{clean_excerpt, contains, join, owned, same_text, trim};
use vstd::prelude::*;

verus! {

// ---------------------------------------------------------------------------
// Scores
// ---------------------------------------------------------------------------

/// The place of a 32-bit floating-point number, given by its bits, in the order of
/// all of them: negative numbers by falling magnitude below the others by rising
/// magnitude.
pub open spec fn score_place(bits: u32) -> int {
    if bits < 0x8000_0000 {
        bits as int
    } else {
        0x7fff_ffff - bits
    }
}

/// The place of a floating-point number in the order of all of them.
pub fn score_of_bits(bits: u32) -> (r: i32)
    ensures
        r == score_place(bits),
{
    if bits < 0x8000_0000 {
        bits as i32
    } else {
        -((bits - 0x8000_0000) as i32) - 1
    }
}

/// The bits of the floating-point number at a place.
pub fn bits_of_score(score: i32) -> (r: u32)
    ensures
        score_place(r) == score,
{
    if score >= 0 {
        score as u32
    } else {
        (-(score + 1)) as u32 + 0x8000_0000
    }
}

/// Every number has a place of its own.
pub proof fn score_places_are_distinct(a: u32, b: u32)
    requires
        score_place(a) == score_place(b),
    ensures
        a == b,
{
}

/// The place of the lowest finite number.
pub const LOWEST_SCORE: i32 = -2139095040;

/// The place of infinity. What lies above it is not a number.
pub const HIGHEST_SCORE: i32 = 2139095040;

// ---------------------------------------------------------------------------
// Fragments
// ---------------------------------------------------------------------------

/// A fragment of a document: the place of its score, where it comes from, with the page
/// where the document has pages, and its text.
#[derive(Debug)]
pub struct SearchFragment {
    pub score: i32,
    pub source: String,
    pub chunk_index: usize,
    pub page_number: Option<usize>,
    pub text: String,
}

/// What a fragment holds.
pub struct Fragment {
    pub score: i32,
    pub source: Seq<char>,
    pub chunk_index: usize,
    pub page_number: Option<usize>,
    pub text: Seq<char>,
}

impl View for SearchFragment {
    type V = Fragment;

    open spec fn view(&self) -> Fragment {
        Fragment {
            score: self.score,
            source: self.source@,
            chunk_index: self.chunk_index,
            page_number: self.page_number,
            text: self.text@,
        }
    }
}

/// What the fragments of a list hold.
pub open spec fn held(list: Seq<SearchFragment>) -> Seq<Fragment> {
    Seq::new(list.len(), |i: int| list[i]@)
}

impl SearchFragment {
    /// A fragment that holds the same.
    pub fn copy(&self) -> (r: Self)
        ensures
            r@ == self@,
    {
        SearchFragment {
            score: self.score,
            source: self.source.clone(),
            chunk_index: self.chunk_index,
            page_number: self.page_number,
            text: self.text.clone(),
        }
    }
}

/// A list of fragments that hold the same.
pub fn copy_all(list: &Vec<SearchFragment>) -> (r: Vec<SearchFragment>)
    ensures
        held(r@) == held(list@),
{
    let mut out: Vec<SearchFragment> = Vec::new();
    let mut i: usize = 0;
    while i < list.len()
        invariant
            i <= list@.len(),
            held(out@) == held(list@).take(i as int),
        decreases list@.len() - i,
    {
        let ghost before = held(out@);
        out.push(list[i].copy());
        assert(held(out@) == before.push(list@[i as int]@));
        i = i + 1;
        assert(held(list@).take(i as int) == held(list@).take(i - 1).push(list@[i - 1]@));
    }
    assert(held(list@).take(i as int) == held(list@));
    out
}

// ---------------------------------------------------------------------------
// The reply of the vector store
// ---------------------------------------------------------------------------

/// The question as the embedding model takes it.
pub fn query_text(question: &str) -> (r: String)
    ensures
        r@ == "query: "@ + question@,
{
    let mut out: String = owned("query: ");
    out.push_str(question);
    out
}

/// One entry of a search reply; its score in the digits of the JSON reader, where it has
/// one.
#[derive(Debug)]
pub struct SearchHit {
    pub score: Option<String>,
    pub source: String,
    pub chunk_index: usize,
    pub page_number: Option<usize>,
    pub text: String,
}

/// The number `key` of the payload of an entry, where it has one that is a `u64`.
pub open spec fn payload_number(item: Json, key: Seq<char>) -> Option<u64> {
    match json::member_of(item.member("payload"@), key) {
        Some(Json::Number(n)) => n.unsigned,
        _ => None,
    }
}

/// The string member `key` of the payload of an entry, or `default`.
pub open spec fn payload_text(item: Json, key: Seq<char>, default: Seq<char>) -> Seq<char> {
    match json::text_of(json::member_of(item.member("payload"@), key)) {
        Some(s) => s,
        None => default,
    }
}

impl SearchHit {
    /// Whether this is what the entry `item` of a reply says, with defaults for what
    /// it does not say.
    pub open spec fn tells(self, item: Json) -> bool {
        &&& match (item.member("score"@), self.score) {
            (Some(Json::Number(n)), Some(s)) => s@ == n.written,
            (Some(Json::Number(_)), None) => false,
            (_, score) => score is None,
        }
        &&& self.source@ == payload_text(item, "source"@, "sin_fuente"@)
        &&& self.chunk_index == (match payload_number(item, "chunk_index"@) {
            Some(index) => index as usize,
            None => 0,
        })
        &&& self.page_number == (match payload_number(item, "page_number"@) {
            Some(page) => Some(page as usize),
            None => None,
        })
        &&& self.text@ == payload_text(item, "text"@, ""@)
    }

    /// The fragment of this entry, given the bits of its score.
    pub fn into_fragment(self, score_bits: u32) -> (r: SearchFragment)
        ensures
            r.score == score_place(score_bits),
            r.source == self.source,
            r.chunk_index == self.chunk_index,
            r.page_number == self.page_number,
            r.text == self.text,
    {
        SearchFragment {
            score: score_of_bits(score_bits),
            source: self.source,
            chunk_index: self.chunk_index,
            page_number: self.page_number,
            text: self.text,
        }
    }
}

/// The entries of a reply: its `result`, where that is an array.
pub open spec fn entries(reply: Json) -> Seq<Json> {
    match reply.member("result"@) {
        Some(Json::Array(a)) => a,
        _ => Seq::empty(),
    }
}

/// What one entry of a reply says.
fn read_hit(item: &serde_json::Value) -> (r: SearchHit)
    ensures
        r.tells(json::content(*item)),
{
    let payload: Option<&serde_json::Value> = json::member(Some(item), "payload");
    let source: String = match json::text(json::member(payload, "source")) {
        Some(s) => owned(s),
        None => owned("sin_fuente"),
    };
    let chunk_index: usize = match json::unsigned(json::member(payload, "chunk_index")) {
        Some(index) => index as usize,
        None => 0,
    };
    let page_number: Option<usize> = match json::unsigned(json::member(payload, "page_number")) {
        Some(page) => Some(page as usize),
        None => None,
    };
    let text: String = match json::text(json::member(payload, "text")) {
        Some(s) => owned(s),
        None => owned(""),
    };
    SearchHit {
        score: json::number(json::member(Some(item), "score")),
        source,
        chunk_index,
        page_number,
        text,
    }
}

/// What the entries of a reply say, in order.
pub fn read_hits(reply: &serde_json::Value) -> (r: Vec<SearchHit>)
    ensures
        r@.len() == entries(json::content(*reply)).len(),
        forall|i: int|
            0 <= i < r@.len() ==> (#[trigger] r@[i]).tells(entries(json::content(*reply))[i]),
{
    let mut out: Vec<SearchHit> = Vec::new();
    match json::elements(json::member(Some(reply), "result")) {
        Some(list) => {
            let ghost all = entries(json::content(*reply));
            let mut i: usize = 0;
            while i < list.len()
                invariant
                    i <= list@.len() == all.len(),
                    forall|k: int| 0 <= k < all.len() ==> json::content(#[trigger] list@[k]) == all[k],
                    out@.len() == i,
                    forall|k: int| 0 <= k < i ==> (#[trigger] out@[k]).tells(all[k]),
                decreases list@.len() - i,
            {
                out.push(read_hit(&list[i]));
                i = i + 1;
            }
        },
        None => {},
    }
    out
}

/// What the entries of a reply say, in order; none where the reply is not JSON.
pub fn search_hits(body: &[u8]) -> (r: Option<Vec<SearchHit>>)
    ensures
        match (json::parsed_json(body@), r) {
            (Some(reply), Some(hits)) => {
                &&& hits@.len() == entries(reply).len()
                &&& forall|i: int|
                    0 <= i < hits@.len() ==> (#[trigger] hits@[i]).tells(entries(reply)[i])
            },
            (Some(_), None) => false,
            (None, r) => r is None,
        },
{
    match json::parse_json(body) {
        Some(reply) => Some(read_hits(&reply)),
        None => None,
    }
}

// ---------------------------------------------------------------------------
// Choosing by source
// ---------------------------------------------------------------------------

/// The fragments whose source is one of `sources`, in order.
pub open spec fn from_sources(list: Seq<Fragment>, sources: Seq<Seq<char>>) -> Seq<Fragment>
    decreases list.len(),
{
    if list.len() == 0 {
        Seq::empty()
    } else if sources.contains(list.last().source) {
        from_sources(list.drop_last(), sources).push(list.last())
    } else {
        from_sources(list.drop_last(), sources)
    }
}

/// The fragments that the user asked for: all, where no sources were chosen.
pub open spec fn chosen(list: Seq<Fragment>, selected: Option<Vec<String>>) -> Seq<Fragment> {
    match selected {
        Some(sources) => from_sources(list, text::views(sources@)),
        None => list,
    }
}

/// The fragments whose source was chosen; all, where no choice was made.
pub fn filter_fragments_by_sources(
    fragments: &Vec<SearchFragment>,
    selected_sources: &Option<Vec<String>>,
) -> (r: Vec<SearchFragment>)
    ensures
        held(r@) == chosen(held(fragments@), *selected_sources),
{
    let sources: &Vec<String> = match selected_sources {
        Some(sources) => sources,
        None => {
            return copy_all(fragments);
        },
    };
    let ghost all = held(fragments@);
    let ghost names = text::views(sources@);
    let mut out: Vec<SearchFragment> = Vec::new();
    let mut i: usize = 0;
    assert(held(out@) == from_sources(all.take(0), names));
    while i < fragments.len()
        invariant
            i <= fragments@.len(),
            all == held(fragments@),
            names == text::views(sources@),
            held(out@) == from_sources(all.take(i as int), names),
        decreases fragments@.len() - i,
    {
        let ghost before = held(out@);
        if contains(sources, fragments[i].source.as_str()) {
            out.push(fragments[i].copy());
            assert(held(out@) == before.push(all[i as int]));
        }
        i = i + 1;
        assert(all.take(i as int).drop_last() == all.take(i - 1));
    }
    assert(all.take(i as int) == all);
    out
}

/// A fragment is among the chosen if and only if it was found and its source was
/// chosen.
pub proof fn only_chosen_sources(list: Seq<Fragment>, sources: Seq<Seq<char>>, f: Fragment)
    ensures
        from_sources(list, sources).contains(f) <==> list.contains(f) && sources.contains(
            f.source,
        ),
    decreases list.len(),
{
    if list.len() > 0 {
        let init = list.drop_last();
        only_chosen_sources(init, sources, f);
        let r = from_sources(init, sources);
        assert(list[list.len() - 1] == list.last());
        if list.contains(f) && f != list.last() {
            let k = choose|k: int| 0 <= k < list.len() && list[k] == f;
            assert(init[k] == f);
        }
        if init.contains(f) {
            let k = choose|k: int| 0 <= k < init.len() && init[k] == f;
            assert(list[k] == f);
        }
        let s = r.push(list.last());
        assert(s[s.len() - 1] == list.last());
        if r.contains(f) {
            let k = choose|k: int| 0 <= k < r.len() && r[k] == f;
            assert(s[k] == f);
        }
        if s.contains(f) && f != list.last() {
            let k = choose|k: int| 0 <= k < s.len() && s[k] == f;
            assert(r[k] == f);
        }
    }
}

// ---------------------------------------------------------------------------
// Order of fragments
// ---------------------------------------------------------------------------

/// Whether `a` comes before `b`: by source, and within a source by index.
pub open spec fn comes_before(a: Fragment, b: Fragment) -> bool {
    order::before(a.source, b.source) || (a.source == b.source && a.chunk_index < b.chunk_index)
}

/// A sorted list with `f` put behind all that it does not come before.
pub open spec fn with_fragment(list: Seq<Fragment>, f: Fragment) -> Seq<Fragment>
    decreases list.len(),
{
    if list.len() > 0 && comes_before(f, list.last()) {
        with_fragment(list.drop_last(), f).push(list.last())
    } else {
        list.push(f)
    }
}

/// The fragments in the order of their documents; those of equal place keep the
/// order in which they were found.
pub open spec fn in_document_order(list: Seq<Fragment>) -> Seq<Fragment>
    decreases list.len(),
{
    if list.len() == 0 {
        Seq::empty()
    } else {
        with_fragment(in_document_order(list.drop_last()), list.last())
    }
}

/// Whether no fragment comes before one that stands ahead of it.
pub open spec fn is_in_order(list: Seq<Fragment>) -> bool {
    forall|i: int, j: int|
        0 <= i < j < list.len() ==> !comes_before(#[trigger] list[j], #[trigger] list[i])
}

/// What does not come before something that does not come before a third does not
/// come before the third.
proof fn lemma_not_before_transitive(a: Fragment, b: Fragment, c: Fragment)
    requires
        !comes_before(b, a),
        !comes_before(c, b),
    ensures
        !comes_before(c, a),
{
    order::before_is_total(a.source, b.source);
    order::before_is_total(b.source, c.source);
    if comes_before(c, a) {
        if order::before(c.source, a.source) {
            if order::before(a.source, b.source) {
                order::before_is_transitive(c.source, a.source, b.source);
            }
        } else {
            if order::before(a.source, b.source) {
                order::before_is_asymmetric(a.source, b.source);
            }
        }
    }
}

proof fn lemma_with_fragment_members(list: Seq<Fragment>, f: Fragment)
    ensures
        forall|i: int|
            0 <= i < with_fragment(list, f).len() ==> (#[trigger] with_fragment(list, f)[i] == f
                || list.contains(with_fragment(list, f)[i])),
    decreases list.len(),
{
    let r = with_fragment(list, f);
    if list.len() > 0 && comes_before(f, list.last()) {
        let init = list.drop_last();
        let inner = with_fragment(init, f);
        lemma_with_fragment_members(init, f);
        assert forall|i: int| 0 <= i < r.len() implies (#[trigger] r[i] == f || list.contains(
            r[i],
        )) by {
            if i < inner.len() {
                assert(r[i] == inner[i]);
                if r[i] != f {
                    let k = choose|k: int| 0 <= k < init.len() && init[k] == inner[i];
                    assert(list[k] == r[i]);
                }
            } else {
                assert(list[list.len() - 1] == r[i]);
            }
        }
    } else {
        assert forall|i: int| 0 <= i < r.len() implies (#[trigger] r[i] == f || list.contains(
            r[i],
        )) by {
            if i < list.len() {
                assert(list[i] == r[i]);
            }
        }
    }
}

proof fn lemma_with_fragment(list: Seq<Fragment>, f: Fragment)
    requires
        is_in_order(list),
    ensures
        is_in_order(with_fragment(list, f)),
        with_fragment(list, f).to_multiset() == list.to_multiset().insert(f),
    decreases list.len(),
{
    broadcast use vstd::seq_lib::group_to_multiset_ensures;

    let r = with_fragment(list, f);
    if list.len() > 0 && comes_before(f, list.last()) {
        let init = list.drop_last();
        lemma_with_fragment(init, f);
        lemma_with_fragment_members(init, f);
        let inner = with_fragment(init, f);
        assert(list == init.push(list.last()));
        assert(r.to_multiset() =~= list.to_multiset().insert(f));
        assert forall|i: int, j: int| 0 <= i < j < r.len() implies !comes_before(
            #[trigger] r[j],
            #[trigger] r[i],
        ) by {
            if j < inner.len() {
                assert(!comes_before(inner[j], inner[i]));
            } else {
                let last = list.last();
                assert(r[j] == last);
                assert(r[i] == inner[i]);
                if r[i] == f {
                    order::before_is_total(f.source, last.source);
                    if order::before(f.source, last.source) {
                        order::before_is_asymmetric(f.source, last.source);
                        order::before_is_irreflexive(f.source);
                    } else {
                        order::before_is_irreflexive(f.source);
                    }
                } else {
                    assert(init.contains(inner[i]));
                    let k = choose|k: int| 0 <= k < init.len() && init[k] == inner[i];
                    assert(!comes_before(list[list.len() - 1], list[k]));
                }
            }
        }
    } else {
        assert forall|i: int, j: int| 0 <= i < j < r.len() implies !comes_before(
            #[trigger] r[j],
            #[trigger] r[i],
        ) by {
            if j == list.len() && i < list.len() - 1 {
                assert(!comes_before(list[list.len() - 1], list[i]));
                lemma_not_before_transitive(list[i], list.last(), f);
            }
        }
    }
}

/// Putting fragments in document order orders them and neither adds nor drops one.
pub proof fn document_order_sorts(list: Seq<Fragment>)
    ensures
        is_in_order(in_document_order(list)),
        in_document_order(list).to_multiset() == list.to_multiset(),
        in_document_order(list).len() == list.len(),
    decreases list.len(),
{
    broadcast use vstd::seq_lib::group_to_multiset_ensures;

    if list.len() > 0 {
        let init = list.drop_last();
        document_order_sorts(init);
        lemma_with_fragment(in_document_order(init), list.last());
        assert(list == init.push(list.last()));
        assert(in_document_order(list).to_multiset().len() == list.to_multiset().len());
    } else {
        assert(list == Seq::<Fragment>::empty());
    }
}

/// Whether `a` comes before `b`.
fn is_earlier(a: &SearchFragment, b: &SearchFragment) -> (r: bool)
    ensures
        r == comes_before(a@, b@),
{
    is_before(a.source.as_str(), b.source.as_str()) || (same_text(
        a.source.as_str(),
        b.source.as_str(),
    ) && a.chunk_index < b.chunk_index)
}

/// Puts `f` behind all that it does not come before.
fn add_fragment(list: &mut Vec<SearchFragment>, f: SearchFragment)
    ensures
        held(final(list)@) == with_fragment(held(old(list)@), f@),
{
    let ghost all = held(list@);
    let mut i: usize = list.len();
    assert(all.take(i as int) == all);
    assert(with_fragment(all, f@) + all.skip(i as int) == with_fragment(all, f@));
    while i > 0 && is_earlier(&f, &list[i - 1])
        invariant
            i <= list@.len(),
            *list == *old(list),
            all == held(list@),
            with_fragment(all.take(i as int), f@) + all.skip(i as int) == with_fragment(all, f@),
        decreases i,
    {
        proof {
            let head = all.take(i as int);
            assert(head.last() == list@[i - 1]@);
            assert(head.drop_last() == all.take(i - 1));
            let shorter = with_fragment(all.take(i - 1), f@);
            assert(shorter + all.skip(i - 1) == shorter.push(head.last()) + all.skip(i as int));
        }
        i = i - 1;
    }
    list.insert(i, f);
    proof {
        let head = all.take(i as int);
        if i > 0 {
            assert(head.last() == old(list)@[i - 1]@);
        }
        assert(with_fragment(head, f@) == head.push(f@));
        assert(held(list@) == head.push(f@) + all.skip(i as int));
    }
}

/// The fragments in the order of their documents.
pub fn sort_fragments(fragments: &Vec<SearchFragment>) -> (r: Vec<SearchFragment>)
    ensures
        held(r@) == in_document_order(held(fragments@)),
{
    let ghost all = held(fragments@);
    let mut out: Vec<SearchFragment> = Vec::new();
    let mut i: usize = 0;
    assert(held(out@) == in_document_order(all.take(0)));
    while i < fragments.len()
        invariant
            i <= fragments@.len(),
            all == held(fragments@),
            held(out@) == in_document_order(all.take(i as int)),
        decreases fragments@.len() - i,
    {
        add_fragment(&mut out, fragments[i].copy());
        i = i + 1;
        assert(all.take(i as int).drop_last() == all.take(i - 1));
    }
    assert(all.take(i as int) == all);
    out
}

/// The fragments of one place, in order.
pub open spec fn at_place(list: Seq<Fragment>, source: Seq<char>, index: usize) -> Seq<Fragment>
    decreases list.len(),
{
    if list.len() == 0 {
        Seq::empty()
    } else if list.last().source == source && list.last().chunk_index == index {
        at_place(list.drop_last(), source, index).push(list.last())
    } else {
        at_place(list.drop_last(), source, index)
    }
}

proof fn lemma_at_place_push(list: Seq<Fragment>, f: Fragment, source: Seq<char>, index: usize)
    ensures
        at_place(list.push(f), source, index) == if f.source == source && f.chunk_index == index {
            at_place(list, source, index).push(f)
        } else {
            at_place(list, source, index)
        },
{
    assert(list.push(f).drop_last() == list);
}

proof fn lemma_with_fragment_keeps_places(
    list: Seq<Fragment>,
    f: Fragment,
    source: Seq<char>,
    index: usize,
)
    ensures
        at_place(with_fragment(list, f), source, index) == at_place(list.push(f), source, index),
    decreases list.len(),
{
    if list.len() > 0 && comes_before(f, list.last()) {
        let init = list.drop_last();
        lemma_with_fragment_keeps_places(init, f, source, index);
        order::before_is_irreflexive(f.source);
        assert(list == init.push(list.last()));
        lemma_at_place_push(with_fragment(init, f), list.last(), source, index);
        lemma_at_place_push(init, f, source, index);
        lemma_at_place_push(init, list.last(), source, index);
        lemma_at_place_push(list, f, source, index);
    }
}

/// Document order keeps fragments of the same place in the order in which they were
/// found.
pub proof fn document_order_is_stable(list: Seq<Fragment>, source: Seq<char>, index: usize)
    ensures
        at_place(in_document_order(list), source, index) == at_place(list, source, index),
    decreases list.len(),
{
    if list.len() > 0 {
        let init = list.drop_last();
        document_order_is_stable(init, source, index);
        let o = in_document_order(init);
        lemma_with_fragment_keeps_places(o, list.last(), source, index);
        assert(o.push(list.last()).drop_last() == o);
    }
}

/// Whether no two of the fragments have the same place.
pub open spec fn distinct_places(list: Seq<Fragment>) -> bool {
    forall|i: int, j: int|
        0 <= i < j < list.len() ==> (#[trigger] list[i]).source != (#[trigger] list[j]).source
            || list[i].chunk_index != list[j].chunk_index
}

/// Whether each fragment comes before all that follow it.
spec fn strictly_in_order(list: Seq<Fragment>) -> bool {
    forall|i: int, j: int|
        0 <= i < j < list.len() ==> comes_before(#[trigger] list[i], #[trigger] list[j])
}

proof fn lemma_distinct_permutation(a: Seq<Fragment>, b: Seq<Fragment>)
    requires
        distinct_places(a),
        a.to_multiset() == b.to_multiset(),
    ensures
        distinct_places(b),
{
    broadcast use vstd::seq_lib::group_to_multiset_ensures;

    assert(a.no_duplicates());
    a.lemma_multiset_has_no_duplicates();
    assert forall|x: Fragment| b.to_multiset().contains(x) implies b.to_multiset().count(x) == 1 by {}
    b.lemma_multiset_has_no_duplicates_conv();
    assert forall|i: int, j: int| 0 <= i < j < b.len() implies (#[trigger] b[i]).source != (
    #[trigger] b[j]).source || b[i].chunk_index != b[j].chunk_index by {
        assert(b.contains(b[i]) && b.contains(b[j]));
        assert(b.to_multiset().count(b[i]) > 0 && b.to_multiset().count(b[j]) > 0);
        assert(a.contains(b[i]) && a.contains(b[j]));
        let k = choose|k: int| 0 <= k < a.len() && a[k] == b[i];
        let m = choose|m: int| 0 <= m < a.len() && a[m] == b[j];
        assert(b[i] != b[j]);
        if k < m {
            assert(a[k].source != a[m].source || a[k].chunk_index != a[m].chunk_index);
        } else {
            assert(a[m].source != a[k].source || a[m].chunk_index != a[k].chunk_index);
        }
    }
}

proof fn lemma_strictly_in_order(list: Seq<Fragment>)
    requires
        is_in_order(list),
        distinct_places(list),
    ensures
        strictly_in_order(list),
{
    assert forall|i: int, j: int| 0 <= i < j < list.len() implies comes_before(
        #[trigger] list[i],
        #[trigger] list[j],
    ) by {
        assert(!comes_before(list[j], list[i]));
        order::before_is_total(list[i].source, list[j].source);
    }
}

proof fn lemma_same_order(a: Seq<Fragment>, b: Seq<Fragment>)
    requires
        strictly_in_order(a),
        strictly_in_order(b),
        a.to_multiset() == b.to_multiset(),
    ensures
        a == b,
    decreases a.len(),
{
    broadcast use vstd::seq_lib::group_to_multiset_ensures;

    assert(a.len() == a.to_multiset().len());
    assert(b.len() == b.to_multiset().len());
    if a.len() > 0 {
        let x = a.last();
        let y = b.last();
        let n = a.len() - 1;
        assert(a[n] == x && b[n] == y);
        assert(a.contains(a[n]) && b.contains(b[n]));
        assert(b.to_multiset().count(x) > 0 && a.to_multiset().count(y) > 0);
        assert(b.contains(x) && a.contains(y));
        if x != y {
            let k = choose|k: int| 0 <= k < b.len() && b[k] == x;
            let m = choose|m: int| 0 <= m < a.len() && a[m] == y;
            assert(comes_before(b[k], b[n]));
            assert(comes_before(a[m], a[n]));
            if order::before(x.source, y.source) {
                order::before_is_asymmetric(x.source, y.source);
                order::before_is_irreflexive(x.source);
            } else {
                order::before_is_irreflexive(x.source);
            }
        }
        let init = a.drop_last();
        let other = b.drop_last();
        assert(a == init.push(x));
        assert(b == other.push(x));
        assert(init.to_multiset() =~= a.to_multiset().remove(x));
        assert(other.to_multiset() =~= b.to_multiset().remove(x));
        assert forall|i: int, j: int| 0 <= i < j < init.len() implies comes_before(
            #[trigger] init[i],
            #[trigger] init[j],
        ) by {
            assert(comes_before(a[i], a[j]));
        }
        assert forall|i: int, j: int| 0 <= i < j < other.len() implies comes_before(
            #[trigger] other[i],
            #[trigger] other[j],
        ) by {
            assert(comes_before(b[i], b[j]));
        }
        lemma_same_order(init, other);
    } else {
        assert(a =~= b);
    }
}

// ---------------------------------------------------------------------------
// One context
// ---------------------------------------------------------------------------

/// A fragment under a line that says where it comes from, counting from one.
pub open spec fn block(f: Fragment) -> Seq<char> {
    "[Fuente: "@ + f.source + " | fragmento "@ + numbers::decimal((f.chunk_index + 1) as nat)
        + "]\n"@ + text::trimmed(f.text)
}

/// The blocks of the fragments, with an empty line between neighbours.
pub open spec fn blocks(list: Seq<Fragment>) -> Seq<char>
    decreases list.len(),
{
    if list.len() == 0 {
        Seq::empty()
    } else if list.len() == 1 {
        block(list[0])
    } else {
        blocks(list.drop_last()) + "\n\n"@ + block(list.last())
    }
}

/// The sources of the fragments, each once, in the order in which they first occur.
pub open spec fn sources_once(list: Seq<Fragment>) -> Seq<Seq<char>>
    decreases list.len(),
{
    if list.len() == 0 {
        Seq::empty()
    } else {
        let rest = sources_once(list.drop_last());
        if rest.contains(list.last().source) {
            rest
        } else {
            rest.push(list.last().source)
        }
    }
}

/// The sources of the merged context are those of the fragments, and none is listed
/// twice.
pub proof fn sources_are_listed_once(list: Seq<Fragment>)
    ensures
        sources_once(list).no_duplicates(),
        forall|s: Seq<char>| #[trigger]
            sources_once(list).contains(s) <==> exists|i: int|
                0 <= i < list.len() && (#[trigger] list[i]).source == s,
    decreases list.len(),
{
    if list.len() > 0 {
        let init = list.drop_last();
        sources_are_listed_once(init);
        let rest = sources_once(init);
        let all = sources_once(list);
        let last = list.last().source;
        assert(list[list.len() - 1].source == last);
        assert forall|s: Seq<char>| #[trigger] all.contains(s) <==> exists|i: int|
            0 <= i < list.len() && (#[trigger] list[i]).source == s by {
            if all.contains(s) && s != last {
                let k = choose|k: int| 0 <= k < all.len() && all[k] == s;
                assert(rest[k] == s);
                assert(rest.contains(s));
                let i = choose|i: int| 0 <= i < init.len() && (#[trigger] init[i]).source == s;
                assert(list[i] == init[i]);
            }
            if exists|i: int| 0 <= i < list.len() && (#[trigger] list[i]).source == s {
                let i = choose|i: int| 0 <= i < list.len() && (#[trigger] list[i]).source == s;
                if i < init.len() {
                    assert(init[i] == list[i]);
                    assert(rest.contains(s));
                    let k = choose|k: int| 0 <= k < rest.len() && rest[k] == s;
                    assert(all[k] == s);
                } else if !rest.contains(last) {
                    assert(all[all.len() - 1] == s);
                }
            }
        }
    }
}

/// The highest score of the fragments, and at least the lowest finite one; what is not
/// a number is passed over.
pub open spec fn best_score(list: Seq<Fragment>) -> i32
    decreases list.len(),
{
    if list.len() == 0 {
        LOWEST_SCORE
    } else if best_score(list.drop_last()) < list.last().score <= HIGHEST_SCORE {
        list.last().score
    } else {
        best_score(list.drop_last())
    }
}

/// The context that the fragments make: two or more become a single one, in document
/// order.
pub open spec fn merged(list: Seq<Fragment>) -> Seq<Fragment> {
    if list.len() <= 1 {
        list
    } else {
        let ordered = in_document_order(list);
        seq![
            Fragment {
                score: best_score(ordered),
                source: text::joined(sources_once(ordered), " + "@),
                chunk_index: 0,
                page_number: None,
                text: blocks(ordered),
            },
        ]
    }
}

/// Whether the place of every fragment can be counted from one.
pub open spec fn countable(list: Seq<Fragment>) -> bool {
    forall|i: int| 0 <= i < list.len() ==> (#[trigger] list[i]).chunk_index < usize::MAX
}

/// Whether the place of every fragment can be counted from one.
pub fn is_countable(fragments: &Vec<SearchFragment>) -> (r: bool)
    ensures
        r == countable(held(fragments@)),
{
    let mut i: usize = 0;
    while i < fragments.len()
        invariant
            i <= fragments@.len(),
            forall|k: int| 0 <= k < i ==> (#[trigger] held(fragments@)[k]).chunk_index < usize::MAX,
        decreases fragments@.len() - i,
    {
        if fragments[i].chunk_index == usize::MAX {
            assert(held(fragments@)[i as int].chunk_index == usize::MAX);
            return false;
        }
        i = i + 1;
    }
    true
}

proof fn lemma_order_members(list: Seq<Fragment>)
    ensures
        forall|i: int|
            0 <= i < in_document_order(list).len() ==> list.contains(
                #[trigger] in_document_order(list)[i],
            ),
    decreases list.len(),
{
    if list.len() > 0 {
        let init = list.drop_last();
        let o = in_document_order(init);
        lemma_order_members(init);
        lemma_with_fragment_members(o, list.last());
        let r = in_document_order(list);
        assert forall|i: int| 0 <= i < r.len() implies list.contains(#[trigger] r[i]) by {
            if r[i] == list.last() {
                assert(list[list.len() - 1] == r[i]);
            } else {
                let k = choose|k: int| 0 <= k < o.len() && o[k] == r[i];
                assert(init.contains(o[k]));
                let m = choose|m: int| 0 <= m < init.len() && init[m] == o[k];
                assert(list[m] == r[i]);
            }
        }
    }
}

/// Appends the block of a fragment.
fn push_block(out: &mut String, f: &SearchFragment)
    requires
        f.chunk_index < usize::MAX,
    ensures
        final(out)@ == old(out)@ + block(f@),
{
    out.push_str("[Fuente: ");
    out.push_str(f.source.as_str());
    out.push_str(" | fragmento ");
    push_decimal(out, (f.chunk_index + 1) as u64);
    out.push_str("]\n");
    let inner: String = trim(f.text.as_str());
    out.push_str(inner.as_str());
    assert(out@ == old(out)@ + block(f@));
}

/// The context that the fragments make: two or more become a single one.
pub fn merge_fragments_as_single_context(fragments: &Vec<SearchFragment>) -> (r: Vec<
    SearchFragment,
>)
    requires
        fragments@.len() > 1 ==> countable(held(fragments@)),
    ensures
        held(r@) == merged(held(fragments@)),
{
    if fragments.len() <= 1 {
        return copy_all(fragments);
    }
    let ordered: Vec<SearchFragment> = sort_fragments(fragments);
    let ghost all = held(ordered@);
    proof {
        lemma_order_members(held(fragments@));
        assert forall|i: int| 0 <= i < all.len() implies (#[trigger] all[i]).chunk_index
            < usize::MAX by {
            let given = held(fragments@);
            assert(given.contains(all[i]));
            let k = choose|k: int| 0 <= k < given.len() && given[k] == all[i];
            assert(given[k].chunk_index < usize::MAX);
        }
    }
    let mut sources: Vec<String> = Vec::new();
    let mut merged_text: String = String::new();
    let mut best: i32 = LOWEST_SCORE;
    let mut i: usize = 0;
    proof {
        assert(all.take(0) == Seq::<Fragment>::empty());
        assert(text::views(sources@) == Seq::<Seq<char>>::empty());
    }
    while i < ordered.len()
        invariant
            i <= ordered@.len(),
            all == held(ordered@),
            countable(all),
            text::views(sources@) == sources_once(all.take(i as int)),
            merged_text@ == blocks(all.take(i as int)),
            best == best_score(all.take(i as int)),
        decreases ordered@.len() - i,
    {
        let f: &SearchFragment = &ordered[i];
        let ghost before = text::views(sources@);
        let ghost head = all.take(i as int);
        let ghost next = all.take(i + 1);
        proof {
            assert(next.drop_last() == head);
            assert(next.last() == f@);
            assert(all[i as int] == f@);
        }
        if !contains(&sources, f.source.as_str()) {
            sources.push(f.source.clone());
            assert(text::views(sources@) == before.push(f.source@));
        }
        let ghost text_before = merged_text@;
        if i > 0 {
            merged_text.push_str("\n\n");
        }
        push_block(&mut merged_text, f);
        proof {
            if i == 0 {
                assert(text_before == Seq::<char>::empty());
                assert(text_before + block(f@) == block(f@));
                assert(next[0] == f@);
            }
        }
        if f.score > best && f.score <= HIGHEST_SCORE {
            best = f.score;
        }
        i = i + 1;
    }
    assert(all.take(i as int) == all);
    let source: String = join(&sources, " + ");
    let mut out: Vec<SearchFragment> = Vec::new();
    out.push(
        SearchFragment { score: best, source, chunk_index: 0, page_number: None, text: merged_text },
    );
    assert(held(out@) == merged(held(fragments@)));
    out
}

/// Whether `s` contains `part`.
pub open spec fn has_part(s: Seq<char>, part: Seq<char>) -> bool {
    exists|a: int| 0 <= a <= a + part.len() <= s.len() && #[trigger] s.subrange(a, a + part.len())
        == part
}

/// The text of the merged context has the block of every fragment in it.
pub proof fn blocks_keep_every_fragment(list: Seq<Fragment>, i: int)
    requires
        0 <= i < list.len(),
    ensures
        has_part(blocks(list), block(list[i])),
    decreases list.len(),
{
    let s = blocks(list);
    let b = block(list[i]);
    if i == list.len() - 1 {
        let a = s.len() - b.len();
        assert(s.subrange(a, a + b.len()) == b);
    } else {
        let init = list.drop_last();
        blocks_keep_every_fragment(init, i);
        let t = blocks(init);
        let a = choose|a: int|
            0 <= a <= a + b.len() <= t.len() && #[trigger] t.subrange(a, a + b.len()) == b;
        assert(s.subrange(a, a + b.len()) == t.subrange(a, a + b.len()));
    }
}

/// The context does not depend on the order in which the fragments were found, where no
/// two of them have the same place.
pub proof fn order_of_finding_does_not_matter(a: Seq<Fragment>, b: Seq<Fragment>)
    requires
        a.to_multiset() == b.to_multiset(),
        distinct_places(a),
    ensures
        in_document_order(a) == in_document_order(b),
        merged(a) == merged(b),
{
    broadcast use vstd::seq_lib::group_to_multiset_ensures;

    let x = in_document_order(a);
    let y = in_document_order(b);
    document_order_sorts(a);
    document_order_sorts(b);
    lemma_distinct_permutation(a, x);
    lemma_distinct_permutation(a, y);
    lemma_strictly_in_order(x);
    lemma_strictly_in_order(y);
    lemma_same_order(x, y);
    assert(a.len() == a.to_multiset().len());
    assert(b.len() == b.to_multiset().len());
    if a.len() == 1 {
        assert(a.contains(a[0]));
        assert(b.to_multiset().count(a[0]) > 0);
        assert(b.contains(a[0]));
        assert(a =~= b);
    } else if a.len() == 0 {
        assert(a =~= b);
    }
}

/// Merging gives at most one fragment, and it holds the text of every fragment that
/// was merged, under the line that says where it comes from.
pub proof fn merging_keeps_every_fragment(list: Seq<Fragment>, f: Fragment)
    requires
        list.len() > 1,
        list.contains(f),
    ensures
        merged(list).len() == 1,
        has_part(merged(list)[0].text, block(f)),
{
    broadcast use vstd::seq_lib::group_to_multiset_ensures;

    document_order_sorts(list);
    let ordered = in_document_order(list);
    assert(list.to_multiset().count(f) > 0);
    assert(ordered.to_multiset().count(f) > 0);
    assert(ordered.contains(f));
    let i = choose|i: int| 0 <= i < ordered.len() && ordered[i] == f;
    blocks_keep_every_fragment(ordered, i);
}

/// The score of the merged context is the best of the scores that are numbers, and
/// at least that of the lowest finite number.
pub proof fn best_score_is_the_best(list: Seq<Fragment>)
    ensures
        forall|i: int|
            0 <= i < list.len() ==> (#[trigger] list[i]).score <= best_score(list)
                || list[i].score > HIGHEST_SCORE,
        LOWEST_SCORE <= best_score(list) <= HIGHEST_SCORE,
        best_score(list) == LOWEST_SCORE || exists|i: int|
            0 <= i < list.len() && (#[trigger] list[i]).score == best_score(list),
    decreases list.len(),
{
    if list.len() > 0 {
        let init = list.drop_last();
        best_score_is_the_best(init);
        assert forall|i: int| 0 <= i < list.len() implies (#[trigger] list[i]).score <= best_score(
            list,
        ) || list[i].score > HIGHEST_SCORE by {
            if i < init.len() {
                assert(init[i] == list[i]);
            }
        }
        if best_score(list) != LOWEST_SCORE {
            if best_score(init) < list.last().score <= HIGHEST_SCORE {
                assert(list[list.len() - 1].score == best_score(list));
            } else {
                let i = choose|i: int|
                    0 <= i < init.len() && (#[trigger] init[i]).score == best_score(init);
                assert(list[i] == init[i]);
            }
        }
    }
}

// ---------------------------------------------------------------------------
// The answer without a language model
// ---------------------------------------------------------------------------

/// What is answered where nothing was found.
pub const NOTHING_FOUND: &'static str = "No se encontró información suficiente en los documentos cargados para responder con fundamento. Puede subir más documentos o ejecutar la reindexación desde la administración.";

/// One line for each of the fragments: an excerpt of its text.
pub open spec fn excerpt_lines(list: Seq<Fragment>) -> Seq<char>
    decreases list.len(),
{
    if list.len() == 0 {
        Seq::empty()
    } else {
        excerpt_lines(list.drop_last()) + "- "@ + text::excerpt(list.last().text, 180) + "\n"@
    }
}

/// The sources of the fragments.
pub open spec fn sources_of(list: Seq<Fragment>) -> Seq<Seq<char>> {
    Seq::new(list.len(), |i: int| list[i].source)
}

/// The first two of the fragments.
pub open spec fn first_two(list: Seq<Fragment>) -> Seq<Fragment> {
    if list.len() <= 2 {
        list
    } else {
        list.take(2)
    }
}

/// The answer that is given without a language model: the question, excerpts of the
/// first two fragments, and the sources of all, in order and each once.
pub open spec fn local_response(question: Seq<char>, list: Seq<Fragment>) -> Seq<char> {
    if list.len() == 0 {
        NOTHING_FOUND@
    } else {
        "## Respuesta\nSe encontró información relacionada con la consulta en las fuentes recuperadas.\n\n## Consulta\n"@
            + question + "\n\n## Sustento\n"@ + excerpt_lines(first_two(list))
            + "\n**Fuente consultada:** "@ + text::joined(
            order::sorted_entries(sources_of(list)),
            ", "@,
        )
    }
}

/// The answer that is given without a language model.
pub fn build_local_response(question: &str, fragments: &Vec<SearchFragment>) -> (r: String)
    ensures
        r@ == local_response(question@, held(fragments@)),
{
    let n: usize = fragments.len();
    if n == 0 {
        return owned(NOTHING_FOUND);
    }
    let ghost all = held(fragments@);
    let mut response: String = owned(
        "## Respuesta\nSe encontró información relacionada con la consulta en las fuentes recuperadas.\n\n## Consulta\n",
    );
    response.push_str(question);
    response.push_str("\n\n## Sustento\n");
    let ghost head = response@;
    let quoted: usize = if n <= 2 {
        n
    } else {
        2
    };
    let mut i: usize = 0;
    assert(head + excerpt_lines(all.take(0)) == head);
    while i < quoted
        invariant
            i <= quoted <= fragments@.len(),
            all == held(fragments@),
            response@ == head + excerpt_lines(all.take(i as int)),
        decreases quoted - i,
    {
        let line: String = clean_excerpt(fragments[i].text.as_str(), 180);
        let ghost before = excerpt_lines(all.take(i as int));
        response.push_str("- ");
        response.push_str(line.as_str());
        response.push_str("\n");
        i = i + 1;
        proof {
            assert(all.take(i as int).drop_last() == all.take(i - 1));
            assert(all.take(i as int).last() == fragments@[i - 1]@);
            assert(response@ == head + (before + "- "@ + line@ + "\n"@));
        }
    }
    assert(all.take(quoted as int) == first_two(all));
    let mut sources: Vec<String> = Vec::new();
    let mut j: usize = 0;
    while j < n
        invariant
            j <= n == fragments@.len(),
            all == held(fragments@),
            text::views(sources@) == sources_of(all).take(j as int),
        decreases n - j,
    {
        let ghost before = text::views(sources@);
        sources.push(fragments[j].source.clone());
        assert(text::views(sources@) == before.push(all[j as int].source));
        j = j + 1;
        assert(sources_of(all).take(j as int) == sources_of(all).take(j - 1).push(
            all[j - 1].source,
        ));
    }
    assert(sources_of(all).take(n as int) == sources_of(all));
    let listed: Vec<String> = sort_and_dedup(&sources);
    let line: String = join(&listed, ", ");
    response.push_str("\n**Fuente consultada:** ");
    response.push_str(line.as_str());
    response
}

// ---------------------------------------------------------------------------
// What a context and an answer have of the fragments
// ---------------------------------------------------------------------------

/// A list of fragments holds what each of them holds, one by one.
pub proof fn fragments_are_held_one_by_one(list: Seq<SearchFragment>)
    ensures
        held(list).len() == list.len(),
        forall|i: int|
            0 <= i < list.len() ==> (#[trigger] held(list)[i]).score == list[i].score && held(
                list,
            )[i].source == list[i].source@ && held(list)[i].chunk_index == list[i].chunk_index
                && held(list)[i].page_number == list[i].page_number && held(list)[i].text
                == list[i].text@,
{
}

/// Scores are in the order of the numbers: of two that are not negative the one with the
/// greater bits is the higher, of two negative ones the lower, and a negative one is below
/// one that is not.
pub proof fn score_places_are_in_order(a: u32, b: u32)
    ensures
        a < 0x8000_0000 && b < 0x8000_0000 ==> (a < b <==> score_place(a) < score_place(b)),
        a >= 0x8000_0000 && b >= 0x8000_0000 ==> (a < b <==> score_place(b) < score_place(a)),
        a >= 0x8000_0000 && b < 0x8000_0000 ==> score_place(a) < score_place(b),
        score_place(0) == 0,
        score_place(0x8000_0000) == -1,
        i32::MIN <= score_place(a) <= i32::MAX,
{
}

/// A hit has the source, the text, the index, the page and the score that the entry of the
/// reply gives, unchanged; what the entry does not give has its default.
pub proof fn hits_say_what_the_entry_says(hit: SearchHit, item: Json, payload: Json)
    requires
        hit.tells(item),
        item.member("payload"@) == Some(payload),
    ensures
        payload.member("source"@) matches Some(Json::Text(s)) ==> hit.source@ == s,
        !(payload.member("source"@) matches Some(Json::Text(_))) ==> hit.source@ == "sin_fuente"@,
        payload.member("text"@) matches Some(Json::Text(s)) ==> hit.text@ == s,
        !(payload.member("text"@) matches Some(Json::Text(_))) ==> hit.text@ == ""@,
        payload.member("chunk_index"@) matches Some(Json::Number(n)) ==> (match n.unsigned {
            Some(index) => hit.chunk_index == index as usize,
            None => hit.chunk_index == 0,
        }),
        !(payload.member("chunk_index"@) matches Some(Json::Number(_))) ==> hit.chunk_index == 0,
        payload.member("page_number"@) matches Some(Json::Number(n)) ==> (match n.unsigned {
            Some(page) => hit.page_number == Some(page as usize),
            None => hit.page_number is None,
        }),
        !(payload.member("page_number"@) matches Some(Json::Number(_)))
            ==> hit.page_number is None,
        item.member("score"@) matches Some(Json::Number(n)) ==> hit.score is Some && hit.score->0@
            == n.written,
        !(item.member("score"@) matches Some(Json::Number(_))) ==> hit.score is None,
{
}

/// The entries of a reply are the elements of its `result`, all of them and in order.
pub proof fn entries_are_the_result(reply: Json)
    ensures
        reply.member("result"@) matches Some(Json::Array(a)) ==> entries(reply) == a,
        !(reply.member("result"@) matches Some(Json::Array(_))) ==> entries(reply).len() == 0,
{
}

/// Fragments are chosen one by one, by their source alone, and keep their order; where no
/// sources were named, all of them are chosen.
pub proof fn fragments_are_chosen_one_by_one(
    list: Seq<Fragment>,
    f: Fragment,
    sources: Vec<String>,
)
    ensures
        chosen(list, None) == list,
        chosen(Seq::empty(), Some(sources)) == Seq::<Fragment>::empty(),
        chosen(list.push(f), Some(sources)) == (if exists|i: int|
            0 <= i < sources@.len() && (#[trigger] sources@[i])@ == f.source {
            chosen(list, Some(sources)).push(f)
        } else {
            chosen(list, Some(sources))
        }),
{
    let names = text::views(sources@);
    assert(list.push(f).drop_last() == list);
    if names.contains(f.source) {
        let i = choose|i: int| 0 <= i < names.len() && names[i] == f.source;
        assert(sources@[i]@ == f.source);
    }
    if exists|i: int| 0 <= i < sources@.len() && (#[trigger] sources@[i])@ == f.source {
        let i = choose|i: int| 0 <= i < sources@.len() && (#[trigger] sources@[i])@ == f.source;
        assert(names[i] == f.source);
    }
}

/// The fragments of one place are found by their source and their index, one by one.
pub proof fn fragments_of_a_place_one_by_one(
    list: Seq<Fragment>,
    f: Fragment,
    source: Seq<char>,
    index: usize,
)
    ensures
        at_place(Seq::empty(), source, index) == Seq::<Fragment>::empty(),
        at_place(list.push(f), source, index) == (if f.source == source && f.chunk_index == index {
            at_place(list, source, index).push(f)
        } else {
            at_place(list, source, index)
        }),
{
    lemma_at_place_push(list, f, source, index);
}

/// A text has a part where the part stands in it, between what comes before and what
/// follows.
pub proof fn parts_stand_in_the_text(s: Seq<char>, part: Seq<char>)
    ensures
        has_part(s, part) <==> exists|front: Seq<char>, rest: Seq<char>|
            s == #[trigger] (front + part + rest),
{
    if has_part(s, part) {
        let a = choose|a: int|
            0 <= a <= a + part.len() <= s.len() && #[trigger] s.subrange(a, a + part.len()) == part;
        assert(s == s.take(a) + part + s.skip(a + part.len()));
    }
    if exists|front: Seq<char>, rest: Seq<char>| s == #[trigger] (front + part + rest) {
        let (front, rest) = choose|front: Seq<char>, rest: Seq<char>|
            s == #[trigger] (front + part + rest);
        let a = front.len() as int;
        assert(s.subrange(a, a + part.len()) == part);
    }
}

proof fn lemma_part_of_part(
    s: Seq<char>,
    front: Seq<char>,
    heading: Seq<char>,
    part: Seq<char>,
    rest: Seq<char>,
)
    requires
        s == front + (heading + part) + rest,
    ensures
        has_part(s, part),
{
    assert(s == (front + heading) + part + rest);
    parts_stand_in_the_text(s, part);
}

/// The text of a merged context holds the whole text of every fragment, trimmed, under a
/// line with its source and its place counted from one.
pub proof fn the_context_has_every_text(list: Seq<Fragment>, f: Fragment)
    requires
        list.len() > 1,
        list.contains(f),
    ensures
        has_part(merged(list)[0].text, text::trimmed(f.text)),
        exists|front: Seq<char>, rest: Seq<char>|
            merged(list)[0].text == #[trigger] (front + ("[Fuente: "@ + f.source + " | fragmento "@
                + numbers::decimal((f.chunk_index + 1) as nat) + "]\n"@ + text::trimmed(f.text))
                + rest),
{
    merging_keeps_every_fragment(list, f);
    let s = merged(list)[0].text;
    let heading = "[Fuente: "@ + f.source + " | fragmento "@ + numbers::decimal(
        (f.chunk_index + 1) as nat,
    ) + "]\n"@;
    let t = text::trimmed(f.text);
    assert(block(f) == heading + t);
    parts_stand_in_the_text(s, block(f));
    let (front, rest) = choose|front: Seq<char>, rest: Seq<char>|
        s == #[trigger] (front + block(f) + rest);
    assert(s == front + (heading + t) + rest);
    lemma_part_of_part(s, front, heading, t, rest);
}

proof fn lemma_blocks_are_joined(list: Seq<Fragment>)
    ensures
        blocks(list) == text::joined(
            Seq::new(
                list.len(),
                |i: int|
                    "[Fuente: "@ + list[i].source + " | fragmento "@ + numbers::decimal(
                        (list[i].chunk_index + 1) as nat,
                    ) + "]\n"@ + text::trimmed(list[i].text),
            ),
            "\n\n"@,
        ),
    decreases list.len(),
{
    let parts = Seq::new(
        list.len(),
        |i: int|
            "[Fuente: "@ + list[i].source + " | fragmento "@ + numbers::decimal(
                (list[i].chunk_index + 1) as nat,
            ) + "]\n"@ + text::trimmed(list[i].text),
    );
    if list.len() > 0 {
        let init = list.drop_last();
        lemma_blocks_are_joined(init);
        assert(parts.drop_last() =~= Seq::new(
            init.len(),
            |i: int|
                "[Fuente: "@ + init[i].source + " | fragmento "@ + numbers::decimal(
                    (init[i].chunk_index + 1) as nat,
                ) + "]\n"@ + text::trimmed(init[i].text),
        ));
        assert(parts.last() == block(list.last()));
        assert(parts == parts.drop_last().push(parts.last()));
        text::joining_one_more(parts.drop_last(), "\n\n"@, parts.last());
    }
}

proof fn lemma_sources_ascend(list: Seq<Fragment>)
    requires
        is_in_order(list),
    ensures
        order::ascending(sources_once(list)),
        list.len() > 0 ==> sources_once(list).len() > 0 && sources_once(list).last()
            == list.last().source,
    decreases list.len(),
{
    if list.len() > 0 {
        let init = list.drop_last();
        assert(is_in_order(init)) by {
            assert forall|i: int, j: int| 0 <= i < j < init.len() implies !comes_before(
                #[trigger] init[j],
                #[trigger] init[i],
            ) by {
                assert(!comes_before(list[j], list[i]));
            }
        }
        lemma_sources_ascend(init);
        sources_are_listed_once(init);
        let rest = sources_once(init);
        let last = list.last().source;
        let n = list.len() - 1;
        if rest.contains(last) {
            let k = choose|k: int| 0 <= k < rest.len() && rest[k] == last;
            if k < rest.len() - 1 {
                assert(order::before(rest[k], rest[rest.len() - 1]));
                assert(!comes_before(list[n], list[n - 1]));
                assert(list[n - 1] == init.last());
            }
        } else {
            let all = rest.push(last);
            assert forall|i: int, j: int| 0 <= i < j < all.len() implies order::before(
                #[trigger] all[i],
                #[trigger] all[j],
            ) by {
                if j == rest.len() {
                    assert(rest.contains(rest[i]));
                    let m = choose|m: int| 0 <= m < init.len() && (#[trigger] init[m]).source == rest[i];
                    assert(!comes_before(list[n], list[m]));
                    order::before_is_total(rest[i], last);
                } else {
                    assert(order::before(rest[i], rest[j]));
                }
            }
        }
    }
}

/// A merged context is one fragment, without a place or a page. Its text is the texts of
/// all fragments, by source and within a source by index, each under its line and with an
/// empty line between neighbours. Fewer than two fragments stay as they are.
pub proof fn the_context_is_the_fragments_in_order(list: Seq<Fragment>)
    ensures
        list.len() <= 1 ==> merged(list) == list,
        list.len() > 1 ==> merged(list).len() == 1,
        list.len() > 1 ==> merged(list)[0].chunk_index == 0,
        list.len() > 1 ==> merged(list)[0].page_number is None,
        list.len() > 1 ==> exists|ordered: Seq<Fragment>|
            #[trigger] ordered.to_multiset() == list.to_multiset() && (forall|i: int, j: int|
                0 <= i < j < ordered.len() ==> if (#[trigger] ordered[i]).source == (
                #[trigger] ordered[j]).source {
                    ordered[i].chunk_index <= ordered[j].chunk_index
                } else {
                    order::before(ordered[i].source, ordered[j].source)
                }) && (forall|source: Seq<char>, index: usize| #[trigger]
                at_place(ordered, source, index) == at_place(list, source, index))
                && merged(list)[0].text == text::joined(
                Seq::new(
                    ordered.len(),
                    |i: int|
                        "[Fuente: "@ + ordered[i].source + " | fragmento "@ + numbers::decimal(
                            (ordered[i].chunk_index + 1) as nat,
                        ) + "]\n"@ + text::trimmed(ordered[i].text),
                ),
                "\n\n"@,
            ),
{
    if list.len() > 1 {
        let ordered = in_document_order(list);
        document_order_sorts(list);
        lemma_blocks_are_joined(ordered);
        assert forall|i: int, j: int| 0 <= i < j < ordered.len() implies if (
        #[trigger] ordered[i]).source == (#[trigger] ordered[j]).source {
            ordered[i].chunk_index <= ordered[j].chunk_index
        } else {
            order::before(ordered[i].source, ordered[j].source)
        } by {
            assert(!comes_before(ordered[j], ordered[i]));
            order::before_is_total(ordered[i].source, ordered[j].source);
        }
        assert forall|source: Seq<char>, index: usize| #[trigger]
            at_place(ordered, source, index) == at_place(list, source, index) by {
            document_order_is_stable(list, source, index);
        }
    }
}

/// The source of a merged context lists the source of every fragment, each once, in
/// ascending order; its score is the highest of the scores that are numbers.
pub proof fn the_context_has_every_source_and_the_best_score(list: Seq<Fragment>)
    requires
        list.len() > 1,
    ensures
        exists|listed: Seq<Seq<char>>|
            order::ascending(listed) && (forall|s: Seq<char>| #[trigger]
                listed.contains(s) <==> exists|i: int|
                    0 <= i < list.len() && (#[trigger] list[i]).source == s)
                && merged(list)[0].source == #[trigger] text::joined(listed, " + "@),
        forall|i: int|
            0 <= i < list.len() ==> (#[trigger] list[i]).score <= merged(list)[0].score
                || list[i].score > 2139095040,
        merged(list)[0].score == -2139095040 || exists|i: int|
            0 <= i < list.len() && (#[trigger] list[i]).score == merged(list)[0].score
                && list[i].score <= 2139095040,
{
    broadcast use vstd::seq_lib::group_to_multiset_ensures;

    let ordered = in_document_order(list);
    let listed = sources_once(ordered);
    document_order_sorts(list);
    lemma_order_members(list);
    lemma_sources_ascend(ordered);
    sources_are_listed_once(ordered);
    best_score_is_the_best(ordered);
    assert forall|f: Fragment| list.contains(f) <==> #[trigger] ordered.contains(f) by {
        assert(list.to_multiset().count(f) > 0 <==> list.contains(f));
        assert(ordered.to_multiset().count(f) > 0 <==> ordered.contains(f));
    }
    assert forall|s: Seq<char>| #[trigger] listed.contains(s) <==> exists|i: int|
        0 <= i < list.len() && (#[trigger] list[i]).source == s by {
        if listed.contains(s) {
            let k = choose|k: int| 0 <= k < ordered.len() && (#[trigger] ordered[k]).source == s;
            assert(list.contains(ordered[k]));
            let i = choose|i: int| 0 <= i < list.len() && list[i] == ordered[k];
            assert(list[i].source == s);
        }
        if exists|i: int| 0 <= i < list.len() && (#[trigger] list[i]).source == s {
            let i = choose|i: int| 0 <= i < list.len() && (#[trigger] list[i]).source == s;
            assert(ordered.contains(list[i]));
            let k = choose|k: int| 0 <= k < ordered.len() && ordered[k] == list[i];
            assert(ordered[k].source == s);
        }
    }
    assert(merged(list)[0].source == text::joined(listed, " + "@));
    assert forall|i: int| 0 <= i < list.len() implies (#[trigger] list[i]).score
        <= merged(list)[0].score || list[i].score > 2139095040 by {
        assert(ordered.contains(list[i]));
        let k = choose|k: int| 0 <= k < ordered.len() && ordered[k] == list[i];
        assert(ordered[k].score <= best_score(ordered) || ordered[k].score > HIGHEST_SCORE);
    }
    if merged(list)[0].score != LOWEST_SCORE {
        let k = choose|k: int|
            0 <= k < ordered.len() && (#[trigger] ordered[k]).score == best_score(ordered);
        assert(list.contains(ordered[k]));
        let i = choose|i: int| 0 <= i < list.len() && list[i] == ordered[k];
        assert(list[i].score == merged(list)[0].score);
    }
}

/// The answer without a language model names the sources in its last line: a source is
/// listed if and only if some fragment comes from it, each once and in ascending order.
/// Before that stand the question as it is and an excerpt of the first two fragments, a
/// line each.
pub proof fn local_answers_name_every_source(question: Seq<char>, list: Seq<Fragment>)
    requires
        list.len() > 0,
    ensures
        exists|listed: Seq<Seq<char>>|
            order::ascending(listed) && (forall|s: Seq<char>| #[trigger]
                listed.contains(s) <==> exists|i: int|
                    0 <= i < list.len() && (#[trigger] list[i]).source == s) && local_response(
                question,
                list,
            ) == "## Respuesta\nSe encontró información relacionada con la consulta en las fuentes recuperadas.\n\n## Consulta\n"@
                + question + "\n\n## Sustento\n"@ + "- "@ + text::excerpt(list[0].text, 180) + "\n"@
                + (if list.len() == 1 {
                ""@
            } else {
                "- "@ + text::excerpt(list[1].text, 180) + "\n"@
            }) + "\n**Fuente consultada:** "@ + #[trigger] text::joined(listed, ", "@),
{
    let listed = order::sorted_entries(sources_of(list));
    order::sorted_entries_ascend(sources_of(list));
    assert forall|s: Seq<char>| #[trigger] listed.contains(s) <==> exists|i: int|
        0 <= i < list.len() && (#[trigger] list[i]).source == s by {
        if sources_of(list).contains(s) {
            let i = choose|i: int| 0 <= i < list.len() && sources_of(list)[i] == s;
            assert(list[i].source == s);
        }
        if exists|i: int| 0 <= i < list.len() && (#[trigger] list[i]).source == s {
            let i = choose|i: int| 0 <= i < list.len() && (#[trigger] list[i]).source == s;
            assert(sources_of(list)[i] == s);
        }
    }
    reveal_strlit("");
    let quoted = first_two(list);
    let one = list.take(1);
    assert(one.drop_last() == Seq::<Fragment>::empty());
    assert(one.last() == list[0]);
    assert(excerpt_lines(Seq::<Fragment>::empty()) == Seq::<char>::empty());
    assert(excerpt_lines(one) == "- "@ + text::excerpt(list[0].text, 180) + "\n"@);
    if list.len() == 1 {
        assert(quoted == one);
    } else {
        assert(quoted == list.take(2));
        assert(quoted.drop_last() == one);
        assert(quoted.last() == list[1]);
    }
    let names = text::joined(listed, ", "@);
    assert(local_response(question, list)
        == "## Respuesta\nSe encontró información relacionada con la consulta en las fuentes recuperadas.\n\n## Consulta\n"@
        + question + "\n\n## Sustento\n"@ + "- "@ + text::excerpt(list[0].text, 180) + "\n"@ + (
    if list.len() == 1 {
        ""@
    } else {
        "- "@ + text::excerpt(list[1].text, 180) + "\n"@
    }) + "\n**Fuente consultada:** "@ + names);
}

/// The answer to a question about a single fragment ends with the source of that
/// fragment.
pub proof fn local_answers_end_with_a_single_source(question: Seq<char>, f: Fragment)
    ensures
        exists|front: Seq<char>|
            local_response(question, seq![f]) == #[trigger] (front
                + "\n**Fuente consultada:** "@ + f.source),
{
    let list = seq![f];
    let sources = sources_of(list);
    let listed = order::sorted_entries(sources);
    order::sorted_entries_ascend(sources);
    assert(sources == seq![f.source]);
    assert(order::ascending(sources));
    order::ascending_lists_are_unique(sources, listed);
    assert(text::joined(sources, ", "@) == f.source) by {
        assert(sources.drop_last() == Seq::<Seq<char>>::empty());
        text::joining_one_more(Seq::empty(), ", "@, f.source);
        assert(Seq::<Seq<char>>::empty().push(f.source) == sources);
    }
    let front =
        "## Respuesta\nSe encontró información relacionada con la consulta en las fuentes recuperadas.\n\n## Consulta\n"@
        + question + "\n\n## Sustento\n"@ + excerpt_lines(first_two(list));
    assert(local_response(question, list) == front + "\n**Fuente consultada:** "@ + f.source);
}

/// Where nothing was found, the answer says so.
pub proof fn nothing_found_is_said(question: Seq<char>)
    ensures
        local_response(question, Seq::empty())
            == "No se encontró información suficiente en los documentos cargados para responder con fundamento. Puede subir más documentos o ejecutar la reindexación desde la administración."@,
{
}

/// An entry of a reply without a payload has the default for all that the payload would
/// give.
pub proof fn hits_without_a_payload_have_the_defaults(hit: SearchHit, item: Json)
    requires
        hit.tells(item),
        item.member("payload"@) is None,
    ensures
        hit.source@ == "sin_fuente"@,
        hit.text@ == ""@,
        hit.chunk_index == 0,
        hit.page_number is None,
{
}

} // verus!
