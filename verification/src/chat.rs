//! Answering a question: from the request through the search, the cache and the
//! language model to the reply, whole or as a stream of events.
use crate::auth::AuthUser;
use crate::config::Config;
use crate::error::{AppError, Status};
use crate::fingerprint;
use crate::fingerprint::faq_question_hash;
use crate::llm;
use crate::llm::{call_openrouter, LlmCall, LlmRequest};
use crate::search;
use crate::search::{
    build_local_response, filter_fragments_by_sources, is_countable,
    merge_fragments_as_single_context, SearchFragment,
};
use crate::text;
use crate::text::{is_alphanumeric, is_whitespace, owned, to_chars, to_lowercase, trim};
use vstd::prelude::*;

verus! {

/// How many fragments are searched for at most.
pub const MOST_FRAGMENTS: usize = 15;

/// A question of a user.
#[derive(Debug)]
pub struct ChatRequest {
    pub question: String,
    pub top_k: Option<usize>,
    pub use_llm: Option<bool>,
    pub mode: Option<String>,
    pub selected_sources: Option<Vec<String>>,
}

/// The answer to a question.
#[derive(Debug)]
pub struct ChatResponse {
    pub answer: String,
    pub used_llm: bool,
    pub model: Option<String>,
    pub fragments: Vec<SearchFragment>,
}

// ---------------------------------------------------------------------------
// The cache of answers
// ---------------------------------------------------------------------------

/// The letters, digits and white space of a text.
pub open spec fn searchable(s: Seq<char>) -> Seq<char>
    decreases s.len(),
{
    if s.len() == 0 {
        Seq::empty()
    } else if text::alphanumeric(s.last()) || text::is_white(s.last()) {
        searchable(s.drop_last()).push(s.last())
    } else {
        searchable(s.drop_last())
    }
}

/// The letters, digits and white space of a text.
pub fn keep_searchable(s: &str) -> (r: String)
    ensures
        r@ == searchable(s@),
{
    let chars: Vec<char> = to_chars(s);
    let mut out: String = String::new();
    let mut i: usize = 0;
    assert(chars@.take(0) == Seq::<char>::empty());
    while i < chars.len()
        invariant
            i <= chars@.len(),
            chars@ == s@,
            out@ == searchable(chars@.take(i as int)),
        decreases chars@.len() - i,
    {
        let c: char = chars[i];
        if is_alphanumeric(c) || is_whitespace(c) {
            out.push(c);
        }
        i = i + 1;
        assert(chars@.take(i as int).drop_last() == chars@.take(i - 1));
        assert(chars@.take(i as int).last() == c);
    }
    assert(chars@.take(i as int) == s@);
    out
}

/// The form in which questions are compared: without the white space around them, in
/// lower case, and without punctuation.
pub open spec fn normal_question(question: Seq<char>) -> Seq<char> {
    searchable(text::lowercase(text::trimmed(question)))
}

/// The form in which questions are compared.
pub fn normalize_question(question: &str) -> (r: String)
    ensures
        r@ == normal_question(question@),
        text::no_ascii_capital(r@),
{
    let inner: String = trim(question);
    let lower: String = to_lowercase(inner.as_str());
    let r: String = keep_searchable(lower.as_str());
    proof {
        lemma_searchable_chars(lower@);
        assert forall|i: int| 0 <= i < r@.len() implies !('A' <= #[trigger] r@[i] <= 'Z') by {
            assert(lower@.contains(r@[i]));
            let k = choose|k: int| 0 <= k < lower@.len() && lower@[k] == r@[i];
            assert(!('A' <= lower@[k] <= 'Z'));
        }
    }
    r
}

/// Where an answer is cached: the key, and the question in its normal form.
pub struct CacheEntry {
    pub key: String,
    pub question: String,
}

/// Where the answer to a question is cached.
pub fn cache_entry(question: &str) -> (r: CacheEntry)
    ensures
        r.question@ == normal_question(question@),
        r.key@ == fingerprint::question_key(normal_question(question@)),
{
    let normal: String = normalize_question(question);
    CacheEntry { key: faq_question_hash(normal.as_str()), question: normal }
}

/// Questions that differ only in the white space around them and in the case of ASCII
/// letters share their cached answer, as long as they have no capital sigma.
pub proof fn case_and_padding_do_not_change_the_cache_entry(a: Seq<char>, b: Seq<char>)
    requires
        text::ascii_folded(text::trimmed(a)) == text::ascii_folded(text::trimmed(b)),
        !text::trimmed(a).contains(text::CAPITAL_SIGMA),
    ensures
        normal_question(a) == normal_question(b),
        fingerprint::question_key(normal_question(a)) == fingerprint::question_key(
            normal_question(b),
        ),
{
    text::lowercase_ignores_ascii_case(text::trimmed(a), text::trimmed(b));
}

/// Questions that differ only in the white space around them share their cached
/// answer.
pub proof fn padding_does_not_change_the_cache_entry(question: Seq<char>)
    ensures
        normal_question(text::trimmed(question)) == normal_question(question),
{
    text::trim_is_idempotent(question);
}

/// Whether `s` is made of ASCII punctuation: neither letters, digits nor white space.
pub open spec fn is_punctuation(s: Seq<char>) -> bool {
    &&& vstd::utf8::is_ascii_chars(s)
    &&& forall|i: int|
        0 <= i < s.len() ==> !text::alphanumeric(#[trigger] s[i]) && !text::is_white(s[i])
}

proof fn lemma_searchable_punctuation(s: Seq<char>, marks: Seq<char>)
    requires
        is_punctuation(marks),
    ensures
        searchable(s + marks) == searchable(s),
    decreases marks.len(),
{
    if marks.len() > 0 {
        let init = marks.drop_last();
        assert(!text::alphanumeric(marks[marks.len() - 1]));
        assert((s + marks).last() == marks.last());
        assert((s + marks).drop_last() == s + init);
        assert forall|i: int| 0 <= i < init.len() implies '\0' <= #[trigger] init[i] <= '\u{7f}'
            && !text::alphanumeric(init[i]) && !text::is_white(init[i]) by {
            assert(init[i] == marks[i]);
        }
        lemma_searchable_punctuation(s, init);
    } else {
        assert(s + marks == s);
    }
}

/// The case of ASCII letters, white space around a question and punctuation at its end
/// do not change its cached answer, all of them together: so for a trimmed question,
/// where `variant` is the question in another case. A capital sigma is left out: its
/// small letter depends on what follows it.
pub proof fn case_padding_and_final_punctuation_do_not_change_the_cache_entry(
    question: Seq<char>,
    variant: Seq<char>,
    before: Seq<char>,
    marks: Seq<char>,
    after: Seq<char>,
)
    requires
        text::trimmed(question) == question,
        !question.contains(text::CAPITAL_SIGMA),
        text::ascii_folded(variant) == text::ascii_folded(question),
        text::is_blank(before),
        is_punctuation(marks),
        text::is_blank(after),
    ensures
        normal_question(before + (variant + marks) + after) == normal_question(question),
        fingerprint::question_key(normal_question(before + (variant + marks) + after))
            == fingerprint::question_key(normal_question(question)),
{
    let inner = variant + marks;
    text::padding_is_trimmed(before, inner, after);
    text::lowercase_ignores_ascii_case(question, variant);
    if question.len() > 0 {
        text::trimmed_ends_are_not_white(question);
        text::lemma_folded_ends(question, variant);
        assert(inner[0] == variant[0]);
    } else {
        assert(text::ascii_folded(variant).len() == variant.len());
        if marks.len() > 0 {
            assert(inner[0] == marks[0]);
        }
    }
    if marks.len() > 0 {
        assert(inner.last() == marks[marks.len() - 1]);
    } else {
        assert(inner == variant);
    }
    text::lemma_trimmed_fixed(inner);
    assert(text::no_ascii_capital(marks)) by {
        assert forall|i: int| 0 <= i < marks.len() implies !('A' <= #[trigger] marks[i]
            <= 'Z') by {
            assert(!text::alphanumeric(marks[i]));
        }
    }
    text::lemma_lowercase_with_tail(variant, marks);
    lemma_searchable_punctuation(text::lowercase(question), marks);
}

proof fn lemma_searchable_chars(s: Seq<char>)
    ensures
        forall|i: int|
            0 <= i < searchable(s).len() ==> s.contains(#[trigger] searchable(s)[i]) && (
            text::alphanumeric(searchable(s)[i]) || text::is_white(searchable(s)[i])),
    decreases s.len(),
{
    if s.len() > 0 {
        let init = s.drop_last();
        lemma_searchable_chars(init);
        let r = searchable(init);
        assert forall|i: int| 0 <= i < searchable(s).len() implies s.contains(
            #[trigger] searchable(s)[i],
        ) && (text::alphanumeric(searchable(s)[i]) || text::is_white(searchable(s)[i])) by {
            if i < r.len() {
                assert(searchable(s)[i] == r[i]);
                assert(init.contains(r[i]));
                let k = choose|k: int| 0 <= k < init.len() && init[k] == r[i];
                assert(s[k] == r[i]);
            } else {
                assert(s[s.len() - 1] == searchable(s)[i]);
            }
        }
    }
}

/// The normal form of a question has letters, digits and white space only.
pub proof fn normal_questions_are_plain(question: Seq<char>)
    ensures
        forall|i: int|
            0 <= i < normal_question(question).len() ==> text::alphanumeric(
                #[trigger] normal_question(question)[i],
            ) || text::is_white(normal_question(question)[i]),
{
    lemma_searchable_chars(text::lowercase(text::trimmed(question)));
}

// ---------------------------------------------------------------------------
// From the question to a plan
// ---------------------------------------------------------------------------

/// The number of fragments to search for: what was asked for or else the default,
/// but at least 1 and at most 15.
pub open spec fn fragment_count(asked: Option<usize>, default: usize) -> usize {
    let n = match asked {
        Some(n) => n,
        None => default,
    };
    if n < 1 {
        1
    } else if n > MOST_FRAGMENTS {
        MOST_FRAGMENTS
    } else {
        n
    }
}

/// What to search for.
#[derive(Debug)]
pub struct ChatQuery {
    pub question: String,
    pub top_k: usize,
}

/// What to search for to answer a request, whole or streamed; a blank question is
/// refused.
pub fn begin_chat(req: &ChatRequest, config: &Config) -> (r: Result<ChatQuery, AppError>)
    ensures
        match r {
            Ok(query) => {
                &&& text::trimmed(req.question@).len() > 0
                &&& query.question@ == text::trimmed(req.question@)
                &&& query.top_k == fragment_count(req.top_k, config.default_top_k)
            },
            Err(e) => {
                &&& text::trimmed(req.question@).len() == 0
                &&& e.says(Status::BadRequest, "La pregunta no puede estar vacía."@)
            },
        },
{
    let question: String = trim(req.question.as_str());
    if question.as_str().is_empty() {
        return Err(AppError::new(Status::BadRequest, "La pregunta no puede estar vacía."));
    }
    let n: usize = match req.top_k {
        Some(n) => n,
        None => config.default_top_k,
    };
    let top_k: usize = if n < 1 {
        1
    } else if n > MOST_FRAGMENTS {
        MOST_FRAGMENTS
    } else {
        n
    };
    Ok(ChatQuery { question, top_k })
}

/// What an answer is made from: all that was found, what was chosen of it, and the
/// context that this makes; and whether the language model is to answer.
#[derive(Debug)]
pub struct AnswerPlan {
    pub question: String,
    pub found: Vec<SearchFragment>,
    pub filtered: Vec<SearchFragment>,
    pub context: Vec<SearchFragment>,
    pub ask_model: bool,
}

impl AnswerPlan {
    /// Whether this is the plan for what a search found.
    pub open spec fn plans(
        self,
        query: ChatQuery,
        req: ChatRequest,
        config: Config,
        found: Seq<SearchFragment>,
    ) -> bool {
        &&& self.question@ == query.question@
        &&& search::held(self.found@) == search::held(found)
        &&& search::held(self.filtered@) == search::chosen(
            search::held(found),
            req.selected_sources,
        )
        &&& search::held(self.context@) == search::merged(search::held(self.filtered@))
        &&& self.ask_model == (req.use_llm != Some(false) && config.openrouter_api_key is Some)
    }
}

/// Whether what was chosen of the fragments can be merged: the places of two or more
/// are counted from one.
pub open spec fn mergeable(found: Seq<search::Fragment>, selected: Option<Vec<String>>) -> bool {
    search::chosen(found, selected).len() > 1 ==> search::countable(search::chosen(found, selected))
}

/// Whether what was chosen of the fragments can be merged.
pub fn is_mergeable(found: &Vec<SearchFragment>, selected: &Option<Vec<String>>) -> (r: bool)
    ensures
        r == mergeable(search::held(found@), *selected),
{
    let filtered: Vec<SearchFragment> = filter_fragments_by_sources(found, selected);
    assert(search::held(filtered@).len() == filtered@.len());
    filtered.len() <= 1 || is_countable(&filtered)
}

/// Plans the answer once the search is over.
pub fn plan_answer(
    query: ChatQuery,
    req: &ChatRequest,
    config: &Config,
    found: Vec<SearchFragment>,
) -> (r: AnswerPlan)
    requires
        mergeable(search::held(found@), req.selected_sources),
    ensures
        r.plans(query, *req, *config, found@),
{
    let filtered: Vec<SearchFragment> = filter_fragments_by_sources(&found, &req.selected_sources);
    assert(search::held(filtered@).len() == filtered@.len());
    let context: Vec<SearchFragment> = merge_fragments_as_single_context(&filtered);
    let wants_llm: bool = match req.use_llm {
        Some(wanted) => wanted,
        None => true,
    };
    let ask_model: bool = wants_llm && config.openrouter_api_key.is_some();
    AnswerPlan { question: query.question, found, filtered, context, ask_model }
}

/// The context of an answer is a single fragment, or none where nothing was chosen.
pub proof fn context_is_at_most_one(
    plan: AnswerPlan,
    query: ChatQuery,
    req: ChatRequest,
    config: Config,
    found: Seq<SearchFragment>,
)
    requires
        plan.plans(query, req, config, found),
    ensures
        plan.context@.len() <= 1,
        plan.context@.len() == 0 <==> plan.filtered@.len() == 0,
{
    assert(search::held(plan.context@).len() == plan.context@.len());
    assert(search::held(plan.filtered@).len() == plan.filtered@.len());
}

// ---------------------------------------------------------------------------
// A whole answer
// ---------------------------------------------------------------------------

/// A reply, and whether its answer is to be cached.
#[derive(Debug)]
pub struct ChatReply {
    pub response: ChatResponse,
    pub store: bool,
}

impl ChatReply {
    /// Whether this replies with the answer of the model, which is to be cached.
    pub open spec fn answers(self, plan: AnswerPlan, config: Config, answer: Seq<char>) -> bool {
        &&& self.response.answer@ == answer
        &&& self.response.used_llm
        &&& self.response.model matches Some(m) && m@ == config.openrouter_model@
        &&& search::held(self.response.fragments@) == search::held(plan.filtered@)
        &&& self.store
    }
}

/// How the answer goes on after the cache was looked up.
pub enum ChatStep {
    /// This is the reply.
    Reply(ChatReply),
    /// The model is asked; its answer goes to `model_answered`.
    Ask { api_key: String, request: LlmRequest, plan: AnswerPlan },
    /// The request fails.
    Fail(AppError),
}

impl ChatStep {
    /// Whether this is how the answer goes on, given what the cache holds for the
    /// question.
    pub open spec fn follows(self, plan: AnswerPlan, config: Config, cached: Option<String>) -> bool {
        match self {
            ChatStep::Reply(reply) => if !plan.ask_model {
                &&& reply.response.answer@ == search::local_response(
                    plan.question@,
                    search::held(plan.context@),
                )
                &&& !reply.response.used_llm
                &&& reply.response.model is None
                &&& search::held(reply.response.fragments@) == search::held(plan.filtered@)
                &&& !reply.store
            } else {
                match cached {
                    Some(c) => {
                        &&& reply.response.answer@ == "[Cache] "@ + c@
                        &&& !reply.response.used_llm
                        &&& reply.response.model is None
                        &&& search::held(reply.response.fragments@) == search::held(plan.found@)
                        &&& !reply.store
                    },
                    None => {
                        &&& config.openrouter_api_key is Some
                        &&& plan.context@.len() == 0
                        &&& reply.answers(plan, config, llm::NO_EVIDENCE@)
                    },
                }
            },
            ChatStep::Ask { api_key, request, plan: kept } => {
                &&& plan.ask_model
                &&& cached is None
                &&& config.openrouter_api_key matches Some(key) && key@ == api_key@
                &&& plan.context@.len() > 0
                &&& request.asks(config, plan.question@, search::held(plan.context@), false)
                &&& kept == plan
            },
            ChatStep::Fail(e) => {
                &&& plan.ask_model
                &&& cached is None
                &&& config.openrouter_api_key is None
                &&& e.says(Status::Internal, "OPENROUTER_API_KEY no está configurada"@)
            },
        }
    }
}

/// The reply with the answer of the model.
pub fn model_answered(plan: AnswerPlan, config: &Config, answer: String) -> (r: ChatReply)
    ensures
        r.answers(plan, *config, answer@),
{
    ChatReply {
        response: ChatResponse {
            answer,
            used_llm: true,
            model: Some(config.openrouter_model.clone()),
            fragments: plan.filtered,
        },
        store: true,
    }
}

/// How the answer goes on, given what the cache holds for the question; where the
/// model is not to answer, the cache does not matter.
pub fn next_step(plan: AnswerPlan, config: &Config, cached: Option<String>) -> (r: ChatStep)
    ensures
        r.follows(plan, *config, cached),
{
    if !plan.ask_model {
        let answer: String = build_local_response(plan.question.as_str(), &plan.context);
        return ChatStep::Reply(
            ChatReply {
                response: ChatResponse {
                    answer,
                    used_llm: false,
                    model: None,
                    fragments: plan.filtered,
                },
                store: false,
            },
        );
    }
    match cached {
        Some(c) => {
            let mut answer: String = owned("[Cache] ");
            answer.push_str(c.as_str());
            ChatStep::Reply(
                ChatReply {
                    response: ChatResponse {
                        answer,
                        used_llm: false,
                        model: None,
                        fragments: plan.found,
                    },
                    store: false,
                },
            )
        },
        None => match call_openrouter(config, plan.question.as_str(), &plan.context, false) {
            LlmCall::Ask { api_key, request } => ChatStep::Ask { api_key, request, plan },
            LlmCall::Answer(answer) => ChatStep::Reply(model_answered(plan, config, answer)),
            LlmCall::Unavailable(message) => ChatStep::Fail(AppError::internal(message.as_str())),
        },
    }
}

// ---------------------------------------------------------------------------
// A streamed answer
// ---------------------------------------------------------------------------

/// An event of a streamed answer.
#[derive(Debug)]
pub enum StreamEvent {
    /// What is searched for, and what kind of question it is taken for.
    Variants { variants: Vec<String>, intent: String },
    /// The fragments that the answer is based on.
    Fragments(Vec<SearchFragment>),
    /// The answer, from the cache.
    Cached(String),
    /// The answer, made without the model.
    Local(String),
    /// The answer of the model so far.
    Answer(String),
    /// Something failed.
    Error(String),
}

impl StreamEvent {
    /// The name by which an event is known to the page.
    pub open spec fn name(self) -> Seq<char> {
        match self {
            StreamEvent::Variants { .. } => "variants"@,
            StreamEvent::Fragments(_) => "fragments"@,
            StreamEvent::Cached(_) => "cached"@,
            StreamEvent::Local(_) => "local"@,
            StreamEvent::Answer(_) => "answer"@,
            StreamEvent::Error(_) => "error"@,
        }
    }

    /// The name by which an event is known to the page.
    pub fn kind(&self) -> (r: &'static str)
        ensures
            r@ == self.name(),
    {
        match self {
            StreamEvent::Variants { .. } => "variants",
            StreamEvent::Fragments(_) => "fragments",
            StreamEvent::Cached(_) => "cached",
            StreamEvent::Local(_) => "local",
            StreamEvent::Answer(_) => "answer",
            StreamEvent::Error(_) => "error",
        }
    }
}

/// The event with the fragments that the answer is based on.
pub fn fragments_event(plan: &AnswerPlan) -> (r: StreamEvent)
    ensures
        r matches StreamEvent::Fragments(list) && search::held(list@) == search::held(
            plan.filtered@,
        ),
{
    StreamEvent::Fragments(search::copy_all(&plan.filtered))
}

/// How a streamed answer goes on after the cache was looked up.
pub enum StreamStep {
    /// This event is the last.
    Finish(StreamEvent),
    /// The model is asked; what it says goes to a `StreamedAnswer`.
    Ask { api_key: String, request: LlmRequest },
    /// The answer is this text, as if the model had said it.
    Say(String),
}

impl StreamStep {
    /// Whether this is how a streamed answer goes on, given what the cache holds for
    /// the question.
    pub open spec fn follows(self, plan: AnswerPlan, config: Config, cached: Option<String>) -> bool {
        match self {
            StreamStep::Finish(event) => if !plan.ask_model {
                event matches StreamEvent::Local(answer) && answer@ == search::local_response(
                    plan.question@,
                    search::held(plan.context@),
                )
            } else {
                match cached {
                    Some(c) => event matches StreamEvent::Cached(answer) && answer@ == c@,
                    None => {
                        &&& config.openrouter_api_key is None
                        &&& event matches StreamEvent::Error(message) && message@
                            == "OPENROUTER_API_KEY no está configurada"@
                    },
                }
            },
            StreamStep::Ask { api_key, request } => {
                &&& plan.ask_model
                &&& cached is None
                &&& config.openrouter_api_key matches Some(key) && key@ == api_key@
                &&& plan.context@.len() > 0
                &&& request.asks(config, plan.question@, search::held(plan.context@), true)
            },
            StreamStep::Say(answer) => {
                &&& plan.ask_model
                &&& cached is None
                &&& config.openrouter_api_key is Some
                &&& plan.context@.len() == 0
                &&& answer@ == llm::NO_EVIDENCE_STREAMED@
            },
        }
    }
}

/// How a streamed answer goes on, given what the cache holds for the question; where
/// the model is not to answer, the cache does not matter.
pub fn next_stream_step(plan: &AnswerPlan, config: &Config, cached: Option<String>) -> (r:
    StreamStep)
    ensures
        r.follows(*plan, *config, cached),
{
    if !plan.ask_model {
        let answer: String = build_local_response(plan.question.as_str(), &plan.context);
        return StreamStep::Finish(StreamEvent::Local(answer));
    }
    match cached {
        Some(c) => StreamStep::Finish(StreamEvent::Cached(c)),
        None => match call_openrouter(config, plan.question.as_str(), &plan.context, true) {
            LlmCall::Ask { api_key, request } => StreamStep::Ask { api_key, request },
            LlmCall::Answer(answer) => StreamStep::Say(answer),
            LlmCall::Unavailable(message) => StreamStep::Finish(StreamEvent::Error(message)),
        },
    }
}

/// In private mode, without a key, the model is never asked, whatever was asked and
/// found and whatever the cache holds: the answer is made on this machine.
pub proof fn private_mode_does_not_ask(
    plan: AnswerPlan,
    query: ChatQuery,
    req: ChatRequest,
    config: Config,
    found: Seq<SearchFragment>,
    cached: Option<String>,
    step: ChatStep,
    stream_step: StreamStep,
)
    requires
        plan.plans(query, req, config, found),
        config.openrouter_api_key is None,
        step.follows(plan, config, cached),
        stream_step.follows(plan, config, cached),
    ensures
        ({
            let local = search::local_response(plan.question@, search::held(plan.context@));
            &&& step matches ChatStep::Reply(reply) && !reply.response.used_llm
                && reply.response.answer@ == local
            &&& stream_step matches StreamStep::Finish(StreamEvent::Local(answer)) && answer@
                == local
        }),
{
}

/// What the model is asked depends on the question and on the chosen fragments alone:
/// nothing else that was found, and nothing of the rest of the documents, reaches it.
pub proof fn model_sees_only_what_was_chosen(
    a: AnswerPlan,
    b: AnswerPlan,
    query_a: ChatQuery,
    query_b: ChatQuery,
    req_a: ChatRequest,
    req_b: ChatRequest,
    config: Config,
    found_a: Seq<SearchFragment>,
    found_b: Seq<SearchFragment>,
    asked_a: LlmRequest,
    asked_b: LlmRequest,
    stream: bool,
)
    requires
        a.plans(query_a, req_a, config, found_a),
        b.plans(query_b, req_b, config, found_b),
        a.question@ == b.question@,
        search::held(a.filtered@) == search::held(b.filtered@),
        asked_a.asks(config, a.question@, search::held(a.context@), stream),
        asked_b.asks(config, b.question@, search::held(b.context@), stream),
    ensures
        asked_a.model@ == asked_b.model@,
        asked_a.system_prompt@ == asked_b.system_prompt@,
        asked_a.user_prompt@ == asked_b.user_prompt@,
        asked_a.max_tokens == asked_b.max_tokens,
{
}

/// A whole reply is cached if and only if it stands for an answer of the model: one that
/// the model gave, or, where there was no evidence to ask it about, the answer that says
/// so. Neither what comes from the cache nor what is answered locally is stored.
pub proof fn only_answers_of_the_model_are_cached(
    plan: AnswerPlan,
    config: Config,
    cached: Option<String>,
    step: ChatStep,
)
    requires
        step.follows(plan, config, cached),
    ensures
        step matches ChatStep::Reply(reply) ==> {
            &&& reply.store == reply.response.used_llm
            &&& reply.store ==> cached is None && plan.ask_model && plan.context@.len() == 0
                && reply.response.answer@ == llm::NO_EVIDENCE@
        },
        step is Ask ==> cached is None && plan.ask_model,
{
}

/// An answer that the model is giving: its text so far, and whether it broke off.
pub struct StreamedAnswer {
    pub full: String,
    pub failed: bool,
}

impl StreamedAnswer {
    /// The model has said nothing yet.
    pub fn begin() -> (r: Self)
        ensures
            r.full@.len() == 0,
            !r.failed,
    {
        StreamedAnswer { full: String::new(), failed: false }
    }

    /// The model goes on with `delta`: the event shows the whole answer so far.
    pub fn say(&mut self, delta: &str) -> (r: StreamEvent)
        ensures
            final(self).full@ == old(self).full@ + delta@,
            final(self).failed == old(self).failed,
            r matches StreamEvent::Answer(text) && text@ == old(self).full@ + delta@,
    {
        self.full.push_str(delta);
        StreamEvent::Answer(self.full.clone())
    }

    /// The answer breaks off: the events show what there is of it, if anything, and
    /// then the error.
    pub fn fail(&mut self, error: &str) -> (r: Vec<StreamEvent>)
        ensures
            final(self).full == old(self).full,
            final(self).failed,
            r@.len() > 0,
            r@.last() matches StreamEvent::Error(message) && message@ == error@,
            old(self).full@.len() == 0 ==> r@.len() == 1,
            old(self).full@.len() > 0 ==> {
                &&& r@.len() == 2
                &&& r@[0] matches StreamEvent::Answer(text) && text@ == old(self).full@
            },
    {
        let mut events: Vec<StreamEvent> = Vec::new();
        if !self.full.as_str().is_empty() {
            events.push(StreamEvent::Answer(self.full.clone()));
        }
        events.push(StreamEvent::Error(owned(error)));
        self.failed = true;
        events
    }

    /// The answer to cache: only one that did not break off.
    pub fn finish(self) -> (r: Option<String>)
        ensures
            match r {
                Some(answer) => !self.failed && answer == self.full,
                None => self.failed,
            },
    {
        if self.failed {
            None
        } else {
            Some(self.full)
        }
    }
}

// ---------------------------------------------------------------------------
// The events of a streamed answer, from the first to the last
// ---------------------------------------------------------------------------

/// The names of events.
pub open spec fn names(events: Seq<StreamEvent>) -> Seq<Seq<char>> {
    Seq::new(events.len(), |i: int| events[i].name())
}

/// The names of the events that a stream opens with.
pub open spec fn opening() -> Seq<Seq<char>> {
    seq!["variants"@, "fragments"@]
}

/// Whether a stream that sent these events has opened, and has sent the answer of the
/// model as far as it went.
pub open spec fn is_answering(sent: Seq<Seq<char>>) -> bool {
    &&& sent.len() >= 2
    &&& sent[0] == "variants"@
    &&& sent[1] == "fragments"@
    &&& forall|i: int| 2 <= i < sent.len() ==> #[trigger] sent[i] == "answer"@
}

/// Whether these are the events of a whole stream: an error alone; or the opening and
/// then the cached answer, the local answer, or the answer of the model, with an error
/// behind it where it broke off.
pub open spec fn is_whole(sent: Seq<Seq<char>>) -> bool {
    ||| sent == seq!["error"@]
    ||| sent == opening().push("cached"@)
    ||| sent == opening().push("local"@)
    ||| is_answering(sent)
    ||| sent.len() > 0 && sent.last() == "error"@ && is_answering(sent.drop_last())
}

/// What a search has come to: the texts that were searched for, the kind of question
/// that it was taken for, and the fragments that were found.
#[derive(Debug)]
pub struct Searched {
    pub variants: Vec<String>,
    pub intent: String,
    pub found: Vec<SearchFragment>,
}

/// A streamed answer whose search is under way.
pub struct Searching {
    pub request: ChatRequest,
    pub query: ChatQuery,
    pub sent: Ghost<Seq<Seq<char>>>,
}

/// A streamed answer of the model whose question is looked up in the cache.
pub struct LookingUp {
    pub plan: AnswerPlan,
    pub sent: Ghost<Seq<Seq<char>>>,
}

/// A streamed answer that the model is giving.
pub struct Answering {
    pub question: String,
    pub answer: StreamedAnswer,
    pub sent: Ghost<Seq<Seq<char>>>,
}

/// What is done next for a streamed answer.
pub enum StreamNext {
    /// The question is searched for; what is found goes to `Searching::found`.
    Search(Searching),
    /// The question is looked up in the cache; what is there goes to
    /// `LookingUp::looked_up`.
    LookUp(LookingUp),
    /// The model is asked; its answer goes to `Answering`.
    Ask { api_key: String, request: LlmRequest, answering: Answering },
    /// The answer is cached, and the stream is over.
    Store { question: String, answer: String },
    /// The stream is over.
    Stop,
}

/// A turn of a streamed answer: the events that are sent, what is done next, and the
/// names of all events of the stream up to here.
pub struct StreamTurn {
    pub events: Vec<StreamEvent>,
    pub next: StreamNext,
    pub sent: Ghost<Seq<Seq<char>>>,
}

impl StreamTurn {
    /// Whether this turn goes on with a stream that sent the events `before`.
    pub open spec fn goes_on_from(self, before: Seq<Seq<char>>) -> bool {
        &&& self.sent@ == before + names(self.events@)
        &&& match self.next {
            StreamNext::Search(searching) => searching.well_formed() && searching.sent@
                == self.sent@,
            StreamNext::LookUp(looking_up) => looking_up.well_formed() && looking_up.sent@
                == self.sent@,
            StreamNext::Ask { answering, .. } => answering.well_formed() && answering.sent@
                == self.sent@,
            StreamNext::Store { .. } => is_answering(self.sent@),
            StreamNext::Stop => is_whole(self.sent@),
        }
    }

    /// Whether this turn sends the error alone and ends the stream.
    pub open spec fn gives_up(self, message: Seq<char>) -> bool {
        &&& self.events@.len() == 1
        &&& self.events@[0] matches StreamEvent::Error(m) && m@ == message
        &&& self.next is Stop
    }
}

/// The turn that sends an error and ends the stream.
fn give_up(message: String, sent: Ghost<Seq<Seq<char>>>) -> (r: StreamTurn)
    requires
        sent@.len() == 0 || is_answering(sent@),
    ensures
        r.goes_on_from(sent@),
        r.gives_up(message@),
{
    let mut events: Vec<StreamEvent> = Vec::new();
    events.push(StreamEvent::Error(message));
    let ghost all = sent@.push("error"@);
    proof {
        assert(all == sent@ + names(events@));
        assert(sent@.push("error"@).drop_last() =~= sent@);
        if sent@.len() == 0 {
            assert(all == seq!["error"@]);
        }
    }
    StreamTurn { events, next: StreamNext::Stop, sent: Ghost(all) }
}

/// Begins a streamed answer: only a user gets one, and only to a question that is not
/// blank.
pub fn begin_stream(
    user: Result<AuthUser, AppError>,
    request: ChatRequest,
    config: &Config,
) -> (r: StreamTurn)
    ensures
        r.goes_on_from(Seq::empty()),
        match user {
            Err(e) => r.gives_up(e.message@),
            Ok(_) => if text::trimmed(request.question@).len() == 0 {
                r.gives_up("La pregunta no puede estar vacía."@)
            } else {
                &&& r.events@.len() == 0
                &&& r.next matches StreamNext::Search(searching)
                &&& searching.request == request
                &&& searching.query.question@ == text::trimmed(request.question@)
                &&& searching.query.top_k == fragment_count(request.top_k, config.default_top_k)
            },
        },
{
    let ghost nothing: Seq<Seq<char>> = Seq::empty();
    match user {
        Ok(_) => {},
        Err(e) => {
            return give_up(e.message, Ghost(nothing));
        },
    }
    match begin_chat(&request, config) {
        Ok(query) => {
            let events: Vec<StreamEvent> = Vec::new();
            assert(nothing + names(events@) == nothing);
            StreamTurn {
                events,
                next: StreamNext::Search(Searching { request, query, sent: Ghost(nothing) }),
                sent: Ghost(nothing),
            }
        },
        Err(e) => give_up(e.message, Ghost(nothing)),
    }
}

impl Searching {
    /// Nothing was sent yet.
    pub open spec fn well_formed(self) -> bool {
        self.sent@.len() == 0
    }

    /// The search is over: the stream opens with what was searched for and with the
    /// fragments that were chosen. Where the model is not to answer, the local answer
    /// ends it; a search that failed ends it too.
    pub fn found(self, config: &Config, outcome: Result<Searched, String>) -> (r: StreamTurn)
        requires
            self.well_formed(),
            outcome matches Ok(searched) ==> mergeable(
                search::held(searched.found@),
                self.request.selected_sources,
            ),
        ensures
            r.goes_on_from(self.sent@),
            match outcome {
                Err(message) => r.gives_up(message@),
                Ok(searched) => {
                    let chosen = search::chosen(
                        search::held(searched.found@),
                        self.request.selected_sources,
                    );
                    &&& r.events@.len() >= 2
                    &&& r.events@[0] matches StreamEvent::Variants { variants, intent }
                    &&& variants == searched.variants
                    &&& intent == searched.intent
                    &&& r.events@[1] matches StreamEvent::Fragments(list)
                    &&& search::held(list@) == chosen
                    &&& if self.request.use_llm != Some(false) && config.openrouter_api_key is Some {
                        &&& r.events@.len() == 2
                        &&& r.next matches StreamNext::LookUp(looking_up)
                        &&& looking_up.plan.plans(
                            self.query,
                            self.request,
                            *config,
                            searched.found@,
                        )
                    } else {
                        &&& r.events@.len() == 3
                        &&& r.events@[2] matches StreamEvent::Local(answer)
                        &&& answer@ == search::local_response(
                            self.query.question@,
                            search::merged(chosen),
                        )
                        &&& r.next is Stop
                    }
                },
            },
    {
        let searched: Searched = match outcome {
            Ok(searched) => searched,
            Err(message) => {
                return give_up(message, self.sent);
            },
        };
        let plan: AnswerPlan = plan_answer(self.query, &self.request, config, searched.found);
        let mut events: Vec<StreamEvent> = Vec::new();
        events.push(
            StreamEvent::Variants { variants: searched.variants, intent: searched.intent },
        );
        events.push(fragments_event(&plan));
        assert(self.sent@ + names(events@) == opening());
        if plan.ask_model {
            return StreamTurn {
                events,
                next: StreamNext::LookUp(LookingUp { plan, sent: Ghost(opening()) }),
                sent: Ghost(opening()),
            };
        }
        events.push(
            StreamEvent::Local(build_local_response(plan.question.as_str(), &plan.context)),
        );
        let ghost all = opening().push("local"@);
        assert(self.sent@ + names(events@) == all);
        StreamTurn { events, next: StreamNext::Stop, sent: Ghost(all) }
    }
}

impl LookingUp {
    /// The stream has opened, and the model is to answer.
    pub open spec fn well_formed(self) -> bool {
        self.sent@ == opening() && self.plan.ask_model
    }

    /// What the cache holds ends the stream. Where it holds nothing the model is asked,
    /// or, without evidence, the answer says so.
    pub fn looked_up(self, config: &Config, cached: Option<String>) -> (r: StreamTurn)
        requires
            self.well_formed(),
        ensures
            r.goes_on_from(self.sent@),
            match (cached, config.openrouter_api_key) {
                (Some(c), _) => {
                    &&& r.events@.len() == 1
                    &&& r.events@[0] matches StreamEvent::Cached(answer)
                    &&& answer@ == c@
                    &&& r.next is Stop
                },
                (None, None) => r.gives_up("OPENROUTER_API_KEY no está configurada"@),
                (None, Some(key)) => if self.plan.context@.len() == 0 {
                    &&& r.events@.len() == 1
                    &&& r.events@[0] matches StreamEvent::Answer(said)
                    &&& said@ == llm::NO_EVIDENCE_STREAMED@
                    &&& r.next matches StreamNext::Store { question, answer }
                    &&& question@ == self.plan.question@
                    &&& answer@ == llm::NO_EVIDENCE_STREAMED@
                } else {
                    &&& r.events@.len() == 0
                    &&& r.next matches StreamNext::Ask { api_key, request, answering }
                    &&& api_key@ == key@
                    &&& request.asks(
                        *config,
                        self.plan.question@,
                        search::held(self.plan.context@),
                        true,
                    )
                    &&& answering.question@ == self.plan.question@
                    &&& answering.answer.full@.len() == 0
                },
            },
    {
        let mut events: Vec<StreamEvent> = Vec::new();
        match next_stream_step(&self.plan, config, cached) {
            StreamStep::Finish(event) => match event {
                StreamEvent::Error(message) => give_up(message, self.sent),
                event => {
                    events.push(event);
                    let ghost all = opening().push("cached"@);
                    assert(self.sent@ + names(events@) == all);
                    StreamTurn { events, next: StreamNext::Stop, sent: Ghost(all) }
                },
            },
            StreamStep::Say(answer) => {
                events.push(StreamEvent::Answer(answer.clone()));
                let ghost all = opening().push("answer"@);
                assert(self.sent@ + names(events@) == all);
                StreamTurn {
                    events,
                    next: StreamNext::Store { question: self.plan.question, answer },
                    sent: Ghost(all),
                }
            },
            StreamStep::Ask { api_key, request } => {
                assert(self.sent@ + names(events@) == opening());
                let answering: Answering = Answering {
                    question: self.plan.question,
                    answer: StreamedAnswer::begin(),
                    sent: self.sent,
                };
                StreamTurn {
                    events,
                    next: StreamNext::Ask { api_key, request, answering },
                    sent: self.sent,
                }
            },
        }
    }
}

impl Answering {
    /// The stream has opened and sent the answer so far, which did not break off.
    pub open spec fn well_formed(self) -> bool {
        is_answering(self.sent@) && !self.answer.failed
    }

    /// The model did not take the question.
    pub fn refused(self, error: &str) -> (r: StreamTurn)
        requires
            self.well_formed(),
        ensures
            r.goes_on_from(self.sent@),
            r.gives_up(error@),
    {
        give_up(owned(error), self.sent)
    }

    /// The model goes on with `delta`.
    pub fn said(&mut self, delta: &str) -> (r: StreamEvent)
        requires
            old(self).well_formed(),
        ensures
            final(self).well_formed(),
            final(self).question == old(self).question,
            final(self).answer.full@ == old(self).answer.full@ + delta@,
            final(self).sent@ == old(self).sent@.push(r.name()),
            r matches StreamEvent::Answer(text) && text@ == old(self).answer.full@ + delta@,
    {
        let event: StreamEvent = self.answer.say(delta);
        self.sent = Ghost(self.sent@.push("answer"@));
        event
    }

    /// The answer breaks off: it is shown as far as it went, then the error, and nothing
    /// is cached.
    pub fn broke_off(self, error: &str) -> (r: StreamTurn)
        requires
            self.well_formed(),
        ensures
            r.goes_on_from(self.sent@),
            r.next is Stop,
            r.events@.len() == (if self.answer.full@.len() == 0 {
                1int
            } else {
                2int
            }),
            r.events@.last() matches StreamEvent::Error(message) && message@ == error@,
            self.answer.full@.len() > 0 ==> (r.events@[0] matches StreamEvent::Answer(text)
                && text@ == self.answer.full@),
    {
        let mut answer: StreamedAnswer = self.answer;
        let events: Vec<StreamEvent> = answer.fail(error);
        let ghost all = self.sent@ + names(events@);
        proof {
            assert(names(events@).last() == "error"@);
            assert(all.last() == "error"@);
            let init = all.drop_last();
            assert forall|i: int| 2 <= i < init.len() implies #[trigger] init[i] == "answer"@ by {
                if i < self.sent@.len() {
                    assert(init[i] == self.sent@[i]);
                } else {
                    assert(init[i] == names(events@)[0]);
                }
            }
        }
        StreamTurn { events, next: StreamNext::Stop, sent: Ghost(all) }
    }

    /// The answer is complete, and is cached.
    pub fn ended(self) -> (r: StreamTurn)
        requires
            self.well_formed(),
        ensures
            r.goes_on_from(self.sent@),
            r.events@.len() == 0,
            r.next matches StreamNext::Store { question, answer } && question == self.question
                && answer == self.answer.full,
    {
        let events: Vec<StreamEvent> = Vec::new();
        assert(self.sent@ + names(events@) == self.sent@);
        match self.answer.finish() {
            Some(answer) => StreamTurn {
                events,
                next: StreamNext::Store { question: self.question, answer },
                sent: self.sent,
            },
            None => StreamTurn { events, next: StreamNext::Stop, sent: self.sent },
        }
    }
}

/// The events of a stream come in this order, whatever happens: what was searched for,
/// the fragments, the answer. Only the last may be an error, a cached or a local answer;
/// a stream of a single event is an error.
pub proof fn events_come_in_order(turn: StreamTurn, before: Seq<Seq<char>>)
    requires
        turn.goes_on_from(before),
        turn.next is Store || turn.next is Stop,
    ensures
        turn.sent@.len() > 0,
        turn.sent@.len() == 1 ==> turn.sent@[0] == "error"@,
        turn.sent@.len() > 1 ==> turn.sent@[0] == "variants"@ && turn.sent@[1] == "fragments"@,
        forall|i: int|
            2 <= i < turn.sent@.len() - 1 ==> #[trigger] turn.sent@[i] == "answer"@,
        turn.next is Store ==> turn.sent@.len() > 2 ==> turn.sent@.last() == "answer"@,
{
    let sent = turn.sent@;
    if sent.len() > 1 && !is_answering(sent) && sent.last() == "error"@ && is_answering(
        sent.drop_last(),
    ) {
        let init = sent.drop_last();
        assert(init[0] == sent[0] && init[1] == sent[1]);
        assert forall|i: int| 2 <= i < sent.len() - 1 implies #[trigger] sent[i] == "answer"@ by {
            assert(init[i] == sent[i]);
        }
    }
}

/// The text of an answer after the model has said `deltas`, one after the other.
pub open spec fn said(deltas: Seq<Seq<char>>) -> Seq<char>
    decreases deltas.len(),
{
    if deltas.len() == 0 {
        Seq::empty()
    } else {
        said(deltas.drop_last()) + deltas.last()
    }
}

proof fn lemma_said_concat(a: Seq<Seq<char>>, b: Seq<Seq<char>>)
    ensures
        said(a + b) == said(a) + said(b),
    decreases b.len(),
{
    if b.len() > 0 {
        lemma_said_concat(a, b.drop_last());
        assert((a + b).drop_last() == a + b.drop_last());
        assert(said(a) + (said(b.drop_last()) + b.last()) == (said(a) + said(b.drop_last()))
            + b.last());
    } else {
        assert(a + b == a);
        assert(said(a) + said(b) == said(a));
    }
}

/// The answer does not depend on where, between two characters, the reply of the model
/// is cut on its way: where the reply does not end in the first part, its two parts,
/// read one after the other, say what the whole says.
pub proof fn answer_does_not_depend_on_chunks(a: Seq<char>, b: Seq<char>)
    ensures
        ({
            let one = llm::reading(a);
            let two = llm::reading(one.rest + b);
            if one.done {
                said(llm::reading(a + b).deltas) == said(one.deltas)
            } else {
                said(llm::reading(a + b).deltas) == said(one.deltas) + said(two.deltas)
            }
        }),
{
    llm::chunks_do_not_matter(a, b);
    let one = llm::reading(a);
    let two = llm::reading(one.rest + b);
    lemma_said_concat(one.deltas, two.deltas);
}

// ---------------------------------------------------------------------------
// What an answer keeps of the question and of what was found
// ---------------------------------------------------------------------------

/// Characters are kept one by one: letters, digits and white space as they are, and
/// nothing else.
pub proof fn searchable_characters_are_kept_one_by_one(s: Seq<char>, c: char)
    ensures
        searchable(Seq::empty()) == Seq::<char>::empty(),
        searchable(s.push(c)) == (if text::alphanumeric(c) || text::is_white(c) {
            searchable(s).push(c)
        } else {
            searchable(s)
        }),
{
    assert(s.push(c).drop_last() == s);
}

proof fn lemma_plain_is_searchable(s: Seq<char>)
    requires
        forall|i: int|
            0 <= i < s.len() ==> 'a' <= #[trigger] s[i] <= 'z' || '0' <= s[i] <= '9' || s[i] == ' ',
    ensures
        searchable(s) == s,
    decreases s.len(),
{
    if s.len() > 0 {
        let init = s.drop_last();
        assert forall|i: int| 0 <= i < init.len() implies 'a' <= #[trigger] init[i] <= 'z' || '0'
            <= init[i] <= '9' || init[i] == ' ' by {
            assert(init[i] == s[i]);
        }
        lemma_plain_is_searchable(init);
        let c = s[s.len() - 1];
        assert('a' <= c <= 'z' || '0' <= c <= '9' || c == ' ');
        text::letters_and_digits(c);
        assert(s == init.push(c));
        searchable_characters_are_kept_one_by_one(init, c);
    } else {
        assert(searchable(s) == s);
    }
}

/// A question of small ASCII letters, digits and blanks, without blanks around it, is its
/// own normal form: nothing of it is lost, however long it is.
pub proof fn plain_questions_are_their_own_form(question: Seq<char>)
    requires
        text::trimmed(question) == question,
        forall|i: int|
            0 <= i < question.len() ==> 'a' <= #[trigger] question[i] <= 'z' || '0' <= question[i]
                <= '9' || question[i] == ' ',
    ensures
        normal_question(question) == question,
{
    assert(vstd::utf8::is_ascii_chars(question)) by {
        assert forall|i: int| 0 <= i < question.len() implies '\0' <= #[trigger] question[i]
            <= '\u{7f}' by {
            assert('a' <= question[i] <= 'z' || '0' <= question[i] <= '9' || question[i] == ' ');
        }
    }
    text::ascii_is_lowered_letter_by_letter(question);
    text::folding_is_letter_by_letter(question);
    assert(text::ascii_folded(question) =~= question) by {
        assert forall|i: int| 0 <= i < question.len() implies #[trigger] text::ascii_folded(
            question,
        )[i] == question[i] by {
            assert('a' <= question[i] <= 'z' || '0' <= question[i] <= '9' || question[i] == ' ');
        }
    }
    lemma_plain_is_searchable(question);
}

/// The normal form of a question has, in order, what is kept of its small letters.
pub proof fn normal_questions_are_in_small_letters(question: Seq<char>)
    ensures
        normal_question(question) == searchable(text::lowercase(text::trimmed(question))),
{
}

/// The number of fragments that is asked for is searched for where it is from 1 to 15;
/// beyond that the nearest of these. Where none is asked for the default takes its place.
pub proof fn fragment_counts_are_from_1_to_15(asked: usize, default: usize)
    ensures
        1 <= asked <= 15 ==> fragment_count(Some(asked), default) == asked,
        asked == 0 ==> fragment_count(Some(asked), default) == 1,
        asked > 15 ==> fragment_count(Some(asked), default) == 15,
        fragment_count(None, default) == fragment_count(Some(default), asked),
{
}

/// A plan keeps the question and all that was found as they are; what was chosen are the
/// fragments of the chosen sources, all where none were named. The model is to answer
/// unless the request declines it or there is no key.
pub proof fn plans_keep_what_was_asked_and_found(
    plan: AnswerPlan,
    query: ChatQuery,
    req: ChatRequest,
    config: Config,
    found: Seq<SearchFragment>,
    f: search::Fragment,
)
    requires
        plan.plans(query, req, config, found),
    ensures
        plan.question@ == query.question@,
        plan.found@.len() == found.len(),
        forall|i: int|
            0 <= i < found.len() ==> (#[trigger] plan.found@[i]).source@ == found[i].source@
                && plan.found@[i].text@ == found[i].text@ && plan.found@[i].score == found[i].score
                && plan.found@[i].chunk_index == found[i].chunk_index
                && plan.found@[i].page_number == found[i].page_number,
        req.selected_sources is None ==> search::held(plan.filtered@) == search::held(found),
        req.selected_sources matches Some(sources) ==> (search::held(plan.filtered@).contains(f)
            <==> search::held(found).contains(f) && exists|i: int|
            0 <= i < sources@.len() && (#[trigger] sources@[i])@ == f.source),
        plan.ask_model <==> config.openrouter_api_key is Some && req.use_llm != Some(false),
{
    assert(search::held(plan.found@).len() == plan.found@.len());
    assert(search::held(found).len() == found.len());
    assert forall|i: int| 0 <= i < found.len() implies (#[trigger] plan.found@[i]).source@
        == found[i].source@ && plan.found@[i].text@ == found[i].text@ && plan.found@[i].score
        == found[i].score && plan.found@[i].chunk_index == found[i].chunk_index
        && plan.found@[i].page_number == found[i].page_number by {
        assert(search::held(plan.found@)[i] == search::held(found)[i]);
    }
    if let Some(sources) = req.selected_sources {
        let named = text::views(sources@);
        search::only_chosen_sources(search::held(found), named, f);
        if named.contains(f.source) {
            let i = choose|i: int| 0 <= i < named.len() && named[i] == f.source;
            assert(sources@[i]@ == f.source);
        }
        if exists|i: int| 0 <= i < sources@.len() && (#[trigger] sources@[i])@ == f.source {
            let i = choose|i: int| 0 <= i < sources@.len() && (#[trigger] sources@[i])@ == f.source;
            assert(named[i] == f.source);
        }
    }
}

/// The context of an answer has the whole text, trimmed, of every fragment that was chosen.
pub proof fn every_chosen_text_is_in_the_context(
    plan: AnswerPlan,
    query: ChatQuery,
    req: ChatRequest,
    config: Config,
    found: Seq<SearchFragment>,
    f: search::Fragment,
)
    requires
        plan.plans(query, req, config, found),
        search::held(plan.filtered@).contains(f),
    ensures
        plan.context@.len() == 1,
        exists|front: Seq<char>, rest: Seq<char>|
            plan.context@[0].text@ == #[trigger] (front + text::trimmed(f.text) + rest),
{
    let list = search::held(plan.filtered@);
    let context = search::held(plan.context@);
    assert(context.len() == plan.context@.len());
    assert(context[0].text == plan.context@[0].text@);
    search::the_context_is_the_fragments_in_order(list);
    if list.len() > 1 {
        search::the_context_has_every_text(list, f);
        search::parts_stand_in_the_text(context[0].text, text::trimmed(f.text));
    } else {
        let s = f.text;
        assert(context[0] == f);
        text::trimming_takes_white_ends_away(s);
        let (a, b) = choose|a: int, b: int|
            0 <= a <= b <= s.len() && text::trimmed(s) == #[trigger] s.subrange(a, b) && (forall|
                i: int,
            |
                0 <= i < a || b <= i < s.len() ==> text::is_white(#[trigger] s[i])) && (a < b
                ==> !text::is_white(s[a]) && !text::is_white(s[b - 1]));
        assert(s == s.take(a) + text::trimmed(s) + s.skip(b));
    }
}

/// What the cache holds for a question is the answer to it, as it is: marked as cached in a
/// whole reply, which shows all that was found, and as an event of its own in a stream. It
/// is not stored again.
pub proof fn cached_answers_are_given_as_they_are(
    plan: AnswerPlan,
    config: Config,
    cached: String,
    step: ChatStep,
    stream_step: StreamStep,
)
    requires
        plan.ask_model,
        step.follows(plan, config, Some(cached)),
        stream_step.follows(plan, config, Some(cached)),
    ensures
        step matches ChatStep::Reply(reply) && reply.response.answer@ == "[Cache] "@ + cached@
            && !reply.response.used_llm && reply.response.model is None && !reply.store
            && search::held(reply.response.fragments@) == search::held(plan.found@),
        stream_step matches StreamStep::Finish(StreamEvent::Cached(answer)) && answer@ == cached@,
{
}

/// Where the model is not to answer, the local answer to the question is given, whatever
/// the cache holds, with the fragments that were chosen; it is not stored.
pub proof fn local_answers_are_given_without_the_model(
    plan: AnswerPlan,
    config: Config,
    cached: Option<String>,
    step: ChatStep,
    stream_step: StreamStep,
)
    requires
        !plan.ask_model,
        step.follows(plan, config, cached),
        stream_step.follows(plan, config, cached),
    ensures
        step matches ChatStep::Reply(reply) && reply.response.answer@ == search::local_response(
            plan.question@,
            search::held(plan.context@),
        ) && !reply.response.used_llm && reply.response.model is None && !reply.store
            && search::held(reply.response.fragments@) == search::held(plan.filtered@),
        stream_step matches StreamStep::Finish(StreamEvent::Local(answer)) && answer@
            == search::local_response(plan.question@, search::held(plan.context@)),
{
}

/// Where the model is to answer and the cache holds nothing, the model is asked the
/// question about the whole context, with the configured key; without a context the answer
/// says that there is no evidence.
pub proof fn the_model_is_asked_about_the_context(
    plan: AnswerPlan,
    config: Config,
    key: String,
    step: ChatStep,
    stream_step: StreamStep,
)
    requires
        plan.ask_model,
        config.openrouter_api_key == Some(key),
        step.follows(plan, config, None),
        stream_step.follows(plan, config, None),
    ensures
        plan.context@.len() > 0 ==> (step matches ChatStep::Ask { api_key, request, plan: kept }
            && api_key@ == key@ && kept == plan && request.asks(
            config,
            plan.question@,
            search::held(plan.context@),
            false,
        )),
        plan.context@.len() > 0 ==> (stream_step matches StreamStep::Ask { api_key, request }
            && api_key@ == key@ && request.asks(
            config,
            plan.question@,
            search::held(plan.context@),
            true,
        )),
        plan.context@.len() == 0 ==> (step matches ChatStep::Reply(reply)
            && reply.response.answer@
            == "No se encontró información suficiente en los documentos cargados para responder con fundamento."@
            && reply.response.used_llm && reply.store),
        plan.context@.len() == 0 ==> (stream_step matches StreamStep::Say(answer) && answer@
            == "No se encontró información suficiente en los documentos cargados."@),
{
}

/// The answer of the model is given as it is, with the name of the model and the fragments
/// that were chosen, and is stored.
pub proof fn answers_of_the_model_are_given_as_they_are(
    reply: ChatReply,
    plan: AnswerPlan,
    config: Config,
    answer: Seq<char>,
)
    requires
        reply.answers(plan, config, answer),
    ensures
        reply.response.answer@ == answer,
        reply.response.used_llm,
        reply.response.model is Some && reply.response.model->0@ == config.openrouter_model@,
        search::held(reply.response.fragments@) == search::held(plan.filtered@),
        reply.store,
{
}

/// The page knows the events by these names, one for each.
pub proof fn events_have_their_names(event: StreamEvent)
    ensures
        event.name() == (match event {
            StreamEvent::Variants { .. } => "variants"@,
            StreamEvent::Fragments(_) => "fragments"@,
            StreamEvent::Cached(_) => "cached"@,
            StreamEvent::Local(_) => "local"@,
            StreamEvent::Answer(_) => "answer"@,
            StreamEvent::Error(_) => "error"@,
        }),
{
}

/// What a stream has sent is what it had sent before and the events of the turn, in order.
pub proof fn turns_send_their_events(turn: StreamTurn, before: Seq<Seq<char>>)
    requires
        turn.goes_on_from(before),
    ensures
        turn.sent@.len() == before.len() + turn.events@.len(),
        forall|i: int| 0 <= i < before.len() ==> #[trigger] turn.sent@[i] == before[i],
        forall|i: int|
            0 <= i < turn.events@.len() ==> turn.sent@[before.len() + i] == (
            #[trigger] turn.events@[i]).name(),
{
    assert forall|i: int| 0 <= i < turn.events@.len() implies turn.sent@[before.len() + i] == (
    #[trigger] turn.events@[i]).name() by {
        assert(names(turn.events@)[i] == turn.events@[i].name());
    }
}

/// A stream that is given up ends with the message of the error, as it is.
pub proof fn streams_that_are_given_up_end_with_the_error(turn: StreamTurn, message: Seq<char>)
    requires
        turn.gives_up(message),
    ensures
        turn.events@.len() == 1,
        turn.events@[0] is Error,
        turn.events@[0]->Error_0@ == message,
        turn.next is Stop,
{
}

/// What the model says is put together unchanged: nothing at first, and each text behind
/// those before it.
pub proof fn texts_are_said_one_after_the_other(deltas: Seq<Seq<char>>, delta: Seq<char>)
    ensures
        said(Seq::empty()) == Seq::<char>::empty(),
        said(deltas.push(delta)) == said(deltas) + delta,
{
    assert(deltas.push(delta).drop_last() == deltas);
}

/// Fragments can be merged as long as none has the greatest place that there is, and a
/// single one always.
pub proof fn small_places_can_be_merged(
    found: Seq<search::Fragment>,
    selected: Option<Vec<String>>,
)
    ensures
        (forall|i: int|
            0 <= i < search::chosen(found, selected).len() ==> (#[trigger] search::chosen(
                found,
                selected,
            )[i]).chunk_index < usize::MAX) ==> mergeable(found, selected),
        search::chosen(found, selected).len() <= 1 ==> mergeable(found, selected),
{
}

} // verus!
