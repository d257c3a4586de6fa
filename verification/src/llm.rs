//! The language model: what it is asked, and how its reply is read, whole or as it
//! arrives.
use crate::config::Config;
use crate::documents;
use crate::documents::lossy_text;
use crate::json;
use crate::json::Json;
use crate::numbers;
use crate::numbers::push_decimal;
use crate::search;
use crate::search::{Fragment, SearchFragment};
use crate::text;
use crate::text::{from_chars, limit_chars, owned, position_of, same_text, strip_prefix, to_chars, trim};
use vstd::prelude::*;

verus! {

/// How many characters of a fragment the model is shown.
pub const MAX_CHARS_PER_FRAGMENT: usize = 2500;

/// How long a whole reply may take, in seconds.
pub const REPLY_TIMEOUT_SECONDS: u64 = 30;

/// How long a streamed reply may take, in seconds.
pub const STREAM_TIMEOUT_SECONDS: u64 = 120;

/// How the model is told to answer.
pub const SYSTEM_PROMPT: &'static str = "Eres un asistente experto en analisis documental que responde en espanol.\n\nProduce una respuesta breve, precisa y directa con esta estructura:\n\n## Respuesta\nContesta la pregunta en 1-3 frases, sin rodeos.\n\n## Sustento\nIncluye solo 2-3 puntos cortos con la evidencia mas relevante.\n\nReglas:\n- Responde unicamente con base en la evidencia proporcionada.\n- Si la evidencia no alcanza para identificar algo con certeza, dilo explicitamente.\n- Prioriza precision sobre extension.\n- Evita repeticiones, relleno y conclusiones obvias.\n- Usa Markdown simple.";

/// What is answered, whole, where there is no evidence to ask the model about.
pub const NO_EVIDENCE: &'static str = "No se encontró información suficiente en los documentos cargados para responder con fundamento.";

/// What is answered, streamed, where there is no evidence to ask the model about.
pub const NO_EVIDENCE_STREAMED: &'static str = "No se encontró información suficiente en los documentos cargados.";

/// What is answered where the reply of the model has no content.
pub const NO_CONTENT: &'static str = "No se recibió contenido.";

// ---------------------------------------------------------------------------
// The request
// ---------------------------------------------------------------------------

/// One line of evidence, counted from one: where it comes from, and its text, cut
/// after `max` characters.
pub open spec fn evidence_line(place: nat, f: Fragment, max: nat) -> Seq<char> {
    "[Evidencia "@ + numbers::decimal(place) + " | fuente: "@ + f.source + "] "@ + text::limited(
        f.text,
        max,
    ) + "\n"@
}

/// The lines of evidence of the fragments.
pub open spec fn evidence_lines(list: Seq<Fragment>, max: nat) -> Seq<char>
    decreases list.len(),
{
    if list.len() == 0 {
        Seq::empty()
    } else {
        evidence_lines(list.drop_last(), max) + evidence_line(list.len(), list.last(), max)
    }
}

/// What the model is asked: the question and the evidence, and nothing else.
pub open spec fn user_prompt(question: Seq<char>, list: Seq<Fragment>, max: nat) -> Seq<char> {
    "Pregunta del usuario:\n"@ + question + "\n\nEvidencia:\n"@ + evidence_lines(list, max)
        + "\n\nGenera una respuesta breve y precisa:"@
}

/// The lines of evidence of the fragments.
fn evidence(fragments: &Vec<SearchFragment>, max_chars: usize) -> (r: String)
    ensures
        r@ == evidence_lines(search::held(fragments@), max_chars as nat),
{
    let ghost all = search::held(fragments@);
    let mut out: String = String::new();
    let mut i: usize = 0;
    assert(all.take(0) == Seq::<Fragment>::empty());
    while i < fragments.len()
        invariant
            i <= fragments@.len(),
            all == search::held(fragments@),
            out@ == evidence_lines(all.take(i as int), max_chars as nat),
        decreases fragments@.len() - i,
    {
        let f: &SearchFragment = &fragments[i];
        let ghost before = out@;
        out.push_str("[Evidencia ");
        push_decimal(&mut out, i as u64 + 1);
        out.push_str(" | fuente: ");
        out.push_str(f.source.as_str());
        out.push_str("] ");
        let part: String = limit_chars(f.text.as_str(), max_chars);
        out.push_str(part.as_str());
        out.push_str("\n");
        i = i + 1;
        proof {
            assert(all.take(i as int).drop_last() == all.take(i - 1));
            assert(all.take(i as int).last() == f@);
            assert(out@ == before + evidence_line(i as nat, f@, max_chars as nat));
        }
    }
    assert(all.take(i as int) == all);
    out
}

/// A request to the language model.
#[derive(Debug)]
pub struct LlmRequest {
    pub model: String,
    pub system_prompt: String,
    pub user_prompt: String,
    pub max_tokens: u32,
    pub stream: bool,
    pub timeout_seconds: u64,
}

impl LlmRequest {
    /// Whether this asks the configured model the question about the fragments.
    pub open spec fn asks(
        self,
        config: Config,
        question: Seq<char>,
        list: Seq<Fragment>,
        stream: bool,
    ) -> bool {
        &&& self.model@ == config.openrouter_model@
        &&& self.system_prompt@ == SYSTEM_PROMPT@
        &&& self.user_prompt@ == user_prompt(question, list, MAX_CHARS_PER_FRAGMENT as nat)
        &&& self.max_tokens == config.openrouter_max_tokens
        &&& self.stream == stream
        &&& self.timeout_seconds == (if stream {
            STREAM_TIMEOUT_SECONDS
        } else {
            REPLY_TIMEOUT_SECONDS
        })
    }
}

/// What is done to have a question answered by the language model.
pub enum LlmCall {
    /// The model is asked, with the key.
    Ask { api_key: String, request: LlmRequest },
    /// There is nothing to ask about: this is the answer.
    Answer(String),
    /// The model cannot be asked.
    Unavailable(String),
}

/// What is done to have a question answered by the language model, whole or
/// streamed: without a key it is not asked, and without evidence neither.
pub fn call_openrouter(
    config: &Config,
    question: &str,
    fragments: &Vec<SearchFragment>,
    stream: bool,
) -> (r: LlmCall)
    ensures
        match r {
            LlmCall::Ask { api_key, request } => {
                &&& config.openrouter_api_key matches Some(key) && key@ == api_key@
                &&& fragments@.len() > 0
                &&& request.asks(*config, question@, search::held(fragments@), stream)
            },
            LlmCall::Answer(answer) => {
                &&& config.openrouter_api_key is Some
                &&& fragments@.len() == 0
                &&& answer@ == (if stream {
                    NO_EVIDENCE_STREAMED@
                } else {
                    NO_EVIDENCE@
                })
            },
            LlmCall::Unavailable(message) => {
                &&& config.openrouter_api_key is None
                &&& message@ == "OPENROUTER_API_KEY no está configurada"@
            },
        },
{
    let api_key: String = match &config.openrouter_api_key {
        Some(key) => key.clone(),
        None => {
            return LlmCall::Unavailable(owned("OPENROUTER_API_KEY no está configurada"));
        },
    };
    if fragments.len() == 0 {
        return LlmCall::Answer(
            owned(
                if stream {
                    NO_EVIDENCE_STREAMED
                } else {
                    NO_EVIDENCE
                },
            ),
        );
    }
    let mut prompt: String = owned("Pregunta del usuario:\n");
    prompt.push_str(question);
    prompt.push_str("\n\nEvidencia:\n");
    let context: String = evidence(fragments, MAX_CHARS_PER_FRAGMENT);
    prompt.push_str(context.as_str());
    prompt.push_str("\n\nGenera una respuesta breve y precisa:");
    let timeout_seconds: u64 = if stream {
        STREAM_TIMEOUT_SECONDS
    } else {
        REPLY_TIMEOUT_SECONDS
    };
    LlmCall::Ask {
        api_key,
        request: LlmRequest {
            model: config.openrouter_model.clone(),
            system_prompt: owned(SYSTEM_PROMPT),
            user_prompt: prompt,
            max_tokens: config.openrouter_max_tokens,
            stream,
            timeout_seconds,
        },
    }
}

// ---------------------------------------------------------------------------
// A whole reply
// ---------------------------------------------------------------------------

/// The answer in a reply of the model: the content of the message of its first
/// choice.
pub open spec fn answer_in(reply: Json) -> Seq<char> {
    match json::text_of(
        json::member_of(
            json::member_of(json::first_of(reply.member("choices"@)), "message"@),
            "content"@,
        ),
    ) {
        Some(answer) => answer,
        None => NO_CONTENT@,
    }
}

/// The answer in a reply of the model.
pub fn read_answer(reply: &serde_json::Value) -> (r: String)
    ensures
        r@ == answer_in(json::content(*reply)),
{
    let choice: Option<&serde_json::Value> = json::first(json::member(Some(reply), "choices"));
    match json::text(json::member(json::member(choice, "message"), "content")) {
        Some(answer) => owned(answer),
        None => owned(NO_CONTENT),
    }
}

/// The answer in a reply of the model; none where the reply is not JSON.
pub fn answer_of_reply(body: &[u8]) -> (r: Option<String>)
    ensures
        match (json::parsed_json(body@), r) {
            (Some(reply), Some(answer)) => answer@ == answer_in(reply),
            (Some(_), None) => false,
            (None, r) => r is None,
        },
{
    match json::parse_json(body) {
        Some(reply) => Some(read_answer(&reply)),
        None => None,
    }
}

// ---------------------------------------------------------------------------
// A streamed reply
// ---------------------------------------------------------------------------

/// What a line of a streamed reply means.
pub enum Line {
    /// Nothing.
    Nothing,
    /// The reply is complete.
    Done,
    /// The answer goes on with this text.
    Delta(Seq<char>),
}

/// The text by which a part of a streamed reply continues the answer, where it has
/// some.
pub open spec fn delta_in(part: Json) -> Option<Seq<char>> {
    match json::text_of(
        json::member_of(
            json::member_of(json::first_of(part.member("choices"@)), "delta"@),
            "content"@,
        ),
    ) {
        Some(s) => if s.len() > 0 {
            Some(s)
        } else {
            None
        },
        None => None,
    }
}

/// What the data of a line mean: the end of the reply, or a JSON text.
pub open spec fn data_meaning(data: Seq<char>) -> Line {
    if data == "[DONE]"@ {
        Line::Done
    } else {
        match json::parsed_json(vstd::utf8::encode_utf8(data)) {
            Some(part) => match delta_in(part) {
                Some(s) => Line::Delta(s),
                None => Line::Nothing,
            },
            None => Line::Nothing,
        }
    }
}

/// What a line of a streamed reply means: only data count, and they follow `data: `.
pub open spec fn line_meaning(line: Seq<char>) -> Line {
    let t = text::trimmed(line);
    if text::starts_with(t, "data: "@) {
        data_meaning(t.skip("data: "@.len() as int))
    } else {
        Line::Nothing
    }
}

/// What has been read of a streamed reply: the texts that continue the answer, what
/// is left of an unfinished line, and whether the reply is complete.
pub struct Reading {
    pub deltas: Seq<Seq<char>>,
    pub rest: Seq<char>,
    pub done: bool,
}

/// What the lines of `buffer` say, up to the end of the reply or to a line that is
/// not finished.
pub open spec fn reading(buffer: Seq<char>) -> Reading
    decreases buffer.len(),
{
    let n = text::find_char(buffer, '\n') as int;
    if n >= buffer.len() {
        Reading { deltas: Seq::empty(), rest: buffer, done: false }
    } else {
        let rest = buffer.skip(n + 1);
        match line_meaning(buffer.take(n)) {
            Line::Done => Reading { deltas: Seq::empty(), rest, done: true },
            Line::Nothing => reading(rest),
            Line::Delta(s) => {
                let later = reading(rest);
                Reading { deltas: seq![s] + later.deltas, rest: later.rest, done: later.done }
            },
        }
    }
}

/// What a line says, as it is read.
enum Part {
    Nothing,
    Done,
    Delta(String),
}

/// The text by which a part of a streamed reply continues the answer.
pub fn read_delta(part: &serde_json::Value) -> (r: Option<String>)
    ensures
        match r {
            Some(s) => delta_in(json::content(*part)) == Some(s@),
            None => delta_in(json::content(*part)) is None,
        },
{
    let choice: Option<&serde_json::Value> = json::first(json::member(Some(part), "choices"));
    match json::text(json::member(json::member(choice, "delta"), "content")) {
        Some(s) => if s.is_empty() {
            None
        } else {
            Some(owned(s))
        },
        None => None,
    }
}

fn read_line(line: &str) -> (r: Part)
    ensures
        match r {
            Part::Nothing => line_meaning(line@) == Line::Nothing,
            Part::Done => line_meaning(line@) == Line::Done,
            Part::Delta(s) => line_meaning(line@) == Line::Delta(s@),
        },
{
    let t: String = trim(line);
    let data: String = match strip_prefix(t.as_str(), "data: ") {
        Some(data) => data,
        None => {
            return Part::Nothing;
        },
    };
    if same_text(data.as_str(), "[DONE]") {
        return Part::Done;
    }
    match json::parse_json(data.as_str().as_bytes()) {
        Some(part) => match read_delta(&part) {
            Some(s) => Part::Delta(s),
            None => Part::Nothing,
        },
        None => Part::Nothing,
    }
}

/// A streamed reply that is being read: the unfinished line at its end, and whether
/// it is complete.
pub struct ReplyReader {
    pub buffer: String,
    pub done: bool,
}

impl ReplyReader {
    /// Nothing has been read yet.
    pub fn begin() -> (r: Self)
        ensures
            r.buffer@.len() == 0,
            !r.done,
    {
        ReplyReader { buffer: String::new(), done: false }
    }

    /// Reads on with `chunk`: the texts by which the answer goes on. After the end of
    /// the reply nothing more is read.
    pub fn feed(&mut self, chunk: &str) -> (r: Vec<String>)
        ensures
            old(self).done ==> r@.len() == 0 && *final(self) == *old(self),
            !old(self).done ==> {
                let now = reading(old(self).buffer@ + chunk@);
                &&& text::views(r@) == now.deltas
                &&& final(self).done == now.done
                &&& final(self).buffer@ == now.rest
            },
    {
        let mut out: Vec<String> = Vec::new();
        if self.done {
            return out;
        }
        let mut all: String = owned(self.buffer.as_str());
        all.push_str(chunk);
        let chars: Vec<char> = to_chars(all.as_str());
        let n: usize = chars.len();
        let ghost total = reading(all@);
        let mut from: usize = 0;
        let mut done: bool = false;
        proof {
            assert(chars@.skip(0) == all@);
            assert(text::views(out@) + total.deltas == total.deltas);
        }
        loop
            invariant_except_break
                !done,
                ({
                    let later = reading(chars@.skip(from as int));
                    &&& text::views(out@) + later.deltas == total.deltas
                    &&& later.rest == total.rest
                    &&& later.done == total.done
                }),
            invariant
                n == chars@.len(),
                from <= n,
            ensures
                text::views(out@) == total.deltas,
                done == total.done,
                chars@.skip(from as int) == total.rest,
            decreases n - from,
        {
            let ghost buffer = chars@.skip(from as int);
            let at: usize = position_of(&chars, from, '\n');
            if at == n {
                assert(text::views(out@) + Seq::<Seq<char>>::empty() == text::views(out@));
                break;
            }
            let line: String = from_chars(&chars, from, at);
            proof {
                assert(line@ == buffer.take(at - from));
                assert(buffer.skip(at - from + 1) == chars@.skip(at + 1));
            }
            from = at + 1;
            let ghost before = text::views(out@);
            match read_line(line.as_str()) {
                Part::Nothing => {},
                Part::Done => {
                    done = true;
                    assert(before + Seq::<Seq<char>>::empty() == before);
                    break;
                },
                Part::Delta(s) => {
                    out.push(s);
                    proof {
                        let later = reading(chars@.skip(from as int)).deltas;
                        assert(text::views(out@) == before.push(s@));
                        assert(before + (seq![s@] + later) == text::views(out@) + later);
                    }
                },
            }
        }
        self.buffer = from_chars(&chars, from, n);
        assert(self.buffer@ == chars@.skip(from as int));
        self.done = done;
        out
    }

    /// Reads on with the bytes that arrived, decoded on their own.
    pub fn feed_bytes(&mut self, bytes: &[u8]) -> (r: Vec<String>)
        ensures
            old(self).done ==> r@.len() == 0 && *final(self) == *old(self),
            !old(self).done ==> {
                let now = reading(old(self).buffer@ + documents::utf8_lossy(bytes@));
                &&& text::views(r@) == now.deltas
                &&& final(self).done == now.done
                &&& final(self).buffer@ == now.rest
            },
    {
        let chunk: String = lossy_text(bytes);
        self.feed(chunk.as_str())
    }
}

/// What is read does not depend on where, between two characters, the reply is cut into
/// chunks: reading `a` and then `b` gives what reading both at once gives.
pub proof fn chunks_do_not_matter(a: Seq<char>, b: Seq<char>)
    ensures
        ({
            let one = reading(a);
            let two = reading(one.rest + b);
            let both = reading(a + b);
            if one.done {
                both.done && both.deltas == one.deltas
            } else {
                &&& both.deltas == one.deltas + two.deltas
                &&& both.rest == two.rest
                &&& both.done == two.done
            }
        }),
    decreases a.len(),
{
    let n = text::find_char(a, '\n') as int;
    text::lemma_find_char(a, '\n');
    if n < a.len() {
        let whole = a + b;
        assert forall|i: int| 0 <= i < n implies #[trigger] whole[i] != '\n' by {
            assert(whole[i] == a[i]);
        }
        text::lemma_find_char_at(whole, '\n', n as nat);
        assert(whole.take(n) == a.take(n));
        assert(whole.skip(n + 1) == a.skip(n + 1) + b);
        chunks_do_not_matter(a.skip(n + 1), b);
        if let Line::Delta(s) = line_meaning(a.take(n)) {
            let one = reading(a.skip(n + 1));
            let two = reading(one.rest + b);
            assert((seq![s] + one.deltas) + two.deltas == seq![s] + (one.deltas + two.deltas));
        }
    } else {
        assert(Seq::<Seq<char>>::empty() + reading(a + b).deltas == reading(a + b).deltas);
    }
}

/// Chunks of text, one after the other.
pub open spec fn put_together(chunks: Seq<Seq<char>>) -> Seq<char>
    decreases chunks.len(),
{
    if chunks.len() == 0 {
        Seq::empty()
    } else {
        put_together(chunks.drop_last()) + chunks.last()
    }
}

/// What is read of a reply that arrives in chunks: each is read on its own, behind what
/// is left of the one before it, until the reply is complete.
pub open spec fn reading_in_chunks(chunks: Seq<Seq<char>>) -> Reading
    decreases chunks.len(),
{
    if chunks.len() == 0 {
        Reading { deltas: Seq::empty(), rest: Seq::empty(), done: false }
    } else {
        let before = reading_in_chunks(chunks.drop_last());
        if before.done {
            before
        } else {
            let now = reading(before.rest + chunks.last());
            Reading { deltas: before.deltas + now.deltas, rest: now.rest, done: now.done }
        }
    }
}

/// What is read does not depend on how, between characters, the reply is cut into chunks,
/// however many they are: they give what the whole gives.
pub proof fn no_number_of_chunks_matters(chunks: Seq<Seq<char>>)
    ensures
        ({
            let parts = reading_in_chunks(chunks);
            let whole = reading(put_together(chunks));
            &&& parts.deltas == whole.deltas
            &&& parts.done == whole.done
            &&& !parts.done ==> parts.rest == whole.rest
        }),
    decreases chunks.len(),
{
    if chunks.len() > 0 {
        no_number_of_chunks_matters(chunks.drop_last());
        chunks_do_not_matter(put_together(chunks.drop_last()), chunks.last());
    } else {
        assert(text::find_char(Seq::<char>::empty(), '\n') == 0);
    }
}

// ---------------------------------------------------------------------------
// What goes to the model and what comes back
// ---------------------------------------------------------------------------

/// A request goes to the configured model, with the configured limit, and may take 30
/// seconds, or 120 where the reply is streamed.
pub proof fn requests_go_to_the_configured_model(
    request: LlmRequest,
    config: Config,
    question: Seq<char>,
    list: Seq<Fragment>,
    stream: bool,
)
    requires
        request.asks(config, question, list, stream),
    ensures
        request.model@ == config.openrouter_model@,
        request.max_tokens == config.openrouter_max_tokens,
        request.stream == stream,
        stream ==> request.timeout_seconds == 120,
        !stream ==> request.timeout_seconds == 30,
        request.system_prompt@
            == "Eres un asistente experto en analisis documental que responde en espanol.\n\nProduce una respuesta breve, precisa y directa con esta estructura:\n\n## Respuesta\nContesta la pregunta en 1-3 frases, sin rodeos.\n\n## Sustento\nIncluye solo 2-3 puntos cortos con la evidencia mas relevante.\n\nReglas:\n- Responde unicamente con base en la evidencia proporcionada.\n- Si la evidencia no alcanza para identificar algo con certeza, dilo explicitamente.\n- Prioriza precision sobre extension.\n- Evita repeticiones, relleno y conclusiones obvias.\n- Usa Markdown simple."@,
{
}

/// Evidence is shown line by line, in order and counted from one: the source as it is, and
/// the text up to the limit.
pub proof fn evidence_is_shown_line_by_line(list: Seq<Fragment>, f: Fragment, max: nat)
    ensures
        evidence_lines(Seq::empty(), max) == Seq::<char>::empty(),
        evidence_lines(list.push(f), max) == evidence_lines(list, max) + "[Evidencia "@
            + numbers::decimal(list.len() + 1) + " | fuente: "@ + f.source + "] "@ + (
        if f.text.len() <= max {
            f.text
        } else {
            f.text.take(max as int) + "..."@
        }) + "\n"@,
{
    assert(list.push(f).drop_last() == list);
    let before = evidence_lines(list, max);
    let part = text::limited(f.text, max);
    assert(evidence_lines(list.push(f), max) =~= before + "[Evidencia "@ + numbers::decimal(
        list.len() + 1,
    ) + " | fuente: "@ + f.source + "] "@ + part + "\n"@);
}

proof fn lemma_evidence_line(list: Seq<Fragment>, max: nat, i: int)
    requires
        0 <= i < list.len(),
    ensures
        exists|front: Seq<char>, rest: Seq<char>|
            evidence_lines(list, max) == #[trigger] (front + evidence_line(
                (i + 1) as nat,
                list[i],
                max,
            ) + rest),
    decreases list.len(),
{
    let line = evidence_line((i + 1) as nat, list[i], max);
    let init = list.drop_last();
    if i == list.len() - 1 {
        let front = evidence_lines(init, max);
        assert(evidence_lines(list, max) == front + line + Seq::<char>::empty());
    } else {
        lemma_evidence_line(init, max, i);
        let (front, rest) = choose|front: Seq<char>, rest: Seq<char>|
            evidence_lines(init, max) == #[trigger] (front + line + rest);
        let more = rest + evidence_line(list.len(), list.last(), max);
        assert(evidence_lines(list, max) == front + line + more);
    }
}

/// The model is shown the question as it is, first of all, and then every fragment: its
/// source and its text, whole where it has at most 2500 characters and otherwise its first
/// 2500.
pub proof fn the_model_sees_the_question_and_every_fragment(
    request: LlmRequest,
    config: Config,
    question: Seq<char>,
    list: Seq<Fragment>,
    stream: bool,
    i: int,
)
    requires
        request.asks(config, question, list, stream),
        0 <= i < list.len(),
    ensures
        exists|lines: Seq<char>|
            request.user_prompt@ == #[trigger] ("Pregunta del usuario:\n"@ + question
                + "\n\nEvidencia:\n"@ + lines + "\n\nGenera una respuesta breve y precisa:"@),
        list[i].text.len() <= 2500 ==> exists|front: Seq<char>, rest: Seq<char>|
            request.user_prompt@ == #[trigger] (front + "[Evidencia "@ + numbers::decimal(
                (i + 1) as nat,
            ) + " | fuente: "@ + list[i].source + "] "@ + list[i].text + "\n"@ + rest),
        list[i].text.len() > 2500 ==> exists|front: Seq<char>, rest: Seq<char>|
            request.user_prompt@ == #[trigger] (front + "[Evidencia "@ + numbers::decimal(
                (i + 1) as nat,
            ) + " | fuente: "@ + list[i].source + "] "@ + (list[i].text.take(2500) + "..."@)
                + "\n"@ + rest),
{
    let lines = evidence_lines(list, 2500);
    assert(request.user_prompt@ == "Pregunta del usuario:\n"@ + question + "\n\nEvidencia:\n"@
        + lines + "\n\nGenera una respuesta breve y precisa:"@);
    lemma_evidence_line(list, 2500, i);
    let line = evidence_line((i + 1) as nat, list[i], 2500);
    let (a, b) = choose|a: Seq<char>, b: Seq<char>| lines == #[trigger] (a + line + b);
    let front = "Pregunta del usuario:\n"@ + question + "\n\nEvidencia:\n"@ + a;
    let rest = b + "\n\nGenera una respuesta breve y precisa:"@;
    let shown = text::limited(list[i].text, 2500);
    assert(request.user_prompt@ == front + "[Evidencia "@ + numbers::decimal((i + 1) as nat)
        + " | fuente: "@ + list[i].source + "] "@ + shown + "\n"@ + rest);
}

/// The answer in a whole reply is the content of the message of its first choice, exactly
/// as it is, also where it is empty.
pub proof fn answers_are_given_as_they_are(reply: Json, choices: Seq<Json>, message: Json)
    requires
        reply.member("choices"@) == Some(Json::Array(choices)),
        choices.len() > 0,
        choices[0].member("message"@) == Some(message),
    ensures
        message.member("content"@) matches Some(Json::Text(s)) ==> answer_in(reply) == s,
        !(message.member("content"@) matches Some(Json::Text(_))) ==> answer_in(reply)
            == "No se recibió contenido."@,
{
}

/// A reply without a first choice, or whose first choice has no message, has no content.
pub proof fn replies_without_a_message_have_no_content(reply: Json)
    requires
        match reply.member("choices"@) {
            Some(Json::Array(choices)) => choices.len() == 0 || choices[0].member(
                "message"@,
            ) is None,
            _ => true,
        },
    ensures
        answer_in(reply) == "No se recibió contenido."@,
{
}

/// A part of a streamed reply whose first choice has the content `s` continues the answer
/// by exactly `s`, with all its blanks and line ends; only an empty content continues
/// nothing.
pub proof fn deltas_are_read_as_they_are(
    part: Json,
    choices: Seq<Json>,
    delta: Json,
    s: Seq<char>,
)
    requires
        part.member("choices"@) == Some(Json::Array(choices)),
        choices.len() > 0,
        choices[0].member("delta"@) == Some(delta),
        delta.member("content"@) == Some(Json::Text(s)),
    ensures
        s.len() > 0 ==> delta_in(part) == Some(s),
        s.len() == 0 ==> delta_in(part) is None,
{
}

/// Nothing else continues the answer: where there is a text, it is the content of the first
/// choice, and not empty.
pub proof fn deltas_are_contents_of_the_first_choice(part: Json)
    requires
        delta_in(part) is Some,
    ensures
        match part.member("choices"@) {
            Some(Json::Array(choices)) => choices.len() > 0 && (match choices[0].member("delta"@) {
                Some(delta) => delta.member("content"@) == Some(Json::Text(delta_in(part)->0)),
                None => false,
            }),
            _ => false,
        },
        delta_in(part)->0.len() > 0,
{
}

/// A line counts where it is, up to white space around it, `data: ` and something:
/// `[DONE]`, which ends the reply, or a JSON text, which continues the answer by the content
/// that it has.
pub proof fn lines_of_data_count(line: Seq<char>, data: Seq<char>)
    ensures
        text::trimmed(line) == "data: "@ + data && data == "[DONE]"@ ==> line_meaning(line)
            == Line::Done,
        text::trimmed(line) == "data: "@ + data && data != "[DONE]"@ ==> line_meaning(line) == (
        match json::parsed_json(vstd::utf8::encode_utf8(data)) {
            Some(part) => match delta_in(part) {
                Some(s) => Line::Delta(s),
                None => Line::Nothing,
            },
            None => Line::Nothing,
        }),
        (forall|rest: Seq<char>| text::trimmed(line) != #[trigger] ("data: "@ + rest))
            ==> line_meaning(line) == Line::Nothing,
{
    let t = text::trimmed(line);
    let head = "data: "@;
    if t == head + data {
        assert(t.take(head.len() as int) == head);
        assert(t.skip(head.len() as int) == data);
        text::beginnings_are_followed_by_the_rest(t, head);
    }
    if forall|rest: Seq<char>| t != #[trigger] (head + rest) {
        if text::starts_with(t, head) {
            text::beginnings_are_followed_by_the_rest(t, head);
            assert(t == head + t.skip(head.len() as int));
        }
    }
}

/// A streamed reply is read line by line: a line that continues the answer comes before all
/// that the lines behind it say, one that means nothing is passed over, and behind the end
/// of the reply nothing is read. A line that is not ended yet is kept as it is.
pub proof fn replies_are_read_line_by_line(line: Seq<char>, later: Seq<char>)
    requires
        forall|i: int| 0 <= i < line.len() ==> #[trigger] line[i] != '\n',
    ensures
        reading(line).deltas.len() == 0,
        reading(line).rest == line,
        !reading(line).done,
        match line_meaning(line) {
            Line::Delta(s) => {
                &&& reading(line.push('\n') + later).deltas == seq![s] + reading(later).deltas
                &&& reading(line.push('\n') + later).rest == reading(later).rest
                &&& reading(line.push('\n') + later).done == reading(later).done
            },
            Line::Nothing => reading(line.push('\n') + later) == reading(later),
            Line::Done => {
                &&& reading(line.push('\n') + later).deltas.len() == 0
                &&& reading(line.push('\n') + later).rest == later
                &&& reading(line.push('\n') + later).done
            },
        },
{
    let n = line.len() as int;
    let all = line.push('\n') + later;
    assert forall|i: int| 0 <= i < n implies #[trigger] all[i] != '\n' by {
        assert(all[i] == line[i]);
    }
    assert(all[n] == '\n');
    text::lemma_find_char_at(all, '\n', n as nat);
    assert(all.take(n) == line);
    assert(all.skip(n + 1) == later);
    text::lemma_find_char(line, '\n');
    let m = text::find_char(line, '\n') as int;
    if m < line.len() {
        assert(line[m] == '\n');
    }
}

/// Texts put together stand one after the other, unchanged.
pub proof fn texts_are_put_one_after_the_other(parts: Seq<Seq<char>>, part: Seq<char>)
    ensures
        put_together(Seq::empty()) == Seq::<char>::empty(),
        put_together(parts.push(part)) == put_together(parts) + part,
{
    assert(parts.push(part).drop_last() == parts);
}

/// The answer in a streamed reply is the contents of its parts, one after the other and
/// unchanged.
pub proof fn streamed_answers_are_all_contents(
    lines: Seq<Seq<char>>,
    data: Seq<Seq<char>>,
    parts: Seq<Json>,
    choices: Seq<Seq<Json>>,
    deltas: Seq<Json>,
    contents: Seq<Seq<char>>,
)
    requires
        lines.len() == data.len() == parts.len() == choices.len() == deltas.len() == contents.len(),
        forall|k: int, i: int|
            0 <= k < lines.len() && 0 <= i < lines[k].len() ==> #[trigger] lines[k][i] != '\n',
        forall|k: int|
            0 <= k < lines.len() ==> text::trimmed(#[trigger] lines[k]) == "data: "@ + data[k]
                && data[k] != "[DONE]"@ && json::parsed_json(vstd::utf8::encode_utf8(data[k]))
                == Some(parts[k]) && parts[k].member("choices"@) == Some(Json::Array(choices[k]))
                && choices[k].len() > 0 && choices[k][0].member("delta"@) == Some(deltas[k])
                && deltas[k].member("content"@) == Some(Json::Text(contents[k])),
    ensures
        ({
            let reply = reading(
                put_together(Seq::new(lines.len(), |k: int| lines[k].push('\n'))),
            );
            &&& put_together(reply.deltas) == put_together(contents)
            &&& reply.rest.len() == 0
            &&& !reply.done
        }),
    decreases lines.len(),
{
    let all = Seq::new(lines.len(), |k: int| lines[k].push('\n'));
    if lines.len() == 0 {
        assert(all == Seq::<Seq<char>>::empty());
        assert(contents == Seq::<Seq<char>>::empty());
        assert(put_together(all) == Seq::<char>::empty());
        replies_are_read_line_by_line(Seq::empty(), Seq::empty());
        assert(reading(Seq::<char>::empty()).deltas == Seq::<Seq<char>>::empty());
    } else {
        let n = lines.len() - 1;
        let line = lines[n];
        let s = contents[n];
        let init = all.drop_last();
        streamed_answers_are_all_contents(
            lines.drop_last(),
            data.drop_last(),
            parts.drop_last(),
            choices.drop_last(),
            deltas.drop_last(),
            contents.drop_last(),
        );
        assert(init =~= Seq::new(
            lines.drop_last().len(),
            |k: int| lines.drop_last()[k].push('\n'),
        ));
        let one = reading(put_together(init));
        assert(one.rest == Seq::<char>::empty());
        assert(all.last() == line.push('\n'));
        chunks_do_not_matter(put_together(init), line.push('\n'));
        assert(one.rest + line.push('\n') == line.push('\n'));
        assert forall|i: int| 0 <= i < line.len() implies #[trigger] line[i] != '\n' by {
            assert(lines[n][i] != '\n');
        }
        replies_are_read_line_by_line(line, Seq::empty());
        replies_are_read_line_by_line(Seq::empty(), Seq::empty());
        assert(line.push('\n') + Seq::<char>::empty() == line.push('\n'));
        let nothing = reading(Seq::<char>::empty());
        assert(nothing.deltas == Seq::<Seq<char>>::empty());
        assert(text::trimmed(lines[n]) == "data: "@ + data[n]);
        lines_of_data_count(line, data[n]);
        deltas_are_read_as_they_are(parts[n], choices[n], deltas[n], s);
        let two = reading(line.push('\n'));
        assert(contents.drop_last().push(s) == contents);
        texts_are_put_one_after_the_other(contents.drop_last(), s);
        if s.len() > 0 {
            assert(two.deltas == seq![s]);
            assert(one.deltas + two.deltas == one.deltas.push(s));
            texts_are_put_one_after_the_other(one.deltas, s);
        } else {
            assert(one.deltas + two.deltas == one.deltas);
            assert(put_together(contents.drop_last()) + s == put_together(contents.drop_last()));
        }
    }
}

} // verus!
