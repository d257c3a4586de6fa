use rag_rust_openrouter::auth::AuthUser;
use rag_rust_openrouter::chat::{
    begin_chat, begin_stream, cache_entry, fragments_event, is_mergeable, keep_searchable, model_answered,
    next_step, next_stream_step, normalize_question, plan_answer, AnswerPlan, ChatQuery,
    ChatRequest, ChatStep, StreamEvent, Searched, StreamNext, StreamStep,
    StreamedAnswer,
};
use rag_rust_openrouter::config::{Config, Variables};
use rag_rust_openrouter::error::{AppError, Status};
use rag_rust_openrouter::llm::{
    answer_of_reply, call_openrouter, read_answer, read_delta, LlmCall, ReplyReader, NO_CONTENT,
    NO_EVIDENCE, NO_EVIDENCE_STREAMED, SYSTEM_PROMPT,
};
use rag_rust_openrouter::search::SearchFragment;

fn config(key: Option<&str>, max_tokens: &str) -> Config {
    Config::from_env(Variables {
        docs_dir: None,
        state_dir: None,
        qdrant_url: None,
        qdrant_collection: None,
        openrouter_api_key: key.map(|k| k.to_string()),
        openrouter_model: Some("modelo".to_string()),
        openrouter_max_tokens: Some(max_tokens.to_string()),
        embedding_dimension: None,
        embedding_batch_size: None,
        index_interval_seconds: None,
        default_top_k: None,
        app_host: None,
        app_port: None,
        admin_username: None,
        admin_password: None,
        auth_salt: None,
        session_hours: None,
    })
}

fn user() -> AuthUser {
    AuthUser {
        username: "ana".to_string(),
        role: "user".to_string(),
        is_active: true,
        blocked_reason: None,
    }
}

fn request(question: &str) -> ChatRequest {
    ChatRequest {
        question: question.to_string(),
        top_k: None,
        use_llm: None,
        mode: None,
        selected_sources: None,
    }
}

fn fragment(source: &str, chunk_index: usize, text: &str) -> SearchFragment {
    SearchFragment { score: 0, source: source.to_string(), chunk_index, page_number: None, text: text.to_string() }
}

fn query(question: &str) -> ChatQuery {
    ChatQuery { question: question.to_string(), top_k: 6 }
}

fn plan(req: &ChatRequest, cfg: &Config, found: Vec<SearchFragment>) -> AnswerPlan {
    assert!(is_mergeable(&found, &req.selected_sources));
    plan_answer(query("q"), req, cfg, found)
}

#[test]
fn questions_are_normalized_for_the_cache() {
    assert_eq!(normalize_question("  ¿Qué ES esto?\n"), "qué es esto");
    assert_eq!(normalize_question("Hola, mundo!"), "hola mundo");
    assert_eq!(normalize_question("  ! hola"), " hola");
    assert_eq!(normalize_question(""), "");
    assert_eq!(keep_searchable("a-b_c 1.2"), "abc 12");
}

#[test]
fn equivalent_questions_share_their_cache_entry() {
    let a = cache_entry("Hola mundo");
    let b = cache_entry("  HOLA MUNDO ");
    assert_eq!(a.key, "0b894166d3336435");
    assert_eq!(a.key, b.key);
    assert_eq!(a.question, "hola mundo");
    assert_eq!(b.question, "hola mundo");
    assert_eq!(cache_entry(" \tHOLA Mundo?!...\n").key, a.key);
    assert_ne!(cache_entry("otra").key, a.key);
    let accented = cache_entry("¿qué año es");
    assert_eq!(cache_entry("  ¿QUé AñO ES?!\n").key, accented.key);
    assert_eq!(accented.question, "qué año es");
}

#[test]
fn blank_questions_are_refused() {
    let e = begin_chat(&request(" \n"), &config(None, "1")).unwrap_err();
    assert_eq!(e.status, Status::BadRequest);
    assert_eq!(e.message, "La pregunta no puede estar vacía.");
}

#[test]
fn the_number_of_fragments_is_between_1_and_15() {
    let q = begin_chat(&request("  hola "), &config(None, "1")).unwrap();
    assert_eq!((q.question.as_str(), q.top_k), ("hola", 6));
    for (asked, default, expected) in [
        (Some(0), 6, 1),
        (Some(1), 6, 1),
        (Some(15), 6, 15),
        (Some(16), 6, 15),
        (None, 0, 1),
        (None, 99, 15),
        (None, 3, 3),
    ] {
        let req = ChatRequest { top_k: asked, ..request("x") };
        let cfg = Config { default_top_k: default, ..config(None, "1") };
        assert_eq!(begin_chat(&req, &cfg).unwrap().top_k, expected);
        match begin_stream(Ok(user()), req, &cfg).next {
            StreamNext::Search(searching) => assert_eq!(searching.query.top_k, expected),
            _ => panic!("not searched"),
        }
    }
}

#[test]
fn the_plan_filters_and_merges() {
    let req = ChatRequest { selected_sources: Some(vec!["a".to_string()]), ..request("q") };
    let p = plan(&req, &config(None, "1"), vec![fragment("b", 0, "x"), fragment("a", 1, "y"), fragment("a", 0, "z")]);
    assert_eq!((p.found.len(), p.filtered.len(), p.context.len()), (3, 2, 1));
    assert_eq!(p.context[0].text, "[Fuente: a | fragmento 1]\nz\n\n[Fuente: a | fragmento 2]\ny");
    assert!(!p.ask_model);
}

#[test]
fn fragments_that_cannot_be_counted_cannot_be_merged() {
    let odd = || vec![fragment("a", usize::MAX, "x"), fragment("b", 0, "y")];
    assert!(!is_mergeable(&odd(), &None));
    assert!(is_mergeable(&odd(), &Some(vec!["b".to_string()])));
    assert!(is_mergeable(&odd(), &Some(vec!["a".to_string()])));
}

#[test]
fn the_model_is_asked_only_with_a_key_and_if_wanted() {
    let with = config(Some("k"), "1");
    let without = config(None, "1");
    for (use_llm, expected) in [(None, true), (Some(true), true), (Some(false), false)] {
        let req = ChatRequest { use_llm, ..request("q") };
        assert_eq!(plan(&req, &with, vec![]).ask_model, expected);
        assert!(!plan(&req, &without, vec![]).ask_model);
    }
}

#[test]
fn without_the_model_the_answer_is_local() {
    let cfg = config(None, "1");
    let p = plan(&request("q"), &cfg, vec![fragment("a", 0, "x")]);
    match next_step(p, &cfg, Some("guardada".to_string())) {
        ChatStep::Reply(reply) => {
            assert!(reply.response.answer.starts_with("## Respuesta\n"));
            assert!(!reply.response.used_llm && !reply.store);
            assert_eq!(reply.response.model, None);
            assert_eq!(reply.response.fragments.len(), 1);
        }
        _ => panic!("not a reply"),
    }
}

#[test]
fn cached_answers_are_marked_and_show_all_fragments() {
    let cfg = config(Some("k"), "1");
    let req = ChatRequest { selected_sources: Some(vec!["a".to_string()]), ..request("q") };
    let p = plan(&req, &cfg, vec![fragment("a", 0, "x"), fragment("b", 0, "y")]);
    match next_step(p, &cfg, Some("guardada".to_string())) {
        ChatStep::Reply(reply) => {
            assert_eq!(reply.response.answer, "[Cache] guardada");
            assert!(!reply.response.used_llm && !reply.store);
            assert_eq!(reply.response.fragments.len(), 2);
        }
        _ => panic!("not a reply"),
    }
}

#[test]
fn the_model_is_asked_where_nothing_is_cached() {
    let cfg = config(Some("k"), "100");
    let p = plan(&request("q"), &cfg, vec![fragment("a.txt", 0, "hola")]);
    match next_step(p, &cfg, None) {
        ChatStep::Ask { api_key, request, plan } => {
            assert_eq!(api_key, "k");
            assert_eq!(request.model, "modelo");
            assert_eq!(request.system_prompt, SYSTEM_PROMPT);
            assert_eq!(
                request.user_prompt,
                "Pregunta del usuario:\nq\n\nEvidencia:\n[Evidencia 1 | fuente: a.txt] hola\n\n\nGenera una respuesta breve y precisa:"
            );
            assert_eq!((request.max_tokens, request.stream, request.timeout_seconds), (100, false, 30));
            let reply = model_answered(plan, &cfg, "respuesta".to_string());
            assert_eq!(reply.response.answer, "respuesta");
            assert!(reply.response.used_llm && reply.store);
            assert_eq!(reply.response.model.as_deref(), Some("modelo"));
            assert_eq!(reply.response.fragments.len(), 1);
        }
        _ => panic!("not asked"),
    }
}

#[test]
fn without_evidence_the_model_is_not_asked() {
    let cfg = config(Some("k"), "1");
    match next_step(plan(&request("q"), &cfg, vec![]), &cfg, None) {
        ChatStep::Reply(reply) => {
            assert_eq!(reply.response.answer, NO_EVIDENCE);
            assert!(reply.response.used_llm && reply.store);
        }
        _ => panic!("not a reply"),
    }
    match next_stream_step(&plan(&request("q"), &cfg, vec![]), &cfg, None) {
        StreamStep::Say(text) => assert_eq!(text, NO_EVIDENCE_STREAMED),
        _ => panic!("not said"),
    }
}

#[test]
fn without_a_key_a_call_is_unavailable() {
    let cfg = config(None, "1");
    assert!(matches!(
        call_openrouter(&cfg, "q", &vec![fragment("a", 0, "x")], false),
        LlmCall::Unavailable(m) if m == "OPENROUTER_API_KEY no está configurada"
    ));
    let p = AnswerPlan { ask_model: true, ..plan(&request("q"), &cfg, vec![]) };
    match next_step(p, &cfg, None) {
        ChatStep::Fail(e) => assert_eq!(e.status, Status::Internal),
        _ => panic!("not refused"),
    }
}

#[test]
fn prompts_show_2500_characters_of_a_fragment() {
    let cfg = config(Some("k"), "5000");
    let list = vec![fragment("a", 0, &"x".repeat(2501)), fragment("b", 1, "y")];
    match call_openrouter(&cfg, "q", &list, true) {
        LlmCall::Ask { request, .. } => {
            assert!(request.user_prompt.contains(&format!(
                "[Evidencia 1 | fuente: a] {}...\n[Evidencia 2 | fuente: b] y\n",
                "x".repeat(2500)
            )));
            assert_eq!((request.max_tokens, request.stream, request.timeout_seconds), (5000, true, 120));
        }
        _ => panic!("not asked"),
    }
}

#[test]
fn stream_steps_follow_the_plan() {
    let cfg = config(Some("k"), "1");
    let p = plan(&request("q"), &cfg, vec![fragment("a", 0, "x")]);
    assert!(matches!(fragments_event(&p), StreamEvent::Fragments(list) if list.len() == 1));
    assert!(matches!(
        next_stream_step(&p, &cfg, Some("c".to_string())),
        StreamStep::Finish(StreamEvent::Cached(c)) if c == "c"
    ));
    assert!(matches!(next_stream_step(&p, &cfg, None), StreamStep::Ask { request, .. } if request.stream));
    let local = plan(&ChatRequest { use_llm: Some(false), ..request("q") }, &cfg, vec![]);
    assert!(matches!(
        next_stream_step(&local, &cfg, None),
        StreamStep::Finish(StreamEvent::Local(a)) if a.starts_with("No se encontró")
    ));
}

#[test]
fn events_have_the_names_that_the_page_knows() {
    assert_eq!(StreamEvent::Variants { variants: vec![], intent: String::new() }.kind(), "variants");
    assert_eq!(StreamEvent::Fragments(vec![]).kind(), "fragments");
    assert_eq!(StreamEvent::Cached(String::new()).kind(), "cached");
    assert_eq!(StreamEvent::Local(String::new()).kind(), "local");
    assert_eq!(StreamEvent::Answer(String::new()).kind(), "answer");
    assert_eq!(StreamEvent::Error(String::new()).kind(), "error");
}

#[test]
fn complete_answers_are_cached() {
    let mut a = StreamedAnswer::begin();
    assert!(matches!(a.say("uno "), StreamEvent::Answer(t) if t == "uno "));
    assert!(matches!(a.say("dos"), StreamEvent::Answer(t) if t == "uno dos"));
    assert_eq!(a.finish().as_deref(), Some("uno dos"));
}

#[test]
fn broken_answers_are_shown_but_not_cached() {
    let mut a = StreamedAnswer::begin();
    a.say("uno");
    let events = a.fail("se cortó");
    assert_eq!(events.len(), 2);
    assert!(matches!(&events[0], StreamEvent::Answer(t) if t == "uno"));
    assert!(matches!(&events[1], StreamEvent::Error(m) if m == "se cortó"));
    assert_eq!(a.finish(), None);
    let mut b = StreamedAnswer::begin();
    assert_eq!(b.fail("x").len(), 1);
    assert_eq!(b.finish(), None);
}

#[test]
fn answers_are_read_from_replies() {
    let body = br#"{"choices":[{"message":{"content":"hola"}},{"message":{"content":"no"}}]}"#;
    assert_eq!(answer_of_reply(body).as_deref(), Some("hola"));
    for body in ["{}", "{\"choices\":[]}", "{\"choices\":{\"0\":{}}}", "{\"choices\":[{\"message\":{\"content\":1}}]}", "3"] {
        assert_eq!(answer_of_reply(body.as_bytes()).as_deref(), Some(NO_CONTENT), "{body}");
    }
    assert_eq!(answer_of_reply(b"{"), None);
    let value: serde_json::Value = serde_json::from_str("{}").unwrap();
    assert_eq!(read_answer(&value), NO_CONTENT);
    assert_eq!(read_delta(&value), None);
}

const STREAM: &str = ": comentario\ndata: {\"choices\":[{\"delta\":{\"content\":\"Ho\"}}]}\r\n\ndata: {\"choices\":[{\"delta\":{\"content\":\"\"}}]}\ndata: {\"choices\":[{\"delta\":{}}]}\ndata: no es json\nevent: x\n  data: {\"choices\":[{\"delta\":{\"content\":\"la ñ\"}}]}  \ndata: [DONE]\ndata: {\"choices\":[{\"delta\":{\"content\":\"tarde\"}}]}\n";

#[test]
fn streamed_replies_are_read_line_by_line() {
    let mut reader = ReplyReader::begin();
    assert_eq!(reader.feed_bytes(STREAM.as_bytes()), vec!["Ho".to_string(), "la ñ".to_string()]);
    assert!(reader.done);
    assert!(reader.feed("data: {\"choices\":[{\"delta\":{\"content\":\"x\"}}]}\n").is_empty());
}

#[test]
fn streamed_replies_may_be_cut_anywhere() {
    let chars: Vec<char> = STREAM.chars().collect();
    for size in [1, 2, 3, 7, 50] {
        let mut reader = ReplyReader::begin();
        let mut deltas = Vec::new();
        for part in chars.chunks(size) {
            let chunk: String = part.iter().collect();
            deltas.extend(reader.feed(&chunk));
        }
        assert_eq!(deltas, vec!["Ho".to_string(), "la ñ".to_string()]);
        assert!(reader.done);
    }
}

#[test]
fn unfinished_lines_wait() {
    let mut reader = ReplyReader::begin();
    assert!(reader.feed("data: {\"choices\":[{\"delta\":{\"content\":\"x\"}}]}").is_empty());
    assert!(!reader.done);
    assert_eq!(reader.feed("\n"), vec!["x".to_string()]);
    assert_eq!(reader.buffer, "");
}

#[test]
fn characters_cut_in_two_are_replaced() {
    let mut reader = ReplyReader::begin();
    let line = "data: {\"choices\":[{\"delta\":{\"content\":\"ñ\"}}]}\n".as_bytes();
    let cut = line.iter().position(|b| *b == 0xc3).unwrap() + 1;
    assert!(reader.feed_bytes(&line[..cut]).is_empty());
    assert_eq!(reader.feed_bytes(&line[cut..]), vec!["\u{fffd}\u{fffd}".to_string()]);
}

fn asked(step: ChatStep) -> (String, String) {
    match step {
        ChatStep::Ask { request, .. } => (request.system_prompt, request.user_prompt),
        _ => panic!("not asked"),
    }
}

#[test]
fn the_model_sees_only_what_was_chosen() {
    let cfg = config(Some("k"), "1");
    let req = ChatRequest { selected_sources: Some(vec!["a".to_string()]), ..request("q") };
    let some = plan(&req, &cfg, vec![fragment("a", 0, "x"), fragment("secreto", 0, "y")]);
    let less = plan(&req, &cfg, vec![fragment("a", 0, "x")]);
    let (one, two) = (asked(next_step(some, &cfg, None)), asked(next_step(less, &cfg, None)));
    assert_eq!(one, two);
    assert!(!one.1.contains("secreto"));
}

#[test]
fn without_a_key_nobody_is_asked() {
    let cfg = config(Some("  "), "1");
    for use_llm in [None, Some(true), Some(false)] {
        for cached in [None, Some("c".to_string())] {
            let req = ChatRequest { use_llm, ..request("q") };
            let p = plan(&req, &cfg, vec![fragment("a", 0, "x")]);
            assert!(matches!(
                next_stream_step(&p, &cfg, cached.clone()),
                StreamStep::Finish(StreamEvent::Local(_))
            ));
            assert!(matches!(next_step(p, &cfg, cached), ChatStep::Reply(r) if !r.response.used_llm && !r.store));
        }
    }
}

fn searched(found: Vec<SearchFragment>) -> Result<Searched, String> {
    Ok(Searched { variants: vec!["q".to_string()], intent: "General".to_string(), found })
}

fn kinds(events: &[StreamEvent]) -> Vec<&'static str> {
    events.iter().map(|e| e.kind()).collect()
}

#[test]
fn streams_open_with_variants_and_fragments() {
    let cfg = config(Some("k"), "1");
    let turn = begin_stream(Ok(user()), request(" q "), &cfg);
    assert!(turn.events.is_empty());
    let StreamNext::Search(searching) = turn.next else { panic!("not searched") };
    let page = SearchFragment { page_number: Some(35), ..fragment("a.pdf", 0, "x") };
    let turn = searching.found(
        &cfg,
        Ok(Searched {
            variants: vec!["q".to_string(), "otra".to_string()],
            intent: "ValuePrice".to_string(),
            found: vec![page],
        }),
    );
    assert_eq!(kinds(&turn.events), ["variants", "fragments"]);
    assert!(matches!(&turn.events[0], StreamEvent::Variants { variants, intent }
        if *variants == ["q", "otra"] && intent == "ValuePrice"));
    assert!(matches!(&turn.events[1], StreamEvent::Fragments(list)
        if list[0].source == "a.pdf" && list[0].page_number == Some(35)));
    let StreamNext::LookUp(looking_up) = turn.next else { panic!("not looked up") };
    let turn = looking_up.looked_up(&cfg, None);
    assert!(turn.events.is_empty());
    let StreamNext::Ask { api_key, request, mut answering } = turn.next else { panic!("not asked") };
    assert_eq!((api_key.as_str(), request.stream), ("k", true));
    assert!(matches!(answering.said("uno "), StreamEvent::Answer(t) if t == "uno "));
    assert!(matches!(answering.said("dos"), StreamEvent::Answer(t) if t == "uno dos"));
    let turn = answering.ended();
    assert!(turn.events.is_empty());
    assert!(matches!(turn.next, StreamNext::Store { question, answer } if question == "q" && answer == "uno dos"));
}

#[test]
fn streams_without_the_model_end_with_a_local_answer() {
    let cfg = config(None, "1");
    let StreamNext::Search(searching) = begin_stream(Ok(user()), request("q"), &cfg).next else {
        panic!("not searched")
    };
    let turn = searching.found(&cfg, searched(vec![]));
    assert_eq!(kinds(&turn.events), ["variants", "fragments", "local"]);
    assert!(matches!(turn.next, StreamNext::Stop));
}

#[test]
fn streams_may_end_early() {
    let cfg = config(Some("k"), "1");
    let search = || match begin_stream(Ok(user()), request("q"), &cfg).next {
        StreamNext::Search(searching) => searching,
        _ => panic!("not searched"),
    };
    let look_up = |found: Vec<SearchFragment>| match search().found(&cfg, searched(found)).next {
        StreamNext::LookUp(looking_up) => looking_up,
        _ => panic!("not looked up"),
    };
    let ask = || match look_up(vec![fragment("a", 0, "x")]).looked_up(&cfg, None).next {
        StreamNext::Ask { answering, .. } => answering,
        _ => panic!("not asked"),
    };
    for (turn, message) in [
        (begin_stream(Err(AppError::unauthorized()), request("q"), &cfg), "Debe iniciar sesión."),
        (begin_stream(Ok(user()), request(" "), &cfg), "La pregunta no puede estar vacía."),
        (search().found(&cfg, Err("sin red".to_string())), "sin red"),
        (ask().refused("401"), "401"),
        (ask().broke_off("se cortó"), "se cortó"),
    ] {
        assert_eq!(turn.events.len(), 1);
        assert!(matches!(&turn.events[0], StreamEvent::Error(m) if m == message));
        assert!(matches!(turn.next, StreamNext::Stop));
    }
    let turn = look_up(vec![]).looked_up(&cfg, Some("c".to_string()));
    assert!(matches!(&turn.events[0], StreamEvent::Cached(c) if c == "c"));
    assert!(matches!(turn.next, StreamNext::Stop));
    let turn = look_up(vec![]).looked_up(&cfg, None);
    assert_eq!(kinds(&turn.events), ["answer"]);
    assert!(matches!(turn.next, StreamNext::Store { answer, .. } if answer == NO_EVIDENCE_STREAMED));
    let mut answering = ask();
    answering.said("uno");
    let turn = answering.broke_off("se cortó");
    assert_eq!(kinds(&turn.events), ["answer", "error"]);
    assert!(matches!(turn.next, StreamNext::Stop));
}
