use rag_rust_openrouter::search::{
    bits_of_score, build_local_response, filter_fragments_by_sources, is_countable,
    merge_fragments_as_single_context, query_text, read_hits, score_of_bits, search_hits,
    sort_fragments, SearchFragment, HIGHEST_SCORE, LOWEST_SCORE, NOTHING_FOUND,
};

fn fragment(score: f32, source: &str, chunk_index: usize, text: &str) -> SearchFragment {
    SearchFragment {
        score: score_of_bits(score.to_bits()),
        source: source.to_string(),
        chunk_index,
        page_number: None,
        text: text.to_string(),
    }
}

fn score(f: &SearchFragment) -> f32 {
    f32::from_bits(bits_of_score(f.score))
}

#[test]
fn scores_keep_the_order_of_the_numbers() {
    let list = [f32::NEG_INFINITY, f32::MIN, -1.5, -1.0e-40, -0.0, 0.0, 1.0e-40, 0.25, 0.5, 1.0, f32::MAX, f32::INFINITY];
    for a in list {
        assert_eq!(f32::from_bits(bits_of_score(score_of_bits(a.to_bits()))).to_bits(), a.to_bits());
        for b in list {
            let (x, y) = (score_of_bits(a.to_bits()), score_of_bits(b.to_bits()));
            assert_eq!(x < y, a.total_cmp(&b).is_lt());
        }
    }
    assert_eq!(LOWEST_SCORE, score_of_bits(f32::MIN.to_bits()));
}

#[test]
fn questions_are_marked_as_queries() {
    assert_eq!(query_text("¿qué?"), "query: ¿qué?");
}

#[test]
fn hits_have_defaults_for_what_is_missing() {
    let body = br#"{"result":[
        {"score":0.5,"payload":{"source":"a.txt","chunk_index":3,"page_number":35,"text":"hola"}},
        {"score":"x","payload":{"source":7,"chunk_index":-1,"text":null}},
        {"score":2},
        5
    ]}"#;
    let hits = search_hits(body).unwrap();
    assert_eq!(hits.len(), 4);
    assert_eq!(hits[0].score.as_deref(), Some("0.5"));
    assert_eq!((hits[0].page_number, hits[1].page_number), (Some(35), None));
    assert_eq!((hits[0].source.as_str(), hits[0].chunk_index, hits[0].text.as_str()), ("a.txt", 3, "hola"));
    assert_eq!(hits[1].score, None);
    assert_eq!((hits[1].source.as_str(), hits[1].chunk_index, hits[1].text.as_str()), ("sin_fuente", 0, ""));
    assert_eq!(hits[2].score.as_deref(), Some("2"));
    assert_eq!(hits[2].source, "sin_fuente");
    assert_eq!(hits[3].score, None);
    assert_eq!(hits[3].source, "sin_fuente");
}

#[test]
fn replies_without_a_result_have_no_hits() {
    assert_eq!(search_hits(b"{}").unwrap().len(), 0);
    assert_eq!(search_hits(b"[1]").unwrap().len(), 0);
    assert_eq!(search_hits(br#"{"result":{"a":1}}"#).unwrap().len(), 0);
    assert!(search_hits(b"nada").is_none());
    let value: serde_json::Value = serde_json::from_str(r#"{"result":[{}]}"#).unwrap();
    assert_eq!(read_hits(&value).len(), 1);
}

#[test]
fn a_hit_becomes_a_fragment() {
    let hit = search_hits(br#"{"result":[{"score":0.75,"payload":{"source":"s","chunk_index":1,"text":"t"}}]}"#)
        .unwrap()
        .pop()
        .unwrap();
    let number: f32 = hit.score.as_deref().unwrap().parse::<f64>().unwrap() as f32;
    let f = hit.into_fragment(number.to_bits());
    assert_eq!(score(&f), 0.75);
    assert_eq!((f.source.as_str(), f.chunk_index, f.text.as_str()), ("s", 1, "t"));
}

#[test]
fn only_chosen_sources_stay() {
    let list = vec![fragment(0.1, "a", 0, "x"), fragment(0.2, "b", 1, "y"), fragment(0.3, "a", 2, "z")];
    let texts = |v: Vec<SearchFragment>| v.into_iter().map(|f| f.text).collect::<Vec<_>>();
    assert_eq!(texts(filter_fragments_by_sources(&list, &None)), ["x", "y", "z"]);
    assert!(texts(filter_fragments_by_sources(&list, &Some(vec![]))).is_empty());
    assert_eq!(texts(filter_fragments_by_sources(&list, &Some(vec!["a".to_string()]))), ["x", "z"]);
    assert!(texts(filter_fragments_by_sources(&list, &Some(vec!["A".to_string()]))).is_empty());
}

#[test]
fn fragments_are_sorted_stably() {
    let list = vec![
        fragment(0.0, "b", 1, "1"),
        fragment(0.0, "a", 9, "2"),
        fragment(0.0, "b", 0, "3"),
        fragment(0.0, "a", 9, "4"),
        fragment(0.0, "a", 10, "5"),
    ];
    let order: Vec<String> = sort_fragments(&list).into_iter().map(|f| f.text).collect();
    assert_eq!(order, ["2", "4", "5", "3", "1"]);
}

#[test]
fn one_fragment_is_its_own_context() {
    let none = merge_fragments_as_single_context(&vec![]);
    assert_eq!(none.len(), 0);
    let one = merge_fragments_as_single_context(&vec![fragment(0.5, "a", usize::MAX, " t ")]);
    assert_eq!(one.len(), 1);
    assert_eq!(one[0].text, " t ");
    assert_eq!(one[0].chunk_index, usize::MAX);
}

#[test]
fn several_fragments_become_one_context() {
    let list = vec![
        fragment(0.5, "b.txt", 0, " segundo "),
        fragment(0.9, "a.txt", 4, "primero\n"),
        fragment(0.7, "a.txt", 11, "otro"),
    ];
    let merged = merge_fragments_as_single_context(&list);
    assert_eq!(merged.len(), 1);
    assert_eq!(
        merged[0].text,
        "[Fuente: a.txt | fragmento 5]\nprimero\n\n[Fuente: a.txt | fragmento 12]\notro\n\n[Fuente: b.txt | fragmento 1]\nsegundo"
    );
    assert_eq!(merged[0].source, "a.txt + b.txt");
    assert_eq!(merged[0].chunk_index, 0);
    assert_eq!(score(&merged[0]), 0.9);
}

#[test]
fn the_best_score_is_at_least_the_lowest_finite_number() {
    let low = f32::NEG_INFINITY;
    let merged = merge_fragments_as_single_context(&vec![fragment(low, "a", 0, ""), fragment(low, "a", 1, "")]);
    assert_eq!(score(&merged[0]), [low, low].into_iter().fold(f32::MIN, f32::max));
}

#[test]
fn places_can_be_counted_from_one() {
    assert!(is_countable(&vec![fragment(0.0, "a", usize::MAX - 1, "")]));
    assert!(!is_countable(&vec![fragment(0.0, "a", usize::MAX, "")]));
}

#[test]
fn local_answers_quote_two_fragments_and_list_all_sources() {
    let list = vec![fragment(0.1, "b", 0, "uno  dos"), fragment(0.2, "a", 1, "tres"), fragment(0.3, "b", 2, "cuatro")];
    assert_eq!(
        build_local_response("¿qué?", &list),
        "## Respuesta\nSe encontró información relacionada con la consulta en las fuentes recuperadas.\n\n## Consulta\n¿qué?\n\n## Sustento\n- uno dos\n- tres\n\n**Fuente consultada:** a, b"
    );
    assert_eq!(build_local_response("x", &vec![]), NOTHING_FOUND);
    let long = fragment(0.0, "a", 0, &"y".repeat(200));
    assert!(build_local_response("x", &vec![long]).contains(&format!("- {}...\n", "y".repeat(180))));
}

#[test]
fn what_is_not_a_number_is_no_score() {
    for odd in [f32::NAN, -f32::NAN] {
        let merged = merge_fragments_as_single_context(&vec![
            fragment(odd, "a", 0, "x"),
            fragment(0.25, "b", 0, "y"),
        ]);
        assert_eq!(score(&merged[0]), 0.25);
    }
    assert_eq!(HIGHEST_SCORE, score_of_bits(f32::INFINITY.to_bits()));
}

#[test]
fn merged_sources_are_listed_once() {
    let merged = merge_fragments_as_single_context(&vec![
        fragment(0.1, "b", 1, "x"),
        fragment(0.1, "a", 0, "y"),
        fragment(0.1, "b", 0, "z"),
    ]);
    assert_eq!(merged[0].source, "a + b");
}

#[test]
fn the_order_of_finding_does_not_matter() {
    let make = |order: [usize; 3]| {
        let all = [(0.1, "b", 1, "x"), (0.3, "a", 0, "y"), (0.2, "b", 0, "z")];
        let list = order.iter().map(|i| fragment(all[*i].0, all[*i].1, all[*i].2, all[*i].3)).collect();
        let merged = merge_fragments_as_single_context(&list);
        (score(&merged[0]), merged[0].source.clone(), merged[0].text.clone())
    };
    for order in [[0, 2, 1], [1, 0, 2], [1, 2, 0], [2, 0, 1], [2, 1, 0]] {
        assert_eq!(make(order), make([0, 1, 2]));
    }
}
