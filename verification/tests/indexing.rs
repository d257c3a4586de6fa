use rag_rust_openrouter::config::{Config, Variables};
use rag_rust_openrouter::fingerprint::{file_hash_with_pipeline, point_id};
use rag_rust_openrouter::indexing::{
    begin_file, begin_pdf, manifest_has_same_hash, modified_epoch, FileIndexing, FileStep,
    IndexFileOutcome, IndexRun, IndexSummary,
};
use rag_rust_openrouter::search::search_hits;

fn config() -> Config {
    Config::from_env(Variables {
        docs_dir: None,
        state_dir: None,
        qdrant_url: None,
        qdrant_collection: None,
        openrouter_api_key: None,
        openrouter_model: None,
        openrouter_max_tokens: None,
        embedding_dimension: None,
        embedding_batch_size: None,
        index_interval_seconds: None,
        default_top_k: None,
        app_host: None,
        app_port: None,
        admin_username: None,
        admin_password: None,
        auth_salt: None,
        session_hours: None,
    })
}

fn s(text: &str) -> String {
    text.to_string()
}

#[test]
fn same_digest_means_unchanged() {
    assert!(manifest_has_same_hash(&Some(s("x")), "x"));
    assert!(!manifest_has_same_hash(&Some(s("x")), "y"));
    assert!(!manifest_has_same_hash(&None, "x"));
}

#[test]
fn modification_times_are_seconds() {
    assert_eq!(modified_epoch(Some(1700000000)), 1700000000);
    assert_eq!(modified_epoch(None), 0);
    assert_eq!(modified_epoch(Some(u64::MAX)), -1);
}

#[test]
fn unchanged_files_are_skipped() {
    let hash = file_hash_with_pipeline(b"hola");
    assert!(matches!(begin_file(&config(), "d/a.txt", "a.txt", b"hola", &Some(hash.clone())), FileStep::Skip));
    assert!(matches!(begin_file(&config(), "d/a.doc", "a.doc", b"hola", &Some(hash)), FileStep::Skip));
}

#[test]
fn changed_files_are_indexed_by_kind() {
    match begin_file(&config(), "d/a.txt", "a.txt", b" uno  dos ", &None) {
        FileStep::Store(file) => {
            assert_eq!(file.source, "a.txt");
            assert_eq!(file.hash, file_hash_with_pipeline(b" uno  dos "));
            assert_eq!(file.chunks, vec![s("uno dos")]);
            assert_eq!((file.next, file.total, file.batch), (0, 0, 16));
            assert_eq!(file.pages, vec![None]);
        }
        _ => panic!("not stored"),
    }
    match begin_file(&config(), "d/a.pdf", "a.pdf", b"%PDF", &Some(s("otro"))) {
        FileStep::ExtractPdf(hash) => assert_eq!(hash, file_hash_with_pipeline(b"%PDF")),
        _ => panic!("not extracted"),
    }
    match begin_file(&config(), "d/a.exe", "a.exe", b"", &None) {
        FileStep::Fail(message) => assert_eq!(message, "Formato no soportado: exe"),
        _ => panic!("not refused"),
    }
}

#[test]
fn pdfs_are_indexed_from_what_was_extracted() {
    let file = begin_pdf(&config(), "d/a.pdf", "a.pdf", "h", true, b"tres\ncuatro").ok().unwrap();
    assert_eq!(file.chunks, vec![s("tres cuatro")]);
    assert_eq!(file.hash, "h");
    assert_eq!(
        begin_pdf(&config(), "d/a.pdf", "a.pdf", "h", false, b"").err().unwrap(),
        "pdftotext falló para d/a.pdf"
    );
}

#[test]
fn batches_have_the_configured_size() {
    let text = (0..1600).map(|i| format!("w{i}")).collect::<Vec<_>>().join(" ");
    let mut file = FileIndexing::begin("a.txt", "abc", &text, false, 4);
    let n = file.chunks.len();
    assert_eq!(n, 7);
    let chunks = file.chunks.clone();
    let mut seen = 0;
    let mut sizes = Vec::new();
    while let Some(batch) = file.next_passages() {
        for (i, passage) in batch.iter().enumerate() {
            assert_eq!(*passage, format!("passage: {}", chunks[seen + i]));
        }
        sizes.push(batch.len());
        let points = file.store(batch.len());
        for p in points {
            assert_eq!(p.chunk_index, seen);
            assert_eq!(p.text, chunks[seen]);
            assert_eq!(p.id, point_id("a.txt", "abc", seen));
            assert_eq!((p.source.as_str(), p.hash.as_str()), ("a.txt", "abc"));
            seen += 1;
        }
    }
    assert_eq!(sizes, vec![4, 3]);
    assert_eq!((seen, file.total), (n, n));
}

#[test]
fn only_passages_with_a_vector_are_stored() {
    let mut file = FileIndexing::begin("a.txt", "abc", "uno dos", false, 16);
    assert_eq!(file.store(0).len(), 0);
    assert_eq!((file.next, file.total), (1, 0));
    assert!(file.next_passages().is_none());
}

#[test]
fn summary_starts_empty() {
    let sum = IndexSummary::default();
    assert_eq!(
        (sum.scanned_files, sum.indexed_files, sum.skipped_files, sum.deleted_files, sum.chunks_indexed),
        (0, 0, 0, 0, 0)
    );
    assert!(sum.errors.is_empty());
}

#[test]
fn every_scanned_file_is_accounted_for() {
    let mut run = IndexRun::begin();
    run.record(s("a.txt"), Ok(IndexFileOutcome::Indexed(5)));
    run.record(s("b.txt"), Ok(IndexFileOutcome::Skipped));
    run.record(s("c.txt"), Err(s("no se pudo")));
    run.record(s("d.txt"), Ok(IndexFileOutcome::Indexed(2)));
    assert_eq!(run.summary.scanned_files, 4);
    assert_eq!(run.summary.indexed_files, 2);
    assert_eq!(run.summary.skipped_files, 1);
    assert_eq!(run.summary.chunks_indexed, 7);
    assert_eq!(run.summary.errors, vec![s("c.txt: no se pudo")]);
    assert_eq!(run.seen.len(), 4);
}

#[test]
fn unseen_documents_are_removed() {
    let mut run = IndexRun::begin();
    run.record(s("b"), Ok(IndexFileOutcome::Skipped));
    let stale = run.stale(&vec![s("a"), s("b"), s("c")]);
    assert_eq!(stale, vec![s("a"), s("c")]);
    for _ in &stale {
        run.removed();
    }
    assert_eq!(run.summary.deleted_files, 2);
    assert_eq!(run.summary.scanned_files, 1);
}

#[test]
fn indexed_files_are_skipped_the_next_time() {
    let stored = match begin_file(&config(), "/d/a.md", "a.md", b"hola", &None) {
        FileStep::Store(file) => file.hash,
        _ => panic!("not stored"),
    };
    assert!(matches!(begin_file(&config(), "/d/a.md", "a.md", b"hola", &Some(stored)), FileStep::Skip));
    let digest = match begin_file(&config(), "/d/a.pdf", "a.pdf", b"%PDF", &None) {
        FileStep::ExtractPdf(hash) => hash,
        _ => panic!("not extracted"),
    };
    assert!(matches!(begin_file(&config(), "/d/a.pdf", "a.pdf", b"%PDF", &Some(digest)), FileStep::Skip));
}

#[test]
fn stored_passages_are_found_again() {
    let mut file = FileIndexing::begin("a.txt", "abc", "\x0c hola \"mundo\"", true, 16);
    let point = file.store(1).pop().unwrap();
    let mut payload = serde_json::Map::new();
    payload.insert(s("source"), point.source.clone().into());
    payload.insert(s("chunk_index"), point.chunk_index.into());
    payload.insert(s("page_number"), point.page_number.into());
    payload.insert(s("text"), point.text.clone().into());
    let mut item = serde_json::Map::new();
    item.insert(s("payload"), payload.into());
    let mut reply = serde_json::Map::new();
    reply.insert(s("result"), vec![serde_json::Value::from(item)].into());
    let body = serde_json::to_vec(&serde_json::Value::from(reply)).unwrap();
    let hit = search_hits(&body).unwrap().pop().unwrap();
    assert_eq!((hit.page_number, point.page_number), (Some(2), Some(2)));
    assert_eq!((hit.source, hit.chunk_index, hit.text), (point.source, point.chunk_index, point.text));
}

#[test]
fn passages_of_a_pdf_keep_their_page() {
    let page = |from: usize, to: usize| (from..to).map(|i| format!("palabra{i}")).collect::<Vec<_>>().join(" ");
    let stdout = format!("{}\x0c\n\x0c{}\x0c{}\x0c", page(0, 240), page(240, 260), page(260, 700));
    let mut file = begin_pdf(&config(), "d/a.pdf", "a.pdf", "h", true, stdout.as_bytes()).ok().unwrap();
    assert_eq!(file.pages, vec![Some(1), Some(3), Some(4)]);
    let points = file.store(3);
    assert!(points[1].text.starts_with("palabra250 "));
    assert_eq!(points[1].page_number, Some(3));
}

#[test]
fn a_second_run_over_unchanged_files_skips_them_all() {
    let files: Vec<(&str, &[u8])> = vec![("a.txt", b"uno"), ("b.md", b"dos"), ("c.pdf", b"%PDF")];
    let mut stored = Vec::new();
    for (name, bytes) in &files {
        match begin_file(&config(), name, name, bytes, &None) {
            FileStep::Store(file) => stored.push(file.hash),
            FileStep::ExtractPdf(hash) => stored.push(hash),
            _ => panic!("not indexed"),
        }
    }
    let mut run = IndexRun::begin();
    for ((name, bytes), hash) in files.iter().zip(&stored) {
        assert!(matches!(begin_file(&config(), name, name, bytes, &Some(hash.clone())), FileStep::Skip));
        run.record(s(name), Ok(IndexFileOutcome::Skipped));
    }
    assert!(run.stale(&vec![s("a.txt"), s("b.md"), s("c.pdf")]).is_empty());
    let sum = run.summary;
    assert_eq!((sum.scanned_files, sum.skipped_files, sum.indexed_files, sum.deleted_files, sum.chunks_indexed), (3, 3, 0, 0, 0));
    assert!(sum.errors.is_empty());
}
