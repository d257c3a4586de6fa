use rag_rust_openrouter::documents::{
    chunk_text, decode_text, extract_pdf_text, extract_text, lossy_text, Extraction,
    CHUNK_OVERLAP_WORDS, CHUNK_WORDS,
};
use rag_rust_openrouter::fingerprint::{
    faq_question_hash, file_hash_with_pipeline, key_of_digest, point_id,
};

fn numbered(n: usize) -> String {
    (0..n).map(|i| format!("w{i}")).collect::<Vec<_>>().join(" ")
}

#[test]
fn text_is_utf8_or_windows_1252() {
    assert_eq!(decode_text("año".as_bytes()), "año");
    assert_eq!(decode_text(b"a\xf1o \x80"), "año €");
    assert_eq!(decode_text(b""), "");
    assert_eq!(decode_text(b"\xff\xfea\x00"), "a");
    assert_eq!(decode_text("\u{feff}x".as_bytes()), "\u{feff}x");
}

#[test]
fn malformed_utf8_is_replaced() {
    assert_eq!(lossy_text("año".as_bytes()), "año");
    assert_eq!(lossy_text(b"a\xffb"), "a\u{fffd}b");
}

#[test]
fn extraction_goes_by_the_extension() {
    assert!(matches!(extract_text("a/b.TXT", b"hola"), Ok(Extraction::Text(s)) if s == "hola"));
    assert!(matches!(extract_text("b.md", b"\xe1"), Ok(Extraction::Text(s)) if s == "á"));
    assert!(matches!(extract_text("b.Pdf", b""), Ok(Extraction::Pdf)));
    assert!(matches!(extract_text("b.DOC", b""), Err(m) if m == "Formato no soportado: doc"));
    assert!(matches!(extract_text("b", b""), Err(m) if m == "Formato no soportado: "));
}

#[test]
fn pdf_text_needs_a_successful_extraction() {
    assert_eq!(extract_pdf_text("x.pdf", true, b"uno\xff"), Ok("uno\u{fffd}".to_string()));
    assert_eq!(
        extract_pdf_text("x.pdf", false, b"uno"),
        Err("pdftotext falló para x.pdf".to_string())
    );
}

#[test]
fn short_texts_are_one_chunk() {
    assert_eq!(chunk_text("", 3, 1), Vec::<String>::new());
    assert_eq!(chunk_text(" \n ", 3, 1), Vec::<String>::new());
    assert_eq!(chunk_text(" uno\n dos ", 3, 1), vec!["uno dos".to_string()]);
    assert_eq!(chunk_text("a b c", 3, 7), vec!["a b c".to_string()]);
}

#[test]
fn long_texts_are_cut_into_overlapping_chunks() {
    let long = "palabra-bastante-larga";
    let text = [long; 7].join(" ");
    let chunks = chunk_text(&text, 3, 1);
    assert_eq!(chunks, vec![[long; 3].join(" "), [long; 3].join(" "), [long; 3].join(" ")]);
}

#[test]
fn short_chunks_of_long_texts_are_dropped() {
    assert_eq!(chunk_text("a b c d", 3, 1), Vec::<String>::new());
    let word = "x".repeat(41);
    assert_eq!(chunk_text(&format!("a b {word}"), 1, 0), vec![word.clone()]);
    let word = "ñ".repeat(20);
    assert_eq!(chunk_text(&format!("a b {word}"), 1, 0), Vec::<String>::new());
    let word = "ñ".repeat(21);
    assert_eq!(chunk_text(&format!("a b {word}"), 1, 0), vec![word.clone()]);
}

#[test]
fn no_word_of_a_document_is_lost() {
    for n in [1, 299, 300, 301, 550, 551, 1000, 1234] {
        let text = numbered(n);
        let chunks = chunk_text(&text, CHUNK_WORDS, CHUNK_OVERLAP_WORDS);
        let mut next = 0;
        for (k, chunk) in chunks.iter().enumerate() {
            let words: Vec<&str> = chunk.split(' ').collect();
            assert!(words.len() <= 300);
            let first: usize = words[0][1..].parse().unwrap();
            assert_eq!(first, if k == 0 { 0 } else { next - 50 });
            for (i, w) in words.iter().enumerate() {
                assert_eq!(*w, format!("w{}", first + i));
            }
            next = first + words.len();
        }
        assert_eq!(next, n);
    }
}

#[test]
fn document_digest_has_the_pipeline_version_in_it() {
    assert_eq!(
        file_hash_with_pipeline(b"hola"),
        "22f1f63901c109f916a03e37b5d913cdbc4f37f426921d9a05a77ee35e895d60"
    );
}

#[test]
fn question_keys_are_16_digits() {
    assert_eq!(faq_question_hash(""), "e3b0c44298fc1c14");
    assert_eq!(faq_question_hash("qué es esto"), "ddb74a30519b5783");
    assert_eq!(
        key_of_digest(&vec![0x00, 0x0f, 0xf0, 0xff, 0x12, 0xab, 0xcd, 0xe9, 0x77]),
        "000ff0ff12abcde9"
    );
}

#[test]
fn point_ids_are_name_based() {
    assert_eq!(point_id("a.txt", "abc", 7), "0acc1a93-d310-5ee1-8cc4-a71605a34648");
}

#[test]
fn different_passages_have_different_ids() {
    let ids = [
        point_id("a.txt", "abc", 1),
        point_id("a.txt", "abc", 11),
        point_id("a.txt:1", "abc", 1),
        point_id("a.txt", "abd", 1),
        point_id("b.txt", "abc", 1),
    ];
    for (i, a) in ids.iter().enumerate() {
        for b in &ids[i + 1..] {
            assert_ne!(a, b);
        }
    }
}

#[test]
fn bytes_of_windows_1252_are_characters() {
    let middle: Vec<u8> = (0x80..=0x9f).collect();
    assert_eq!(
        decode_text(&middle),
        "\u{20ac}\u{81}\u{201a}\u{192}\u{201e}\u{2026}\u{2020}\u{2021}\u{2c6}\u{2030}\u{160}\u{2039}\u{152}\u{8d}\u{17d}\u{8f}\u{90}\u{2018}\u{2019}\u{201c}\u{201d}\u{2022}\u{2013}\u{2014}\u{2dc}\u{2122}\u{161}\u{203a}\u{153}\u{9d}\u{17e}\u{178}"
    );
    let others: Vec<u8> = (0xa0..=0xff).chain(0x00..=0x7f).collect();
    let expected: String = others.iter().map(|b| *b as char).collect();
    assert_eq!(decode_text(&others), expected);
    assert_eq!(decode_text(b"\xff\xfeh\x00i\x00"), "hi");
    assert_eq!(decode_text(b"\xfe\xff\x00h\x00i"), "hi");
    assert_eq!(decode_text(b"\xef\xbb\xbfh\xff"), "h\u{fffd}");
}
