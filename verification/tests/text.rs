use rag_rust_openrouter::numbers::{parse_signed, parse_unsigned};
use rag_rust_openrouter::order::{is_before, sort_and_dedup};
use rag_rust_openrouter::text::{
    clean_excerpt, is_alphanumeric, is_whitespace, join, limit_chars, replace, split,
    split_whitespace, strip_prefix, to_lowercase, trim, trim_end_matches, word_pages,
};

fn strings(list: &[&str]) -> Vec<String> {
    list.iter().map(|s| s.to_string()).collect()
}

const SAMPLES: [&str; 12] = [
    "",
    " ",
    "hola",
    "  hola  mundo ",
    "\t\n uno\u{3000}dos \u{a0}tres\r\n",
    "a;b; c ;;",
    ";",
    "\u{2003}ñandú\u{85}",
    "sin-espacios",
    "ΑΣ Σ İstanbul",
    "a\u{200b}b",
    "\u{feff}bom",
];

#[test]
fn white_space_is_that_of_unicode() {
    for u in 0u32..0x11_0000 {
        if let Some(c) = char::from_u32(u) {
            assert_eq!(is_whitespace(c), c.is_whitespace(), "U+{u:04X}");
        }
    }
}

#[test]
fn trim_drops_white_space_at_both_ends() {
    assert_eq!(trim(" \t hola mundo \n"), "hola mundo");
    for s in SAMPLES {
        assert_eq!(trim(s), s.trim());
        assert_eq!(trim(&trim(s)), trim(s));
    }
}

#[test]
fn words_are_the_runs_between_white_space() {
    assert_eq!(split_whitespace("  uno dos\n\ttres "), strings(&["uno", "dos", "tres"]));
    for s in SAMPLES {
        let expected: Vec<String> = s.split_whitespace().map(|w| w.to_string()).collect();
        assert_eq!(split_whitespace(s), expected);
    }
}

#[test]
fn join_puts_the_separator_between() {
    assert_eq!(join(&strings(&[]), ", "), "");
    assert_eq!(join(&strings(&["a"]), ", "), "a");
    assert_eq!(join(&strings(&["a", "", "c"]), ", "), "a, , c");
}

#[test]
fn split_gives_one_piece_more_than_separators() {
    assert_eq!(split("a;b", ';'), strings(&["a", "b"]));
    for s in SAMPLES {
        let expected: Vec<String> = s.split(';').map(|w| w.to_string()).collect();
        assert_eq!(split(s, ';'), expected);
    }
}

#[test]
fn strip_prefix_needs_the_whole_prefix() {
    assert_eq!(strip_prefix("data: x", "data: "), Some("x".to_string()));
    assert_eq!(strip_prefix("data:", "data: "), None);
    assert_eq!(strip_prefix("datA: x", "data: "), None);
    assert_eq!(strip_prefix("abc", ""), Some("abc".to_string()));
}

#[test]
fn trailing_separators_are_dropped() {
    assert_eq!(trim_end_matches("http://x//", '/'), "http://x");
    assert_eq!(trim_end_matches("///", '/'), "");
    assert_eq!(trim_end_matches("a/b", '/'), "a/b");
}

#[test]
fn replace_turns_every_occurrence() {
    assert_eq!(replace("a\\b\\c", '\\', '/'), "a/b/c");
}

#[test]
fn limit_chars_counts_characters() {
    assert_eq!(limit_chars("ñandú", 5), "ñandú");
    assert_eq!(limit_chars("ñandú", 4), "ñand...");
    assert_eq!(limit_chars("ñandú", 0), "...");
    assert_eq!(limit_chars("", 0), "");
}

#[test]
fn clean_excerpt_is_one_line() {
    assert_eq!(clean_excerpt("  uno\n\n dos\ttres ", 100), "uno dos tres");
    assert_eq!(clean_excerpt("  uno\n\n dos\ttres ", 5), "uno d...");
}

#[test]
fn lower_case_is_that_of_unicode() {
    assert_eq!(to_lowercase("ABC xyz 123"), "abc xyz 123");
    assert_eq!(to_lowercase("ÁRBOL ΑΣ"), "árbol ας");
    for s in SAMPLES {
        assert_eq!(to_lowercase(s), s.to_lowercase());
    }
}

#[test]
fn letters_and_digits_are_those_of_unicode() {
    assert!(is_alphanumeric('a') && is_alphanumeric('Z') && is_alphanumeric('7'));
    assert!(is_alphanumeric('ñ') && is_alphanumeric('京'));
    assert!(!is_alphanumeric('_') && !is_alphanumeric('¿') && !is_alphanumeric(' '));
    for u in 0u32..128 {
        let c = char::from_u32(u).unwrap();
        assert_eq!(is_alphanumeric(c), c.is_ascii_alphanumeric());
    }
}

#[test]
fn unsigned_numbers_are_read_as_std_reads_them() {
    for s in ["0", "7", "+7", "-7", "007", "", "+", " 1", "1 ", "1_0", "4294967295", "4294967296", "a", "+-1", "٣"] {
        assert_eq!(
            parse_unsigned(s, u32::MAX as u64),
            s.parse::<u32>().ok().map(|n| n as u64),
            "{s:?}"
        );
    }
    assert_eq!(parse_unsigned("18446744073709551615", u64::MAX), Some(u64::MAX));
    assert_eq!(parse_unsigned("18446744073709551616", u64::MAX), None);
    assert_eq!(parse_unsigned("99999999999999999999999999", u64::MAX), None);
}

#[test]
fn signed_numbers_are_read_as_std_reads_them() {
    for s in [
        "0",
        "-0",
        "24",
        "+24",
        "-24",
        "--1",
        "-",
        "",
        "9223372036854775807",
        "9223372036854775808",
        "-9223372036854775808",
        "-9223372036854775809",
    ] {
        assert_eq!(parse_signed(s), s.parse::<i64>().ok(), "{s:?}");
    }
}

#[test]
fn strings_are_ordered_by_code_points() {
    let list = ["", "a", "ab", "b", "B", "ñ", "z", "\u{ffff}", "\u{10000}", "aé", "ae"];
    for a in list {
        for b in list {
            assert_eq!(is_before(a, b), a < b, "{a:?} {b:?}");
        }
    }
}

#[test]
fn sorting_drops_repetitions() {
    let mut list = strings(&["b", "a", "b", "ñ", "", "a"]);
    let sorted = sort_and_dedup(&list);
    assert_eq!(sorted, strings(&["", "a", "b", "ñ"]));
    list.sort();
    list.dedup();
    assert_eq!(sorted, list);
}

#[test]
fn words_have_pages() {
    assert_eq!(word_pages("uno dos\x0ctres\n\x0c\x0c cuatro\x0c"), vec![1, 1, 2, 4]);
    assert_eq!(word_pages("\x0c"), Vec::<usize>::new());
}

#[test]
fn every_character_is_lowered_as_std_does() {
    for c in '\0'..=char::MAX {
        let text = format!("aΒ{c}Zb");
        assert_eq!(to_lowercase(&text), text.to_lowercase());
        assert!(!to_lowercase(&text).chars().any(|l| l.is_ascii_uppercase()));
    }
    for text in ["ΟΔΟΣ", "ΟΔΟΣ?!", "aΣ b", "İSTANBUL", "Straße", "ÀÉÎ", "ﬁN"] {
        assert_eq!(to_lowercase(text), text.to_lowercase());
    }
}
