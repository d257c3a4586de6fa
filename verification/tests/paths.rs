use rag_rust_openrouter::paths::{
    document_kind, extension, file_name, is_supported_file, is_supported_filename, join_path,
    relative_source, sanitize_filename, strip_base, DocumentKind,
};
use std::path::Path;

/// All paths of up to six characters over a small alphabet.
fn small_paths() -> Vec<String> {
    let mut all = vec![String::new()];
    let mut last = vec![String::new()];
    for _ in 0..6 {
        let mut next = Vec::new();
        for p in &last {
            for c in ['/', '.', 'a'] {
                next.push(format!("{p}{c}"));
            }
        }
        all.extend(next.iter().cloned());
        last = next;
    }
    all
}

#[test]
fn file_names_and_extensions_are_those_of_std() {
    for p in small_paths() {
        let path = Path::new(&p);
        assert_eq!(file_name(&p), path.file_name().map(|s| s.to_str().unwrap().to_string()), "{p:?}");
        assert_eq!(extension(&p), path.extension().map(|s| s.to_str().unwrap().to_string()), "{p:?}");
    }
}

#[test]
fn relative_paths_are_those_of_std() {
    let paths = small_paths();
    for base in ["", "/", ".", "./", "a", "a/", "/a", "/a/", "a/a", "./a", "..", "../a", "a/.", "a/./", "//a", "/./a"] {
        for p in &paths {
            let expected = Path::new(p).strip_prefix(base).ok().map(|s| s.to_str().unwrap().to_string());
            assert_eq!(strip_base(base, p), expected, "{base:?} {p:?}");
        }
    }
}

#[test]
fn joined_paths_are_those_of_std() {
    let paths = small_paths();
    for base in ["", "/", "a", "a/", "/a", "."] {
        for p in paths.iter().take(400) {
            assert_eq!(join_path(base, p), Path::new(base).join(p).to_str().unwrap());
        }
    }
}

#[test]
fn sources_are_relative_to_the_document_directory() {
    assert_eq!(relative_source("/app/data/documents", "/app/data/documents/a/b.txt"), "a/b.txt");
    assert_eq!(relative_source("/app/data/documents/", "/app/data/documents/c.pdf"), "c.pdf");
    assert_eq!(relative_source("/app/data/documents", "/otra/c.pdf"), "/otra/c.pdf");
    assert_eq!(relative_source("docs", "docs/a\\b.md"), "a/b.md");
    assert_eq!(relative_source("docs", "documentos/a.md"), "documentos/a.md");
}

#[test]
fn supported_files_are_txt_md_and_pdf() {
    for name in ["a.txt", "a.md", "a.pdf", "b.TXT", "c.Pdf", "x.y.mD", "dir/a.txt"] {
        assert!(is_supported_filename(name), "{name}");
        assert!(is_supported_file(name), "{name}");
    }
    for name in ["a.docx", "txt", ".txt", "a.", "a.txt.exe", "", "dir.txt/a", "a.tx\u{212a}"] {
        assert!(!is_supported_filename(name), "{name}");
        assert!(!is_supported_file(name), "{name}");
    }
}

#[test]
fn kinds_of_documents() {
    assert_eq!(document_kind("txt"), Some(DocumentKind::Text));
    assert_eq!(document_kind("md"), Some(DocumentKind::Text));
    assert_eq!(document_kind("pdf"), Some(DocumentKind::Pdf));
    assert_eq!(document_kind("PDF"), None);
}

#[test]
fn sanitized_names_are_single_safe_parts() {
    assert_eq!(sanitize_filename("Informe Año 2024.pdf"), "Informe_A_o_2024.pdf");
    assert_eq!(sanitize_filename("../../etc/passwd"), "passwd");
    assert_eq!(sanitize_filename("/"), "documento.txt");
    assert_eq!(sanitize_filename(".."), "documento.txt");
    assert_eq!(sanitize_filename(""), "documento.txt");
    assert_eq!(sanitize_filename("c:\\temp\\a.txt"), "c__temp_a.txt");
    for p in small_paths() {
        let safe = sanitize_filename(&p);
        assert_eq!(sanitize_filename(&safe), safe);
        assert_eq!(file_name(&safe), Some(safe.clone()));
    }
}

#[test]
fn stored_uploads_are_indexed_by_name() {
    for root in ["", "/", "docs", "docs/", "./docs", "/app/data/documents", ".", "a/../b", "/./x/."] {
        for upload in ["a.txt", "x/y.md", "..", "Á.pdf", "sin"] {
            let safe = sanitize_filename(upload);
            let path = join_path(root, &safe);
            assert_eq!(relative_source(root, &path), safe, "{root:?}");
            assert_eq!(is_supported_file(&path), is_supported_filename(&safe));
        }
    }
}

#[test]
fn safe_names_keep_their_format() {
    for name in ["a.txt", "a b.PDF", "x/y.Md", "a.t t", "a.tx\u{f1}", "sin", ".txt", "a.pdf.exe", "a.", "a.p-f", "a.ñ", "a.TX\u{1d40}", "a.\u{212a}d"] {
        assert_eq!(is_supported_filename(&sanitize_filename(name)), is_supported_filename(name), "{name}");
    }
}

#[test]
fn no_other_character_lowers_to_a_letter_of_an_extension() {
    for c in '\u{80}'..=char::MAX {
        assert!(!c.to_lowercase().any(|l| "txtmdpdf".contains(l)));
    }
    for ext in ["txt", "TXT", "Md", "pDf", "tx\u{17f}", "\u{ff4d}d", "doc", ""] {
        let expected = matches!(ext.to_lowercase().as_str(), "txt" | "md" | "pdf");
        assert_eq!(is_supported_file(&format!("d/a.{ext}")), expected, "{ext}");
    }
}

#[test]
fn nested_files_are_known_by_their_path() {
    for root in ["/docs", "/docs/", "./docs", "docs//", "/"] {
        for name in ["a.txt", "x/a.txt", "x/y z/a.md", "x//a.txt", "x/../a.txt"] {
            assert_eq!(relative_source(root, &join_path(root, name)), name);
        }
    }
}
