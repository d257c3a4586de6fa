use rag_rust_openrouter::config::{Config, Variables};

fn nothing() -> Variables {
    Variables {
        docs_dir: None,
        state_dir: None,
        qdrant_url: None,
        qdrant_collection: None,
        openrouter_api_key: None,
        openrouter_model: None,
        openrouter_max_tokens: None,
        embedding_dimension: None,
        embedding_batch_size: None,
        index_interval_seconds: None,
        default_top_k: None,
        app_host: None,
        app_port: None,
        admin_username: None,
        admin_password: None,
        auth_salt: None,
        session_hours: None,
    }
}

#[test]
fn defaults_are_the_documented_ones() {
    let c = Config::from_env(nothing());
    assert_eq!(c.docs_dir, "/app/data/documents");
    assert_eq!(c.state_dir, "/app/data/state");
    assert_eq!(c.qdrant_url, "http://127.0.0.1:6333");
    assert_eq!(c.collection, "rag_chunks");
    assert_eq!(c.openrouter_api_key, None);
    assert_eq!(c.openrouter_model, "openai/gpt-5.2");
    assert_eq!(c.openrouter_max_tokens, 4096);
    assert_eq!((c.embedding_dimension, c.embedding_batch_size), (1536, 16));
    assert_eq!(c.index_interval_seconds, 3600);
    assert_eq!(c.default_top_k, 6);
    assert_eq!(c.address(), "127.0.0.1:8080");
    assert_eq!(c.admin_username, "admin");
    assert_eq!(c.admin_password, "admin123");
    assert_eq!(c.auth_salt, "cambie-esta-sal-local");
    assert_eq!(c.session_hours, 24);
    assert_eq!(c.db_path(), "/app/data/state/manifest.sqlite");
}

#[test]
fn values_that_are_set_count() {
    let c = Config::from_env(Variables {
        docs_dir: Some("d".to_string()),
        state_dir: Some("s/".to_string()),
        openrouter_api_key: Some("  clave \n".to_string()),
        openrouter_max_tokens: Some("+100".to_string()),
        index_interval_seconds: Some("18446744073709551615".to_string()),
        default_top_k: Some("9".to_string()),
        app_host: Some("0.0.0.0".to_string()),
        app_port: Some("65535".to_string()),
        session_hours: Some("-1".to_string()),
        ..nothing()
    });
    assert_eq!(c.docs_dir, "d");
    assert_eq!(c.db_path(), "s/manifest.sqlite");
    assert_eq!(c.openrouter_api_key.as_deref(), Some("clave"));
    assert_eq!(c.openrouter_max_tokens, 100);
    assert_eq!(c.index_interval_seconds, u64::MAX);
    assert_eq!(c.default_top_k, 9);
    assert_eq!(c.address(), "0.0.0.0:65535");
    assert_eq!(c.session_hours, -1);
}

#[test]
fn values_that_are_no_numbers_do_not_count() {
    let c = Config::from_env(Variables {
        openrouter_api_key: Some(" \t".to_string()),
        openrouter_max_tokens: Some("4294967296".to_string()),
        index_interval_seconds: Some("-1".to_string()),
        default_top_k: Some("seis".to_string()),
        app_port: Some("65536".to_string()),
        session_hours: Some("1.5".to_string()),
        ..nothing()
    });
    assert_eq!(c.openrouter_api_key, None);
    assert_eq!(c.openrouter_max_tokens, 4096);
    assert_eq!(c.index_interval_seconds, 3600);
    assert_eq!(c.default_top_k, 6);
    assert_eq!(c.app_port, 8080);
    assert_eq!(c.session_hours, 24);
}

#[test]
fn a_batch_has_at_least_one_passage() {
    for (value, expected) in [("0", 16), ("x", 16), ("1", 1), ("64", 64)] {
        let c = Config::from_env(Variables {
            embedding_batch_size: Some(value.to_string()),
            embedding_dimension: Some("384".to_string()),
            ..nothing()
        });
        assert_eq!((c.embedding_batch_size, c.embedding_dimension), (expected, 384));
    }
}
