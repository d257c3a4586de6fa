use rag_rust_openrouter::auth::{
    begin_login, check_digest, check_login, created_row, current_time, default_admin, grant_login,
    normalize_username, open_session, plan_block, plan_user, read_session_cookie, require_admin,
    require_user, session_user, user_not_created, AuthUser, SessionRow, UserRecord, UserRow,
    LOGOUT_COOKIE,
};
use rag_rust_openrouter::config::{Config, Variables};
use rag_rust_openrouter::error::{AppError, Status};
use rag_rust_openrouter::fingerprint::hash_password;
use rag_rust_openrouter::status::status_response;
use rag_rust_openrouter::store::{
    collection_url, delete_url, ensure_qdrant_collection, probe_url, search_url, upsert_url,
    ProbeStep, Probing, UpsertStep, Upserting,
};
use rag_rust_openrouter::upload::{accept_name, accept_size, destination, finish_upload};

fn config(salt: Option<&str>, hours: &str) -> Config {
    Config::from_env(Variables {
        docs_dir: Some("/docs".to_string()),
        state_dir: None,
        qdrant_url: Some("http://q:6333".to_string()),
        qdrant_collection: Some("c".to_string()),
        openrouter_api_key: Some("k".to_string()),
        openrouter_model: None,
        openrouter_max_tokens: None,
        embedding_dimension: None,
        embedding_batch_size: None,
        index_interval_seconds: None,
        default_top_k: None,
        app_host: None,
        app_port: None,
        admin_username: Some(" Jefa".to_string()),
        admin_password: None,
        auth_salt: salt.map(|s| s.to_string()),
        session_hours: Some(hours.to_string()),
    })
}

fn record(hash: &str, is_active: i64, reason: Option<&str>) -> UserRecord {
    UserRecord {
        id: 7,
        password_hash: hash.to_string(),
        role: "user".to_string(),
        is_active,
        blocked_reason: reason.map(|r| r.to_string()),
    }
}

fn user(name: &str, role: &str) -> AuthUser {
    AuthUser {
        username: name.to_string(),
        role: role.to_string(),
        is_active: true,
        blocked_reason: None,
    }
}

fn says(e: AppError, status: Status, message: &str) {
    assert_eq!(e.status, status);
    assert_eq!(e.message, message);
}

#[test]
fn passwords_are_kept_as_salted_digests() {
    assert_eq!(
        hash_password(&config(Some("sal"), "1"), "clave"),
        "9747a00cbd1885ac24934c9eabd70aeae8b52f77348e91d62988cc5069af8a54"
    );
    assert_eq!(
        hash_password(&config(None, "1"), "admin123"),
        "f1fca225a1cd947ad35f2d5e91785de4d12094dc2a9255d38b835d0b2b9b9426"
    );
}

#[test]
fn user_names_are_trimmed_and_in_lower_case() {
    assert_eq!(normalize_username("  Ana MARÍA "), "ana maría");
}

#[test]
fn a_login_needs_a_name_and_a_password() {
    assert_eq!(begin_login(" Ana ", "x").unwrap(), "ana");
    for (name, password) in [(" ", "x"), ("", "x"), ("ana", "")] {
        says(begin_login(name, password).unwrap_err(), Status::BadRequest, "Usuario y contraseña son obligatorios.");
    }
}

#[test]
fn logins_are_decided_by_the_stored_user() {
    let cfg = config(Some("sal"), "1");
    let hash = hash_password(&cfg, "clave");
    assert_eq!(check_login(&cfg, Some(record(&hash, 1, None)), "clave").unwrap().id, 7);
    says(check_login(&cfg, Some(record(&hash, 1, None)), "otra").unwrap_err(), Status::Unauthorized, "Credenciales incorrectas.");
    says(check_login(&cfg, None, "clave").unwrap_err(), Status::Unauthorized, "Credenciales incorrectas.");
    says(check_login(&cfg, Some(record(&hash, 0, None)), "clave").unwrap_err(), Status::Forbidden, "Usuario bloqueado.");
    says(check_login(&cfg, Some(record(&hash, 0, Some("mora"))), "otra").unwrap_err(), Status::Forbidden, "mora");
    assert!(check_digest(Some(record("d", 1, None)), "d").is_ok());
    says(check_digest(Some(record("d", 1, None)), "D").unwrap_err(), Status::Unauthorized, "Credenciales incorrectas.");
}

#[test]
fn a_login_opens_a_session() {
    let cfg = config(None, "24");
    let grant = grant_login(&cfg, "ana".to_string(), record("h", 1, None), "tok".to_string(), 1000);
    assert_eq!(grant.session.token, "tok");
    assert_eq!((grant.session.user_id, grant.session.created_at, grant.session.expires_at), (7, 1000, 87400));
    assert_eq!(grant.cookie, "rag_session=tok; Path=/; HttpOnly; SameSite=Lax; Max-Age=86400");
    assert_eq!((grant.user.username.as_str(), grant.user.role.as_str()), ("ana", "user"));
    assert!(grant.user.is_active && grant.user.blocked_reason.is_none());
}

#[test]
fn tokens_are_random_uuids_that_the_cookie_brings_back() {
    let cfg = config(None, "-2");
    let open = || open_session(&cfg, "ana".to_string(), record("h", 1, None)).unwrap();
    let (a, b) = (open(), open());
    assert_ne!(a.session.token, b.session.token);
    assert_eq!(a.session.token.len(), 36);
    assert_eq!(a.session.token.chars().filter(|c| *c == '-').count(), 4);
    assert_eq!(&a.session.token[14..15], "4");
    assert!("89ab".contains(&a.session.token[19..20]));
    assert!(a.cookie.ends_with("Max-Age=-7200"));
    assert_eq!(read_session_cookie(Some(&a.cookie)), Some(a.session.token.clone()));
    assert_eq!(
        read_session_cookie(Some(&format!("rag_session={}", a.session.token))),
        Some(a.session.token.clone())
    );
    let now = current_time();
    assert!(a.session.created_at <= now && now - a.session.created_at < 3600);
    assert!(now > 1_600_000_000);
    assert_eq!(a.session.expires_at, a.session.created_at - 7200);
}

#[test]
fn sessions_without_an_end_are_not_opened() {
    for hours in ["9223372036854775807", "2562047788015215", "-9223372036854775808"] {
        assert!(open_session(&config(None, hours), "ana".to_string(), record("h", 1, None)).is_none());
    }
}

#[test]
fn the_token_is_found_among_other_cookies() {
    assert_eq!(read_session_cookie(None), None);
    assert_eq!(read_session_cookie(Some("")), None);
    assert_eq!(read_session_cookie(Some("rag_session=abc")).as_deref(), Some("abc"));
    assert_eq!(read_session_cookie(Some("a=b; rag_session= abc ;c=d")).as_deref(), Some("abc"));
    assert_eq!(read_session_cookie(Some("rag_session=; rag_session=x")).as_deref(), Some("x"));
    assert_eq!(read_session_cookie(Some("rag_session=x; rag_session=y")).as_deref(), Some("x"));
    assert_eq!(read_session_cookie(Some("rag_session =x")), None);
    assert_eq!(read_session_cookie(Some("xrag_session=x")), None);
    assert_eq!(read_session_cookie(Some("rag_session=a=b")).as_deref(), Some("a=b"));
    assert_eq!(read_session_cookie(Some(LOGOUT_COOKIE)), None);
}

#[test]
fn sessions_count_until_they_expire() {
    let row = |is_active: i64, expires_at: i64| {
        Some(SessionRow {
            username: "ana".to_string(),
            role: "admin".to_string(),
            is_active,
            blocked_reason: None,
            expires_at,
        })
    };
    assert_eq!(session_user(row(1, 101), 100).unwrap().username, "ana");
    assert!(session_user(row(5, 101), 100).unwrap().is_active);
    assert!(session_user(row(1, 100), 100).is_none());
    assert!(session_user(row(0, 101), 100).is_none());
    assert!(session_user(None, 100).is_none());
}

#[test]
fn requests_need_a_user_and_some_an_administrator() {
    assert_eq!(require_user(Some(user("ana", "user"))).unwrap().username, "ana");
    says(require_user(None).unwrap_err(), Status::Unauthorized, "Debe iniciar sesión.");
    assert_eq!(require_admin(Some(user("ana", "admin"))).unwrap().username, "ana");
    says(require_admin(None).unwrap_err(), Status::Unauthorized, "Debe iniciar sesión.");
    says(
        require_admin(Some(user("ana", "user"))).unwrap_err(),
        Status::Forbidden,
        "No tiene permisos para esta operación.",
    );
}

#[test]
fn new_users_are_checked() {
    let cfg = config(Some("sal"), "1");
    let new = plan_user(&cfg, " ANA ", "clave", None).unwrap();
    assert_eq!((new.username.as_str(), new.role.as_str()), ("ana", "user"));
    assert_eq!(new.password_hash, hash_password(&cfg, "clave"));
    assert!(check_digest(Some(record(&new.password_hash, 1, None)), &hash_password(&cfg, "clave")).is_ok());
    assert_eq!(plan_user(&cfg, "jefa", "1234", Some("admin".to_string())).unwrap().role, "admin");
    let short = "El usuario debe tener al menos 3 caracteres y la clave al menos 4.";
    for (name, password) in [(" an ", "clave"), ("ana", "123"), ("", "")] {
        says(plan_user(&cfg, name, password, Some("raro".to_string())).unwrap_err(), Status::BadRequest, short);
    }
    assert!(plan_user(&cfg, "ñu", "ññ", None).is_ok());
    says(
        plan_user(&cfg, "ana", "clave", Some("Admin".to_string())).unwrap_err(),
        Status::BadRequest,
        "El rol debe ser admin o user.",
    );
    let row = created_row(new, "hoy".to_string());
    assert_eq!((row.username.as_str(), row.created_at.as_str()), ("ana", "hoy"));
    assert!(row.is_active && row.blocked_reason.is_none());
    says(user_not_created("ya existe"), Status::BadRequest, "No se pudo crear el usuario: ya existe");
}

#[test]
fn stored_rows_are_active_unless_zero() {
    let row = |n: i64| UserRow::from_columns("a".into(), "user".into(), n, "t".into(), None);
    assert!(row(1).is_active && row(-3).is_active && !row(0).is_active);
}

#[test]
fn administrators_block_others_but_not_themselves() {
    let me = user("jefa", "admin");
    let plan = plan_block(&me, " Ana ", true, None).unwrap();
    assert_eq!((plan.username.as_str(), plan.is_active, plan.end_sessions), ("ana", 0, true));
    assert_eq!(plan.blocked_reason.as_deref(), Some("Bloqueado por administración."));
    let plan = plan_block(&me, "ana", true, Some("mora".to_string())).unwrap();
    assert_eq!(plan.blocked_reason.as_deref(), Some("mora"));
    let plan = plan_block(&me, "ana", false, Some("mora".to_string())).unwrap();
    assert_eq!((plan.is_active, plan.blocked_reason, plan.end_sessions), (1, None, false));
    says(
        plan_block(&me, "JEFA ", false, None).unwrap_err(),
        Status::BadRequest,
        "El administrador no puede bloquear su propia sesión.",
    );
}

#[test]
fn the_first_administrator_is_configured() {
    let cfg = config(Some("sal"), "1");
    let admin = default_admin(&cfg, 0).unwrap();
    assert_eq!((admin.username.as_str(), admin.role.as_str()), (" jefa", "admin"));
    assert_eq!(admin.password_hash, hash_password(&cfg, "admin123"));
    assert!(default_admin(&cfg, 1).is_none());
}

#[test]
fn status_codes_are_those_of_http() {
    assert_eq!(Status::BadRequest.code(), 400);
    assert_eq!(Status::Unauthorized.code(), 401);
    assert_eq!(Status::Forbidden.code(), 403);
    assert_eq!(AppError::internal("x").status.code(), 500);
}

#[test]
fn the_status_does_not_show_the_key() {
    let s = status_response(&config(None, "1"), 3, user("ana", "user"));
    assert!(s.openrouter_enabled);
    assert_eq!((s.docs_dir.as_str(), s.qdrant_url.as_str(), s.collection.as_str()), ("/docs", "http://q:6333", "c"));
    assert_eq!((s.manifest_documents, s.index_interval_seconds), (3, 3600));
    assert_eq!(s.openrouter_model, "openai/gpt-5.2");
    assert_eq!(s.user.username, "ana");
}

#[test]
fn uploads_are_accepted_by_name() {
    assert_eq!(accept_name(None).unwrap(), None);
    assert_eq!(accept_name(Some("../Mi informe.PDF")).unwrap().as_deref(), Some("Mi_informe.PDF"));
    says(
        accept_name(Some("virus .exe")).unwrap_err(),
        Status::BadRequest,
        "Formato no permitido: virus_.exe. Use .txt, .md o .pdf",
    );
}

#[test]
fn uploads_are_accepted_by_size() {
    assert!(!accept_size(0).unwrap());
    assert!(accept_size(1).unwrap());
    assert!(accept_size(80 * 1024 * 1024).unwrap());
    says(accept_size(80 * 1024 * 1024 + 1).unwrap_err(), Status::BadRequest, "El archivo supera 80 MB.");
}

#[test]
fn uploads_need_a_stored_file() {
    let r = finish_upload(vec!["a.txt".to_string()]).unwrap();
    assert!(r.ok);
    assert_eq!(r.files, vec!["a.txt".to_string()]);
    assert_eq!(r.message, "Archivo(s) subido(s). La indexación se ejecuta sin detener el servicio.");
    says(finish_upload(vec![]).unwrap_err(), Status::BadRequest, "No se recibió ningún archivo válido.");
    assert_eq!(destination(&config(None, "1"), "a.txt"), "/docs/a.txt");
}

#[test]
fn addresses_of_the_store() {
    let cfg = config(None, "1");
    assert_eq!(collection_url(&cfg), "http://q:6333/collections/c");
    assert_eq!(search_url(&cfg), "http://q:6333/collections/c/points/search");
    assert_eq!(upsert_url(&cfg), "http://q:6333/collections/c/points?wait=true");
    assert_eq!(delete_url(&cfg), "http://q:6333/collections/c/points/delete?wait=true");
    assert_eq!(probe_url("http://q:6333//"), "http://q:6333/");
}

#[test]
fn the_store_is_probed_60_times() {
    let mut probing = Probing::begin();
    for _ in 0..59 {
        assert!(matches!(probing.probed(false, "u"), ProbeStep::Again));
    }
    assert!(matches!(probing.probed(false, "u"), ProbeStep::GiveUp(e) if e == "Qdrant no respondió en u"));
    assert!(matches!(Probing::begin().probed(true, "u"), ProbeStep::Ready));
}

#[test]
fn a_missing_collection_is_created() {
    let cfg = config(None, "1");
    assert!(ensure_qdrant_collection(true, &cfg).is_none());
    let new = ensure_qdrant_collection(false, &cfg).unwrap();
    assert_eq!((new.size, new.distance), (1536, "Cosine"));
    let other = ensure_qdrant_collection(false, &Config { embedding_dimension: 384, ..cfg }).unwrap();
    assert_eq!(other.size, 384);
}

#[test]
fn points_are_sent_three_times() {
    assert!(matches!(Upserting::begin(0).1, UpsertStep::Done));
    let (mut up, step) = Upserting::begin(2);
    assert!(matches!(step, UpsertStep::Send(0)));
    assert!(matches!(up.sent(Some("uno".to_string())), UpsertStep::Send(1000)));
    assert!(matches!(up.sent(Some("dos".to_string())), UpsertStep::Send(1500)));
    assert!(matches!(up.sent(Some("tres".to_string())), UpsertStep::GiveUp(e) if e == "tres"));
    let (mut up, _) = Upserting::begin(2);
    up.sent(Some("uno".to_string()));
    assert!(matches!(up.sent(None), UpsertStep::Done));
}
