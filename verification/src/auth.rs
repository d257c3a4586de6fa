//! Users: logging in and out, sessions and their cookie, and who may do what.
use crate::config::Config;
use crate::error::{AppError, Status};
use crate::fingerprint;
use crate::fingerprint::hash_password;
use crate::numbers;
use crate::numbers::push_signed;
use crate::text;
use crate::text::{owned, same_text, split, strip_prefix, to_lowercase, trim};
use vstd::prelude::*;

verus! {

/// The name of the cookie that holds the token of a session.
pub const COOKIE_NAME: &'static str = "rag_session";

/// The cookie that ends a session in the browser.
pub const LOGOUT_COOKIE: &'static str = "rag_session=; Path=/; HttpOnly; SameSite=Lax; Max-Age=0";

/// A user as the rest of the service sees them.
#[derive(Debug)]
pub struct AuthUser {
    pub username: String,
    pub role: String,
    pub is_active: bool,
    pub blocked_reason: Option<String>,
}

/// A user as administrators see them.
#[derive(Debug)]
pub struct UserRow {
    pub username: String,
    pub role: String,
    pub is_active: bool,
    pub created_at: String,
    pub blocked_reason: Option<String>,
}

impl UserRow {
    /// The user of a stored row, where any number but 0 stands for an active user.
    pub fn from_columns(
        username: String,
        role: String,
        is_active: i64,
        created_at: String,
        blocked_reason: Option<String>,
    ) -> (r: Self)
        ensures
            r.username == username,
            r.role == role,
            r.is_active == (is_active != 0),
            r.created_at == created_at,
            r.blocked_reason == blocked_reason,
    {
        UserRow { username, role, is_active: is_active != 0, created_at, blocked_reason }
    }
}

/// The form in which user names are stored and compared: without the white space
/// around them and in lower case.
pub open spec fn user_name(given: Seq<char>) -> Seq<char> {
    text::lowercase(text::trimmed(given))
}

/// The form in which user names are stored and compared.
pub fn normalize_username(given: &str) -> (r: String)
    ensures
        r@ == user_name(given@),
{
    let inner: String = trim(given);
    to_lowercase(inner.as_str())
}

/// User names are the same where they differ only in the white space around them and in
/// the case of ASCII letters, as long as they have no capital sigma.
pub proof fn user_names_ignore_case_and_padding(a: Seq<char>, b: Seq<char>)
    requires
        text::ascii_folded(text::trimmed(a)) == text::ascii_folded(text::trimmed(b)),
        !text::trimmed(a).contains(text::CAPITAL_SIGMA),
    ensures
        user_name(a) == user_name(b),
{
    text::lowercase_ignores_ascii_case(text::trimmed(a), text::trimmed(b));
}

// ---------------------------------------------------------------------------
// Logging in
// ---------------------------------------------------------------------------

/// The user name to look up for a login; neither name nor password may be empty.
pub fn begin_login(username: &str, password: &str) -> (r: Result<String, AppError>)
    ensures
        match r {
            Ok(name) => {
                &&& name@ == user_name(username@)
                &&& name@.len() > 0
                &&& password@.len() > 0
            },
            Err(e) => {
                &&& user_name(username@).len() == 0 || password@.len() == 0
                &&& e.says(Status::BadRequest, "Usuario y contraseña son obligatorios."@)
            },
        },
{
    let name: String = normalize_username(username);
    if name.as_str().is_empty() || password.is_empty() {
        return Err(AppError::new(Status::BadRequest, "Usuario y contraseña son obligatorios."));
    }
    Ok(name)
}

/// What is stored of a user that matters for a login.
#[derive(Debug)]
pub struct UserRecord {
    pub id: i64,
    pub password_hash: String,
    pub role: String,
    pub is_active: i64,
    pub blocked_reason: Option<String>,
}

/// What becomes of a login.
pub enum LoginOutcome {
    /// The user is let in.
    Accepted,
    /// There is no such user, or the password is wrong.
    WrongCredentials,
    /// The user is blocked, for this reason.
    Blocked(Seq<char>),
}

/// What becomes of a login, given the user of that name, if there is one, and the
/// digest of the password.
pub open spec fn login_outcome(record: Option<UserRecord>, digest: Seq<char>) -> LoginOutcome {
    match record {
        Some(user) => if user.is_active == 0 {
            LoginOutcome::Blocked(
                match user.blocked_reason {
                    Some(reason) => reason@,
                    None => "Usuario bloqueado."@,
                },
            )
        } else if user.password_hash@ != digest {
            LoginOutcome::WrongCredentials
        } else {
            LoginOutcome::Accepted
        },
        None => LoginOutcome::WrongCredentials,
    }
}

/// Decides a login, given the digest of the password: the user is handed back where
/// they are let in.
pub fn check_digest(record: Option<UserRecord>, digest: &str) -> (r: Result<UserRecord, AppError>)
    ensures
        match r {
            Ok(user) => record == Some(user) && login_outcome(record, digest@)
                == LoginOutcome::Accepted,
            Err(e) => match login_outcome(record, digest@) {
                LoginOutcome::Accepted => false,
                LoginOutcome::WrongCredentials => e.says(
                    Status::Unauthorized,
                    "Credenciales incorrectas."@,
                ),
                LoginOutcome::Blocked(reason) => e.says(Status::Forbidden, reason),
            },
        },
{
    let user: UserRecord = match record {
        Some(user) => user,
        None => {
            return Err(AppError::new(Status::Unauthorized, "Credenciales incorrectas."));
        },
    };
    if user.is_active == 0 {
        return match user.blocked_reason {
            Some(reason) => Err(AppError::new(Status::Forbidden, reason.as_str())),
            None => Err(AppError::new(Status::Forbidden, "Usuario bloqueado.")),
        };
    }
    if !same_text(user.password_hash.as_str(), digest) {
        return Err(AppError::new(Status::Unauthorized, "Credenciales incorrectas."));
    }
    Ok(user)
}

/// Decides a login: the user is handed back where they are let in.
pub fn check_login(config: &Config, record: Option<UserRecord>, password: &str) -> (r: Result<
    UserRecord,
    AppError,
>)
    ensures
        ({
            let digest = fingerprint::password_digest(config.auth_salt@, password@);
            match r {
                Ok(user) => record == Some(user) && login_outcome(record, digest)
                    == LoginOutcome::Accepted,
                Err(e) => match login_outcome(record, digest) {
                    LoginOutcome::Accepted => false,
                    LoginOutcome::WrongCredentials => e.says(
                        Status::Unauthorized,
                        "Credenciales incorrectas."@,
                    ),
                    LoginOutcome::Blocked(reason) => e.says(Status::Forbidden, reason),
                },
            }
        }),
{
    let digest: String = hash_password(config, password);
    check_digest(record, digest.as_str())
}

// ---------------------------------------------------------------------------
// Sessions
// ---------------------------------------------------------------------------

/// A session of a user: from `created_at` until `expires_at`, in seconds since 1970.
#[derive(Debug)]
pub struct Session {
    pub token: String,
    pub user_id: i64,
    pub created_at: i64,
    pub expires_at: i64,
}

/// Whether a session of so many hours that begins at `now` has an end that can be
/// written down.
pub open spec fn representable(now: i64, session_hours: i64) -> bool {
    &&& i64::MIN <= session_hours * 3600 <= i64::MAX
    &&& i64::MIN <= now + session_hours * 3600 <= i64::MAX
}

/// What the browser is told to keep: the token, for as long as the session lasts.
pub open spec fn session_cookie(token: Seq<char>, session_hours: int) -> Seq<char> {
    COOKIE_NAME@.push('=') + token + "; Path=/; HttpOnly; SameSite=Lax; Max-Age="@
        + numbers::signed_decimal(session_hours * 3600)
}

/// A successful login: the session, its cookie, and the user.
#[derive(Debug)]
pub struct LoginGrant {
    pub session: Session,
    pub cookie: String,
    pub user: AuthUser,
}

/// What a successful login gives, with a new token at the time `now`.
pub fn grant_login(
    config: &Config,
    username: String,
    record: UserRecord,
    token: String,
    now: i64,
) -> (r: LoginGrant)
    requires
        representable(now, config.session_hours),
    ensures
        r.session.token@ == token@,
        r.session.user_id == record.id,
        r.session.created_at == now,
        r.session.expires_at == now + config.session_hours * 3600,
        r.cookie@ == session_cookie(token@, config.session_hours as int),
        r.user.username == username,
        r.user.role == record.role,
        r.user.is_active,
        r.user.blocked_reason is None,
{
    let seconds: i64 = config.session_hours * 3600;
    let mut cookie: String = owned(COOKIE_NAME);
    cookie.push('=');
    cookie.push_str(token.as_str());
    cookie.push_str("; Path=/; HttpOnly; SameSite=Lax; Max-Age=");
    push_signed(&mut cookie, seconds);
    LoginGrant {
        session: Session {
            token,
            user_id: record.id,
            created_at: now,
            expires_at: now + seconds,
        },
        cookie,
        user: AuthUser { username, role: record.role, is_active: true, blocked_reason: None },
    }
}

/// `uuid::Uuid::new_v4`, written out: a random token in the form of a UUID of version
/// 4; which one it is rests on chance. The outside function panics where the system has
/// no random numbers.
#[verifier::external_body]
fn new_token() -> (r: String)
    ensures
        fingerprint::uuid_of_version(r@, '4'),
{
    uuid::Uuid::new_v4().to_string()
}

/// More seconds than there are from 1970 to the last date that a time can have, at the
/// end of the year 262142.
pub const END_OF_TIME: i64 = 0x1_0000_0000_0000;

/// `chrono::Utc::now`, in seconds since 1970: not before 1970, and no later than the
/// last date of that crate; which time it is rests on the clock. The outside function
/// panics where the clock shows a time outside of that.
#[verifier::external_body]
fn now_seconds() -> (r: i64)
    ensures
        0 <= r < END_OF_TIME,
{
    chrono::Utc::now().timestamp()
}

/// The seconds since 1970.
pub fn current_time() -> (r: i64)
    ensures
        0 <= r < END_OF_TIME,
{
    now_seconds()
}

/// Lets a user in now, with a new random token; none where the end of the session
/// cannot be written down.
pub fn open_session(config: &Config, username: String, record: UserRecord) -> (r: Option<
    LoginGrant,
>)
    ensures
        match r {
            Some(grant) => {
                &&& fingerprint::uuid_of_version(grant.session.token@, '4')
                &&& 0 <= grant.session.created_at < END_OF_TIME
                &&& representable(grant.session.created_at, config.session_hours)
                &&& grant.session.user_id == record.id
                &&& grant.session.expires_at == grant.session.created_at + config.session_hours
                    * 3600
                &&& grant.cookie@ == session_cookie(
                    grant.session.token@,
                    config.session_hours as int,
                )
                &&& grant.user.username == username
                &&& grant.user.role == record.role
                &&& grant.user.is_active
                &&& grant.user.blocked_reason is None
            },
            None => exists|now: i64|
                0 <= now < END_OF_TIME && !#[trigger] representable(now, config.session_hours),
        },
{
    let now: i64 = now_seconds();
    let seconds: i64 = match config.session_hours.checked_mul(3600) {
        Some(seconds) => seconds,
        None => {
            assert(!representable(now, config.session_hours));
            return None;
        },
    };
    if now.checked_add(seconds).is_none() {
        assert(!representable(now, config.session_hours));
        return None;
    }
    Some(grant_login(config, username, record, new_token(), now))
}

// ---------------------------------------------------------------------------
// The cookie
// ---------------------------------------------------------------------------

/// The token in one pair of a cookie header, where it is that of the session and not
/// blank.
pub open spec fn token_in_pair(pair: Seq<char>) -> Option<Seq<char>> {
    let t = text::trimmed(pair);
    let name = COOKIE_NAME@.push('=');
    if text::starts_with(t, name) && text::trimmed(t.skip(name.len() as int)).len() > 0 {
        Some(text::trimmed(t.skip(name.len() as int)))
    } else {
        None
    }
}

/// The token in the first of the pairs that has one.
pub open spec fn first_token(pairs: Seq<Seq<char>>) -> Option<Seq<char>>
    decreases pairs.len(),
{
    if pairs.len() == 0 {
        None
    } else if token_in_pair(pairs[0]) is Some {
        token_in_pair(pairs[0])
    } else {
        first_token(pairs.skip(1))
    }
}

/// The token of the session in a cookie header.
pub open spec fn token_in_header(cookie: Seq<char>) -> Option<Seq<char>> {
    first_token(text::pieces(cookie, ';'))
}

/// The token of the session in a cookie header, where there is a header that is
/// text.
pub fn read_session_cookie(cookie: Option<&str>) -> (r: Option<String>)
    ensures
        match (cookie, r) {
            (Some(header), Some(token)) => token_in_header(header@) == Some(token@),
            (Some(header), None) => token_in_header(header@) is None,
            (None, r) => r is None,
        },
{
    let header: &str = match cookie {
        Some(header) => header,
        None => {
            return None;
        },
    };
    let pairs: Vec<String> = split(header, ';');
    let mut name: String = owned(COOKIE_NAME);
    name.push('=');
    let ghost all = text::views(pairs@);
    let mut i: usize = 0;
    assert(all.skip(0) == all);
    while i < pairs.len()
        invariant
            i <= pairs@.len(),
            all == text::views(pairs@),
            all == text::pieces(header@, ';'),
            name@ == COOKIE_NAME@.push('='),
            cookie == Some(header),
            first_token(all.skip(i as int)) == first_token(all),
        decreases pairs@.len() - i,
    {
        let pair: String = trim(pairs[i].as_str());
        proof {
            assert(all.skip(i as int)[0] == pairs@[i as int]@);
            assert(all.skip(i as int).skip(1) == all.skip(i + 1));
        }
        match strip_prefix(pair.as_str(), name.as_str()) {
            Some(value) => {
                let token: String = trim(value.as_str());
                if !token.as_str().is_empty() {
                    return Some(token);
                }
            },
            None => {},
        }
        i = i + 1;
    }
    None
}

proof fn lemma_first_token_concat(a: Seq<Seq<char>>, b: Seq<Seq<char>>)
    ensures
        first_token(a + b) == if first_token(a) is Some {
            first_token(a)
        } else {
            first_token(b)
        },
    decreases a.len(),
{
    if a.len() > 0 {
        assert((a + b)[0] == a[0]);
        assert((a + b).skip(1) == a.skip(1) + b);
        lemma_first_token_concat(a.skip(1), b);
    } else {
        assert(a + b == b);
    }
}

proof fn lemma_pieces_concat(a: Seq<char>, b: Seq<char>, c: char)
    ensures
        text::pieces(a.push(c) + b, c) == text::pieces(a, c) + text::pieces(b, c),
    decreases a.len(),
{
    let s = a.push(c) + b;
    let n = text::find_char(a, c);
    text::lemma_find_char(a, c);
    assert forall|i: int| 0 <= i < n implies #[trigger] s[i] != c by {
        assert(s[i] == a[i]);
    }
    assert(s[n as int] == c);
    text::lemma_find_char_at(s, c, n);
    assert(s.take(n as int) == a.take(n as int));
    if n < a.len() {
        let rest = a.skip(n as int + 1);
        assert(s.skip(n as int + 1) == rest.push(c) + b);
        lemma_pieces_concat(rest, b, c);
        assert(seq![a.take(n as int)] + (text::pieces(rest, c) + text::pieces(b, c)) == (seq![
            a.take(n as int),
        ] + text::pieces(rest, c)) + text::pieces(b, c));
    } else {
        assert(a.take(n as int) == a);
        assert(s.skip(n as int + 1) == b);
    }
}

/// A header of two parts with `;` between them has the token of the first part that
/// has one: other cookies of the site do not get in the way.
pub proof fn token_among_other_cookies(a: Seq<char>, b: Seq<char>)
    ensures
        token_in_header(a.push(';') + b) == if token_in_header(a) is Some {
            token_in_header(a)
        } else {
            token_in_header(b)
        },
{
    lemma_pieces_concat(a, b, ';');
    lemma_first_token_concat(text::pieces(a, ';'), text::pieces(b, ';'));
}

proof fn lemma_token_pair(token: Seq<char>)
    requires
        token.len() > 0,
        !text::is_white(token[0]),
        !text::is_white(token.last()),
        forall|i: int| 0 <= i < token.len() ==> #[trigger] token[i] != ';',
    ensures
        token_in_header(COOKIE_NAME@.push('=') + token) == Some(token),
{
    reveal_strlit("rag_session");
    let name = COOKIE_NAME@.push('=');
    let pair = name + token;
    assert(pair[0] == 'r');
    assert(pair.last() == token.last());
    text::lemma_trimmed_fixed(pair);
    assert(pair.take(name.len() as int) == name);
    assert(pair.skip(name.len() as int) == token);
    text::lemma_trimmed_fixed(token);
    assert forall|i: int| 0 <= i < pair.len() implies #[trigger] pair[i] != ';' by {
        if i >= name.len() {
            assert(pair[i] == token[i - name.len()]);
        }
    }
    text::lemma_find_char_at(pair, ';', pair.len());
    assert(text::pieces(pair, ';') == seq![pair]);
    assert(seq![pair][0] == pair);
}

/// The token that the browser was given is read back from what it sends: from the
/// pair alone, and from the whole text of the cookie as it was set.
pub proof fn cookie_is_read_back(token: Seq<char>, session_hours: int)
    requires
        fingerprint::uuid_form(token),
    ensures
        token_in_header(COOKIE_NAME@.push('=') + token) == Some(token),
        token_in_header(session_cookie(token, session_hours)) == Some(token),
{
    assert(!text::is_white(token[0]));
    assert(!text::is_white(token[35]));
    assert forall|i: int| 0 <= i < token.len() implies #[trigger] token[i] != ';' by {}
    lemma_token_pair(token);
    reveal_strlit("; Path=/; HttpOnly; SameSite=Lax; Max-Age=");
    let attributes = "; Path=/; HttpOnly; SameSite=Lax; Max-Age="@;
    let pair = COOKIE_NAME@.push('=') + token;
    let rest = attributes.skip(1) + numbers::signed_decimal(session_hours * 3600);
    assert(session_cookie(token, session_hours) == pair.push(';') + rest);
    token_among_other_cookies(pair, rest);
}

// ---------------------------------------------------------------------------
// Who is asking
// ---------------------------------------------------------------------------

/// What is stored of a session and its user.
#[derive(Debug)]
pub struct SessionRow {
    pub username: String,
    pub role: String,
    pub is_active: i64,
    pub blocked_reason: Option<String>,
    pub expires_at: i64,
}

impl SessionRow {
    /// Whether the session counts at `now`: it has not expired, and its user is
    /// active.
    pub open spec fn counts(self, now: i64) -> bool {
        self.expires_at > now && self.is_active != 0
    }
}

/// The user of a session, where the session counts at `now`.
pub fn session_user(row: Option<SessionRow>, now: i64) -> (r: Option<AuthUser>)
    ensures
        match (row, r) {
            (Some(s), Some(user)) => {
                &&& s.counts(now)
                &&& user.username == s.username
                &&& user.role == s.role
                &&& user.is_active
                &&& user.blocked_reason == s.blocked_reason
            },
            (Some(s), None) => !s.counts(now),
            (None, r) => r is None,
        },
{
    match row {
        Some(s) => if s.expires_at > now && s.is_active != 0 {
            Some(
                AuthUser {
                    username: s.username,
                    role: s.role,
                    is_active: true,
                    blocked_reason: s.blocked_reason,
                },
            )
        } else {
            None
        },
        None => None,
    }
}

/// The user of a request, where there is one.
pub fn require_user(user: Option<AuthUser>) -> (r: Result<AuthUser, AppError>)
    ensures
        match r {
            Ok(u) => user == Some(u),
            Err(e) => user is None && e.says(Status::Unauthorized, "Debe iniciar sesión."@),
        },
{
    match user {
        Some(u) => Ok(u),
        None => Err(AppError::unauthorized()),
    }
}

/// The user of a request, where they are an administrator.
pub fn require_admin(user: Option<AuthUser>) -> (r: Result<AuthUser, AppError>)
    ensures
        match r {
            Ok(u) => user == Some(u) && u.role@ == "admin"@,
            Err(e) => match user {
                Some(u) => u.role@ != "admin"@ && e.says(
                    Status::Forbidden,
                    "No tiene permisos para esta operación."@,
                ),
                None => e.says(Status::Unauthorized, "Debe iniciar sesión."@),
            },
        },
{
    let u: AuthUser = match require_user(user) {
        Ok(u) => u,
        Err(e) => {
            return Err(e);
        },
    };
    if same_text(u.role.as_str(), "admin") {
        Ok(u)
    } else {
        Err(AppError::forbidden())
    }
}

/// A session of an active user counts from its beginning for exactly the configured
/// hours.
pub proof fn session_lasts_for_its_hours(row: SessionRow, begun: i64, session_hours: i64, at: i64)
    requires
        representable(begun, session_hours),
        row.expires_at == begun + session_hours * 3600,
        row.is_active != 0,
    ensures
        row.counts(at) <==> at - begun < session_hours * 3600,
{
}

// ---------------------------------------------------------------------------
// Administration
// ---------------------------------------------------------------------------

/// A user to be stored.
#[derive(Debug)]
pub struct NewUser {
    pub username: String,
    pub password_hash: String,
    pub role: String,
}

/// Whether there is a role of this name.
pub open spec fn is_role(role: Seq<char>) -> bool {
    role == "admin"@ || role == "user"@
}

/// Whether name and password are long enough, in bytes: three and four.
pub open spec fn long_enough(username: Seq<char>, password: Seq<char>) -> bool {
    &&& vstd::utf8::encode_utf8(user_name(username)).len() >= 3
    &&& vstd::utf8::encode_utf8(password).len() >= 4
}

/// The role of a new user where none is asked for.
pub open spec fn role_or_user(role: Option<String>) -> Seq<char> {
    match role {
        Some(r) => r@,
        None => "user"@,
    }
}

/// The user to store on an administrator's request.
pub fn plan_user(
    config: &Config,
    username: &str,
    password: &str,
    role: Option<String>,
) -> (r: Result<NewUser, AppError>)
    ensures
        match r {
            Ok(user) => {
                &&& long_enough(username@, password@)
                &&& is_role(role_or_user(role))
                &&& user.username@ == user_name(username@)
                &&& user.password_hash@ == fingerprint::password_digest(
                    config.auth_salt@,
                    password@,
                )
                &&& user.role@ == role_or_user(role)
            },
            Err(e) => if !long_enough(username@, password@) {
                e.says(
                    Status::BadRequest,
                    "El usuario debe tener al menos 3 caracteres y la clave al menos 4."@,
                )
            } else {
                &&& !is_role(role_or_user(role))
                &&& e.says(Status::BadRequest, "El rol debe ser admin o user."@)
            },
        },
{
    let name: String = normalize_username(username);
    let wanted: String = match role {
        Some(r) => r,
        None => owned("user"),
    };
    if name.as_str().as_bytes().len() < 3 || password.as_bytes().len() < 4 {
        return Err(
            AppError::new(
                Status::BadRequest,
                "El usuario debe tener al menos 3 caracteres y la clave al menos 4.",
            ),
        );
    }
    if !same_text(wanted.as_str(), "admin") && !same_text(wanted.as_str(), "user") {
        return Err(AppError::new(Status::BadRequest, "El rol debe ser admin o user."));
    }
    Ok(NewUser { username: name, password_hash: hash_password(config, password), role: wanted })
}

/// What the administrator is shown of a user that was stored.
pub fn created_row(user: NewUser, created_at: String) -> (r: UserRow)
    ensures
        r.username == user.username,
        r.role == user.role,
        r.is_active,
        r.created_at == created_at,
        r.blocked_reason is None,
{
    UserRow {
        username: user.username,
        role: user.role,
        is_active: true,
        created_at,
        blocked_reason: None,
    }
}

/// What is answered where a user could not be stored.
pub fn user_not_created(error: &str) -> (r: AppError)
    ensures
        r.says(Status::BadRequest, "No se pudo crear el usuario: "@ + error@),
{
    let mut message: String = owned("No se pudo crear el usuario: ");
    message.push_str(error);
    AppError { status: Status::BadRequest, message }
}

/// What is stored of a user when they are blocked or let in again.
#[derive(Debug)]
pub struct BlockPlan {
    pub username: String,
    pub is_active: i64,
    pub blocked_reason: Option<String>,
    pub end_sessions: bool,
}

/// What to store to block a user, or to let them in again; nobody blocks themselves.
pub fn plan_block(
    current: &AuthUser,
    username: &str,
    blocked: bool,
    reason: Option<String>,
) -> (r: Result<BlockPlan, AppError>)
    ensures
        match r {
            Ok(plan) => {
                &&& user_name(username@) != current.username@
                &&& plan.username@ == user_name(username@)
                &&& plan.is_active == (if blocked {
                    0int
                } else {
                    1int
                })
                &&& plan.end_sessions == blocked
                &&& match plan.blocked_reason {
                    Some(stored) => blocked && stored@ == (match reason {
                        Some(given) => given@,
                        None => "Bloqueado por administración."@,
                    }),
                    None => !blocked,
                }
            },
            Err(e) => {
                &&& user_name(username@) == current.username@
                &&& e.says(
                    Status::BadRequest,
                    "El administrador no puede bloquear su propia sesión."@,
                )
            },
        },
{
    let name: String = normalize_username(username);
    if same_text(name.as_str(), current.username.as_str()) {
        return Err(
            AppError::new(
                Status::BadRequest,
                "El administrador no puede bloquear su propia sesión.",
            ),
        );
    }
    let is_active: i64 = if blocked {
        0
    } else {
        1
    };
    let blocked_reason: Option<String> = if blocked {
        match reason {
            Some(given) => Some(given),
            None => Some(owned("Bloqueado por administración.")),
        }
    } else {
        None
    };
    Ok(BlockPlan { username: name, is_active, blocked_reason, end_sessions: blocked })
}

/// The administrator to store at the start, where there is none yet.
pub fn default_admin(config: &Config, admin_count: i64) -> (r: Option<NewUser>)
    ensures
        match r {
            Some(user) => {
                &&& admin_count == 0
                &&& user.username@ == text::lowercase(config.admin_username@)
                &&& user.password_hash@ == fingerprint::password_digest(
                    config.auth_salt@,
                    config.admin_password@,
                )
                &&& user.role@ == "admin"@
            },
            None => admin_count != 0,
        },
{
    if admin_count != 0 {
        return None;
    }
    Some(
        NewUser {
            username: to_lowercase(config.admin_username.as_str()),
            password_hash: hash_password(config, config.admin_password.as_str()),
            role: owned("admin"),
        },
    )
}

/// A user who was stored with a password is let in with it, as long as they are
/// active.
pub proof fn stored_user_is_let_in(record: UserRecord, salt: Seq<char>, password: Seq<char>)
    requires
        record.password_hash@ == fingerprint::password_digest(salt, password),
        record.is_active != 0,
    ensures
        login_outcome(Some(record), fingerprint::password_digest(salt, password))
            == LoginOutcome::Accepted,
{
}

/// A user who was blocked is not let in, whatever the password, and is told the
/// reason that was stored; nor does any session of theirs count.
pub proof fn blocked_user_is_kept_out(
    plan: BlockPlan,
    record: UserRecord,
    row: SessionRow,
    digest: Seq<char>,
    now: i64,
)
    requires
        plan.is_active == 0,
        plan.blocked_reason is Some,
        record.is_active == plan.is_active,
        record.blocked_reason == plan.blocked_reason,
        row.is_active == plan.is_active,
    ensures
        login_outcome(Some(record), digest) == LoginOutcome::Blocked(plan.blocked_reason->0@),
        !row.counts(now),
{
}

// ---------------------------------------------------------------------------
// Who is let in, and for how long
// ---------------------------------------------------------------------------

/// A user name keeps all of its characters but the white space around it; ASCII letters
/// become small, and what is small already stays as it is.
pub proof fn user_names_keep_their_characters(given: Seq<char>)
    ensures
        user_name(given) == text::lowercase(text::trimmed(given)),
        vstd::utf8::is_ascii_chars(text::trimmed(given)) ==> user_name(given)
            == text::ascii_folded(text::trimmed(given)),
        vstd::utf8::is_ascii_chars(text::trimmed(given)) ==> user_name(given).len()
            == text::trimmed(given).len(),
{
    if vstd::utf8::is_ascii_chars(text::trimmed(given)) {
        text::ascii_is_lowered_letter_by_letter(text::trimmed(given));
        text::folding_is_letter_by_letter(text::trimmed(given));
    }
}

/// A user is let in if and only if there is one of that name, who is active and whose
/// digest is that of the password; one who is blocked is told the reason, or that they are
/// blocked where there is none.
pub proof fn only_active_users_with_the_digest_are_let_in(
    record: Option<UserRecord>,
    digest: Seq<char>,
)
    ensures
        login_outcome(record, digest) is Accepted <==> record is Some && record->0.is_active != 0
            && record->0.password_hash@ == digest,
        login_outcome(record, digest) is WrongCredentials <==> record is None || (
        record->0.is_active != 0 && record->0.password_hash@ != digest),
        record is Some && record->0.is_active == 0 ==> login_outcome(record, digest)
            == LoginOutcome::Blocked(
            match record->0.blocked_reason {
                Some(reason) => reason@,
                None => "Usuario bloqueado."@,
            },
        ),
{
}

/// A user is let in with no other password than the one that was stored, as long as
/// SHA-256 tells the two messages apart.
pub proof fn no_other_password_is_accepted(
    record: UserRecord,
    salt: Seq<char>,
    password: Seq<char>,
    given: Seq<char>,
)
    requires
        fingerprint::sha256_tells_apart(
            vstd::utf8::encode_utf8(salt + ":"@ + password),
            vstd::utf8::encode_utf8(salt + ":"@ + given),
        ),
        record.password_hash@ == fingerprint::password_digest(salt, password),
        login_outcome(Some(record), fingerprint::password_digest(salt, given)) is Accepted,
    ensures
        given == password,
{
    fingerprint::digests_tell_passwords_and_salts_apart(salt, salt, password, given);
}

/// The browser is told to keep the token as it is, to send it everywhere on the site, to
/// keep it from scripts, and to forget it when the session ends.
pub proof fn cookies_have_the_token_and_its_time(token: Seq<char>, session_hours: int)
    ensures
        session_cookie(token, session_hours) == "rag_session="@ + token
            + "; Path=/; HttpOnly; SameSite=Lax; Max-Age="@ + numbers::signed_decimal(
            session_hours * 3600,
        ),
{
    reveal_strlit("rag_session");
    reveal_strlit("rag_session=");
    assert("rag_session"@.push('=') =~= "rag_session="@);
}

/// A pair of a cookie header has the token where, up to white space, it is
/// `rag_session=` and something that is not blank; the token is that, trimmed. No other
/// pair has one.
pub proof fn only_the_pair_of_the_session_has_a_token(pair: Seq<char>, value: Seq<char>)
    ensures
        text::trimmed(pair) == "rag_session="@ + value ==> token_in_pair(pair) == (
        if text::trimmed(value).len() > 0 {
            Some(text::trimmed(value))
        } else {
            None
        }),
        (forall|rest: Seq<char>| text::trimmed(pair) != #[trigger] ("rag_session="@ + rest))
            ==> token_in_pair(pair) is None,
{
    reveal_strlit("rag_session");
    reveal_strlit("rag_session=");
    let name = "rag_session="@;
    assert("rag_session"@.push('=') =~= name);
    let t = text::trimmed(pair);
    if t == name + value {
        text::beginnings_are_followed_by_the_rest(t, name);
        assert(t.take(name.len() as int) == name);
        assert(t.skip(name.len() as int) == value);
    }
    if forall|rest: Seq<char>| t != #[trigger] (name + rest) {
        if text::starts_with(t, name) {
            text::beginnings_are_followed_by_the_rest(t, name);
            assert(t == name + t.skip(name.len() as int));
        }
    }
}

/// A cookie header without `;` is a single pair.
pub proof fn a_header_without_semicolon_is_one_pair(header: Seq<char>)
    requires
        forall|i: int| 0 <= i < header.len() ==> #[trigger] header[i] != ';',
    ensures
        token_in_header(header) == token_in_pair(header),
{
    text::lemma_find_char_at(header, ';', header.len());
    assert(text::pieces(header, ';') == seq![header]);
    let pairs = seq![header];
    assert(pairs[0] == header);
    assert(pairs.skip(1) == Seq::<Seq<char>>::empty());
    assert(first_token(Seq::<Seq<char>>::empty()) is None);
}

/// A session counts before the second in which it expires, and only for an active user.
pub proof fn sessions_count_until_they_expire(row: SessionRow, now: i64)
    ensures
        row.counts(now) <==> now < row.expires_at && row.is_active != 0,
{
}

/// A session can be opened where its length and its end, in seconds, are numbers of 64 bits.
pub proof fn ends_of_sessions_have_64_bits(now: i64, session_hours: i64)
    ensures
        representable(now, session_hours) <==> -0x8000_0000_0000_0000 <= session_hours * 3600
            <= 0x7fff_ffff_ffff_ffff && -0x8000_0000_0000_0000 <= now + session_hours * 3600
            <= 0x7fff_ffff_ffff_ffff,
{
}

/// There are two roles, and a new user who is given none is no administrator.
pub proof fn there_are_two_roles(role: Seq<char>, given: Option<String>)
    ensures
        is_role(role) <==> role == "admin"@ || role == "user"@,
        role_or_user(None) == "user"@,
        given is Some ==> role_or_user(given) == given->0@,
{
}

/// A user name has at least 3 bytes, in the form in which it is stored, and a password at
/// least 4.
pub proof fn names_have_3_bytes_and_passwords_4(username: Seq<char>, password: Seq<char>)
    ensures
        long_enough(username, password) <==> vstd::utf8::encode_utf8(
            text::lowercase(text::trimmed(username)),
        ).len() >= 3 && vstd::utf8::encode_utf8(password).len() >= 4,
{
}

} // verus!
