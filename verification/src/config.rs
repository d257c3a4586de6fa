//! The settings of the service, and how they follow from the environment.
use crate::numbers;
use crate::numbers::{parse_signed, parse_unsigned};
use crate::paths;
use crate::paths::join_path;
use crate::text;
use crate::text::{owned, trim};
use vstd::prelude::*;

verus! {

/// The environment variables that the service reads, where they are set.
pub struct Variables {
    pub docs_dir: Option<String>,
    pub state_dir: Option<String>,
    pub qdrant_url: Option<String>,
    pub qdrant_collection: Option<String>,
    pub openrouter_api_key: Option<String>,
    pub openrouter_model: Option<String>,
    pub openrouter_max_tokens: Option<String>,
    pub embedding_dimension: Option<String>,
    pub embedding_batch_size: Option<String>,
    pub index_interval_seconds: Option<String>,
    pub default_top_k: Option<String>,
    pub app_host: Option<String>,
    pub app_port: Option<String>,
    pub admin_username: Option<String>,
    pub admin_password: Option<String>,
    pub auth_salt: Option<String>,
    pub session_hours: Option<String>,
}

/// The settings of the service.
#[derive(Debug)]
pub struct Config {
    pub docs_dir: String,
    pub state_dir: String,
    pub qdrant_url: String,
    pub collection: String,
    pub openrouter_api_key: Option<String>,
    pub openrouter_model: String,
    pub openrouter_max_tokens: u32,
    pub embedding_dimension: usize,
    pub embedding_batch_size: usize,
    pub index_interval_seconds: u64,
    pub default_top_k: usize,
    pub app_host: String,
    pub app_port: u16,
    pub admin_username: String,
    pub admin_password: String,
    pub auth_salt: String,
    pub session_hours: i64,
}

/// The value of a variable, or the default where it is not set.
pub open spec fn text_setting(value: Option<String>, default: Seq<char>) -> Seq<char> {
    match value {
        Some(s) => s@,
        None => default,
    }
}

/// The number that a variable holds, or the default where it is not set or holds
/// no number from 0 to `max`.
pub open spec fn number_setting(value: Option<String>, max: nat, default: nat) -> nat {
    match value {
        Some(s) => match numbers::unsigned_number(s@, max) {
            Some(n) => n,
            None => default,
        },
        None => default,
    }
}

/// The number from 1 to `max` that a variable holds, or the default where it is not set
/// or holds no such number.
pub open spec fn count_setting(value: Option<String>, max: nat, default: nat) -> nat {
    if number_setting(value, max, 0) == 0 {
        default
    } else {
        number_setting(value, max, 0)
    }
}

/// The number of an `i64` that a variable holds, or the default.
pub open spec fn signed_setting(value: Option<String>, default: int) -> int {
    match value {
        Some(s) => match numbers::signed_number(s@) {
            Some(n) => n,
            None => default,
        },
        None => default,
    }
}

/// A key without the white space around it; a blank key is no key.
pub open spec fn key_setting(value: Option<String>) -> Option<Seq<char>> {
    match value {
        Some(s) => if text::trimmed(s@).len() == 0 {
            None
        } else {
            Some(text::trimmed(s@))
        },
        None => None,
    }
}

fn text_or(value: Option<String>, default: &str) -> (r: String)
    ensures
        r@ == text_setting(value, default@),
{
    match value {
        Some(s) => s,
        None => owned(default),
    }
}

fn number_or(value: &Option<String>, max: u64, default: u64) -> (r: u64)
    requires
        default <= max,
    ensures
        r == number_setting(*value, max as nat, default as nat),
        r <= max,
{
    match value {
        Some(s) => match parse_unsigned(s.as_str(), max) {
            Some(n) => n,
            None => default,
        },
        None => default,
    }
}

fn count_or(value: &Option<String>, max: u64, default: u64) -> (r: u64)
    requires
        0 < default <= max,
    ensures
        r == count_setting(*value, max as nat, default as nat),
        0 < r <= max,
{
    let n: u64 = number_or(value, max, 0);
    if n == 0 {
        default
    } else {
        n
    }
}

fn signed_or(value: &Option<String>, default: i64) -> (r: i64)
    ensures
        r == signed_setting(*value, default as int),
{
    match value {
        Some(s) => match parse_signed(s.as_str()) {
            Some(n) => n,
            None => default,
        },
        None => default,
    }
}

fn key_or_none(value: &Option<String>) -> (r: Option<String>)
    ensures
        match r {
            Some(key) => key_setting(*value) == Some(key@),
            None => key_setting(*value) is None,
        },
{
    match value {
        Some(s) => {
            let key: String = trim(s.as_str());
            if key.as_str().is_empty() {
                None
            } else {
                Some(key)
            }
        },
        None => None,
    }
}

impl Config {
    /// The settings that the environment gives, with a default for each that it
    /// does not.
    pub fn from_env(vars: Variables) -> (r: Self)
        ensures
            r.docs_dir@ == text_setting(vars.docs_dir, "/app/data/documents"@),
            r.state_dir@ == text_setting(vars.state_dir, "/app/data/state"@),
            r.qdrant_url@ == text_setting(vars.qdrant_url, "http://127.0.0.1:6333"@),
            r.collection@ == text_setting(vars.qdrant_collection, "rag_chunks"@),
            match r.openrouter_api_key {
                Some(key) => key_setting(vars.openrouter_api_key) == Some(key@),
                None => key_setting(vars.openrouter_api_key) is None,
            },
            r.openrouter_model@ == text_setting(vars.openrouter_model, "openai/gpt-5.2"@),
            r.openrouter_max_tokens == number_setting(
                vars.openrouter_max_tokens,
                u32::MAX as nat,
                4096,
            ),
            r.embedding_dimension == number_setting(
                vars.embedding_dimension,
                usize::MAX as nat,
                1536,
            ),
            r.embedding_batch_size == count_setting(
                vars.embedding_batch_size,
                usize::MAX as nat,
                16,
            ),
            r.embedding_batch_size > 0,
            r.index_interval_seconds == number_setting(
                vars.index_interval_seconds,
                u64::MAX as nat,
                3600,
            ),
            r.default_top_k == number_setting(vars.default_top_k, usize::MAX as nat, 6),
            r.app_host@ == text_setting(vars.app_host, "127.0.0.1"@),
            r.app_port == number_setting(vars.app_port, u16::MAX as nat, 8080),
            r.admin_username@ == text_setting(vars.admin_username, "admin"@),
            r.admin_password@ == text_setting(vars.admin_password, "admin123"@),
            r.auth_salt@ == text_setting(vars.auth_salt, "cambie-esta-sal-local"@),
            r.session_hours == signed_setting(vars.session_hours, 24),
    {
        let openrouter_api_key: Option<String> = key_or_none(&vars.openrouter_api_key);
        let openrouter_max_tokens: u32 = number_or(
            &vars.openrouter_max_tokens,
            u32::MAX as u64,
            4096,
        ) as u32;
        let embedding_dimension: usize = number_or(
            &vars.embedding_dimension,
            usize::MAX as u64,
            1536,
        ) as usize;
        let embedding_batch_size: usize = count_or(
            &vars.embedding_batch_size,
            usize::MAX as u64,
            16,
        ) as usize;
        let index_interval_seconds: u64 = number_or(&vars.index_interval_seconds, u64::MAX, 3600);
        let default_top_k: usize = number_or(&vars.default_top_k, usize::MAX as u64, 6) as usize;
        let app_port: u16 = number_or(&vars.app_port, u16::MAX as u64, 8080) as u16;
        let session_hours: i64 = signed_or(&vars.session_hours, 24);
        Config {
            docs_dir: text_or(vars.docs_dir, "/app/data/documents"),
            state_dir: text_or(vars.state_dir, "/app/data/state"),
            qdrant_url: text_or(vars.qdrant_url, "http://127.0.0.1:6333"),
            collection: text_or(vars.qdrant_collection, "rag_chunks"),
            openrouter_api_key,
            openrouter_model: text_or(vars.openrouter_model, "openai/gpt-5.2"),
            openrouter_max_tokens,
            embedding_dimension,
            embedding_batch_size,
            index_interval_seconds,
            default_top_k,
            app_host: text_or(vars.app_host, "127.0.0.1"),
            app_port,
            admin_username: text_or(vars.admin_username, "admin"),
            admin_password: text_or(vars.admin_password, "admin123"),
            auth_salt: text_or(vars.auth_salt, "cambie-esta-sal-local"),
            session_hours,
        }
    }

    /// Where the database lies: in the state directory.
    pub fn db_path(&self) -> (r: String)
        ensures
            r@ == paths::path_in(self.state_dir@, "manifest.sqlite"@),
    {
        join_path(self.state_dir.as_str(), "manifest.sqlite")
    }

    /// The address that the server listens on.
    pub fn address(&self) -> (r: String)
        ensures
            r@ == self.app_host@.push(':') + numbers::decimal(self.app_port as nat),
    {
        let mut out: String = owned(self.app_host.as_str());
        out.push(':');
        numbers::push_decimal(&mut out, self.app_port as u64);
        out
    }
}

/// A variable that is set gives its value as it is; one that is not gives the default.
pub proof fn values_that_are_set_count(value: String, default: Seq<char>)
    ensures
        text_setting(Some(value), default) == value@,
        text_setting(None, default) == default,
{
}

/// A number that is written out is the setting, as long as it is allowed; the default takes
/// the place of one that is too large and of what is not a number.
pub proof fn numbers_that_are_set_count(value: String, n: nat, max: nat, default: nat)
    ensures
        value@ == numbers::decimal(n) && n <= max ==> number_setting(Some(value), max, default)
            == n,
        value@ == numbers::decimal(n) && n > max ==> number_setting(Some(value), max, default)
            == default,
        value@ == numbers::decimal(n) && 1 <= n <= max ==> count_setting(
            Some(value),
            max,
            default,
        ) == n,
        value@ == numbers::decimal(n) && (n == 0 || n > max) ==> count_setting(
            Some(value),
            max,
            default,
        ) == default,
        numbers::unsigned_number(value@, max) is None ==> number_setting(Some(value), max, default)
            == default && count_setting(Some(value), max, default) == default,
        number_setting(None, max, default) == default,
        count_setting(None, max, default) == default,
{
    numbers::written_numbers_are_read_back(n, max);
}

/// A number with a sign that is written out is the setting, as long as it has 64 bits.
pub proof fn signed_numbers_that_are_set_count(value: String, n: int, default: int)
    ensures
        value@ == numbers::signed_decimal(n) ==> signed_setting(Some(value), default) == (
        if i64::MIN <= n <= i64::MAX {
            n
        } else {
            default
        }),
        numbers::signed_number(value@) is None ==> signed_setting(Some(value), default) == default,
        signed_setting(None, default) == default,
{
    numbers::written_signed_numbers_are_read_back(n);
}

/// A key counts without the white space around it and otherwise as it is; white space alone
/// is no key.
pub proof fn keys_are_trimmed(value: String, before: Seq<char>, key: Seq<char>, after: Seq<char>)
    requires
        text::is_blank(before),
        text::is_blank(after),
        value@ == before + key + after,
        text::trimmed(key) == key,
    ensures
        key.len() > 0 ==> key_setting(Some(value)) == Some(key),
        key.len() == 0 ==> key_setting(Some(value)) is None,
        key_setting(None) is None,
{
    text::padding_is_trimmed(before, key, after);
}

} // verus!
