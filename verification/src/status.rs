//! What the service says about itself.
use crate::auth::AuthUser;
use crate::config::Config;
use vstd::prelude::*;

verus! {

/// What a user is shown of the state of the service.
#[derive(Debug)]
pub struct StatusResponse {
    pub docs_dir: String,
    pub qdrant_url: String,
    pub collection: String,
    pub openrouter_enabled: bool,
    pub openrouter_model: String,
    pub index_interval_seconds: u64,
    pub manifest_documents: i64,
    pub user: AuthUser,
}

/// What a user is shown of the state of the service, given the number of documents in
/// the index. The key of the language model is not shown, only whether there is one.
pub fn status_response(config: &Config, manifest_documents: i64, user: AuthUser) -> (r:
    StatusResponse)
    ensures
        r.docs_dir == config.docs_dir,
        r.qdrant_url == config.qdrant_url,
        r.collection == config.collection,
        r.openrouter_enabled == config.openrouter_api_key is Some,
        r.openrouter_model == config.openrouter_model,
        r.index_interval_seconds == config.index_interval_seconds,
        r.manifest_documents == manifest_documents,
        r.user == user,
{
    StatusResponse {
        docs_dir: config.docs_dir.clone(),
        qdrant_url: config.qdrant_url.clone(),
        collection: config.collection.clone(),
        openrouter_enabled: config.openrouter_api_key.is_some(),
        openrouter_model: config.openrouter_model.clone(),
        index_interval_seconds: config.index_interval_seconds,
        manifest_documents,
        user,
    }
}

} // verus!
