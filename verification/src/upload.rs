//! Uploading documents: which files are accepted, and under which names.
use crate::config::Config;
use crate::error::{AppError, Status};
use crate::paths;
use crate::paths::{is_supported_filename, join_path, sanitize_filename};
use crate::text::owned;
use vstd::prelude::*;

verus! {

/// How many bytes an uploaded file has at most: 80 MB.
pub const MOST_UPLOAD_BYTES: usize = 83886080;

/// What is answered to an upload.
#[derive(Debug)]
pub struct UploadResponse {
    pub ok: bool,
    pub files: Vec<String>,
    pub message: String,
}

/// The name to store a part of an upload under; none where the part is no file. A file
/// of a format that is not supported ends the upload.
pub fn accept_name(file_name: Option<&str>) -> (r: Result<Option<String>, AppError>)
    ensures
        match (file_name, r) {
            (None, Ok(stored)) => stored is None,
            (None, Err(_)) => false,
            (Some(given), Ok(Some(stored))) => {
                &&& stored@ == paths::safe_name(given@)
                &&& paths::supported(stored@)
            },
            (Some(_), Ok(None)) => false,
            (Some(given), Err(e)) => {
                &&& !paths::supported(paths::safe_name(given@))
                &&& e.says(
                    Status::BadRequest,
                    "Formato no permitido: "@ + paths::safe_name(given@)
                        + ". Use .txt, .md o .pdf"@,
                )
            },
        },
{
    let given: &str = match file_name {
        Some(given) => given,
        None => {
            return Ok(None);
        },
    };
    let safe: String = sanitize_filename(given);
    if !is_supported_filename(safe.as_str()) {
        let mut message: String = owned("Formato no permitido: ");
        message.push_str(safe.as_str());
        message.push_str(". Use .txt, .md o .pdf");
        return Err(AppError { status: Status::BadRequest, message });
    }
    Ok(Some(safe))
}

/// Whether a file of this many bytes is stored: an empty one is passed over, and one
/// that is too large ends the upload.
pub fn accept_size(bytes: usize) -> (r: Result<bool, AppError>)
    ensures
        match r {
            Ok(stored) => bytes <= MOST_UPLOAD_BYTES && stored == (bytes > 0),
            Err(e) => bytes > MOST_UPLOAD_BYTES && e.says(
                Status::BadRequest,
                "El archivo supera 80 MB."@,
            ),
        },
{
    if bytes == 0 {
        return Ok(false);
    }
    if bytes > MOST_UPLOAD_BYTES {
        return Err(AppError::new(Status::BadRequest, "El archivo supera 80 MB."));
    }
    Ok(true)
}

/// Where a file is stored: in the document directory.
pub fn destination(config: &Config, name: &str) -> (r: String)
    ensures
        r@ == paths::path_in(config.docs_dir@, name@),
{
    join_path(config.docs_dir.as_str(), name)
}

/// What is answered once all parts were read, given the names of the files that were
/// stored: an upload without any is refused.
pub fn finish_upload(saved: Vec<String>) -> (r: Result<UploadResponse, AppError>)
    ensures
        match r {
            Ok(response) => {
                &&& saved@.len() > 0
                &&& response.ok
                &&& response.files == saved
                &&& response.message@
                    == "Archivo(s) subido(s). La indexación se ejecuta sin detener el servicio."@
            },
            Err(e) => {
                &&& saved@.len() == 0
                &&& e.says(Status::BadRequest, "No se recibió ningún archivo válido."@)
            },
        },
{
    if saved.len() == 0 {
        return Err(AppError::new(Status::BadRequest, "No se recibió ningún archivo válido."));
    }
    Ok(
        UploadResponse {
            ok: true,
            files: saved,
            message: owned(
                "Archivo(s) subido(s). La indexación se ejecuta sin detener el servicio.",
            ),
        },
    )
}

/// A file of 80 MB is accepted, of 1024 times 1024 bytes each.
pub proof fn uploads_have_80_megabytes_at_most()
    ensures
        MOST_UPLOAD_BYTES == 80 * 1024 * 1024,
{
}

} // verus!
