use vstd::prelude::*;
use crate::models::NoteSave;
use crate::store::{deleted, listed, loaded, renamed, saved, uploaded, ListEntry, State, StoreError};

verus! {

/// The documents with their metadata.
pub fn list_notes(store: &mut State) -> (r: Result<&Vec<ListEntry>, StoreError>)
    requires
        old(store).wf(),
    ensures
        final(store).wf(),
        listed(*old(store), *final(store), r),
{
    store.list_documents()
}

/// The content of the note at `path` and its suggested media type.
pub fn load_note(store: &State, path: &str) -> (r: Result<(Vec<u8>, Option<String>), StoreError>)
    requires
        store.wf(),
    ensures
        loaded(*store, path@, r),
{
    store.load_document(path)
}

/// Saves new content at `path`, or moves the document named in the request
/// there, as the request says.
pub fn save_note(store: &mut State, path: &str, note: &NoteSave, now: u64) -> (r: Result<(), StoreError>)
    requires
        old(store).wf(),
    ensures
        final(store).wf(),
        match note {
            NoteSave::Save { content, message } => saved(*old(store), *final(store), path@, content@, message@, now, r),
            NoteSave::Rename { from } => renamed(*old(store), *final(store), from@, path@, now, r),
        },
{
    match note {
        NoteSave::Save { content, message } => store.save_document(path, content.as_str(), message.as_str(), now),
        NoteSave::Rename { from } => store.rename_document(from.as_str(), path, now),
    }
}

/// Deletes the note at `path`.
pub fn delete_note(store: &mut State, path: &str, now: u64) -> (r: Result<(), StoreError>)
    requires
        old(store).wf(),
    ensures
        final(store).wf(),
        deleted(*old(store), *final(store), path@, now, r),
{
    store.delete_document(path, now)
}

/// The content of the file at `path` and its suggested media type.
pub fn download_file(store: &State, path: &str) -> (r: Result<(Vec<u8>, Option<String>), StoreError>)
    requires
        store.wf(),
    ensures
        loaded(*store, path@, r),
{
    store.load_document(path)
}

/// Stores the uploaded `(file name, content)` pairs in one commit.
pub fn upload_file(store: &mut State, files: &Vec<(String, Vec<u8>)>, now: u64) -> (r: Result<(), StoreError>)
    requires
        old(store).wf(),
    ensures
        final(store).wf(),
        uploaded(*old(store), *final(store), files@, now, r),
{
    store.upload_documents(files, now)
}

/// Why a request was turned away.
#[derive(Clone, Copy, Debug, PartialEq, Eq, Structural)]
pub enum Rejection {
    NotFound,
    Conflict,
    MissingAuthorization,
    Unauthorized,
    BadRequest,
    Internal,
}

/// The rejection that a store error calls for.
pub fn store_rejection(e: StoreError) -> (r: Rejection)
    ensures
        r == match e {
            StoreError::NotFound => Rejection::NotFound,
            StoreError::Conflict => Rejection::Conflict,
            StoreError::Internal => Rejection::Internal,
            StoreError::InvalidPath => Rejection::BadRequest,
        },
{
    match e {
        StoreError::NotFound => Rejection::NotFound,
        StoreError::Conflict => Rejection::Conflict,
        StoreError::Internal => Rejection::Internal,
        StoreError::InvalidPath => Rejection::BadRequest,
    }
}

/// The HTTP status code that answers a rejected request.
pub fn rejection(r: Rejection) -> (code: u16)
    ensures
        code == match r {
            Rejection::NotFound => 404u16,
            Rejection::Conflict => 409u16,
            Rejection::MissingAuthorization => 401u16,
            Rejection::Unauthorized => 401u16,
            Rejection::BadRequest => 400u16,
            Rejection::Internal => 500u16,
        },
{
    match r {
        Rejection::NotFound => 404,
        Rejection::Conflict => 409,
        Rejection::MissingAuthorization | Rejection::Unauthorized => 401,
        Rejection::BadRequest => 400,
        Rejection::Internal => 500,
    }
}

} // verus!
