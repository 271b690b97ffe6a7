//! JSON lists as PowerShell writes them: `ConvertTo-Json` writes a list of one
//! element as that element, and an empty list may come as `null`.

use vstd::prelude::*;

use crate::text::texts;

verus! {

/// The error of a JSON text that cannot be read.
#[verifier::external_type_specification]
#[verifier::external_body]
pub struct ExJsonError(serde_json::Error);

/// A JSON text, as far as it matters whether it is a list. What it holds stands
/// as compact JSON text.
#[derive(Debug)]
pub enum JsonDocument {
    Null,
    Array(Vec<String>),
    Other(String),
}

/// A JSON text, as far as it matters whether it is a list.
pub enum JsonDocumentView {
    Null,
    Array(Seq<Seq<char>>),
    Other(Seq<char>),
}

impl View for JsonDocument {
    type V = JsonDocumentView;

    open spec fn view(&self) -> JsonDocumentView {
        match *self {
            JsonDocument::Null => JsonDocumentView::Null,
            JsonDocument::Array(elements) => JsonDocumentView::Array(texts(elements@)),
            JsonDocument::Other(text) => JsonDocumentView::Other(text@),
        }
    }
}

/// What a JSON text says; nothing where it is not JSON.
pub uninterp spec fn json_document(text: Seq<char>) -> Option<JsonDocumentView>;

/// `serde_json::from_str` into a `serde_json::Value`, whose parts are handed on
/// as the compact JSON text that their `Display` gives. Which texts are JSON and
/// what their parts are is not stated beyond being the same for the same text.
#[verifier::external_body]
fn read_json(text: &str) -> (r: Result<JsonDocument, serde_json::Error>)
    ensures
        match r {
            Ok(document) => json_document(text@) == Some(document@),
            Err(_) => json_document(text@) is None,
        },
{
    match serde_json::from_str(text)? {
        serde_json::Value::Null => Ok(JsonDocument::Null),
        serde_json::Value::Array(elements) => Ok(
            JsonDocument::Array(elements.iter().map(|element| element.to_string()).collect()),
        ),
        value => Ok(JsonDocument::Other(value.to_string())),
    }
}

/// The elements that a document stands for: none for `null`, those of a list,
/// and anything else as the one element of a list.
pub open spec fn elements_of(document: JsonDocumentView) -> Seq<Seq<char>> {
    match document {
        JsonDocumentView::Null => Seq::empty(),
        JsonDocumentView::Array(elements) => elements,
        JsonDocumentView::Other(text) => seq![text],
    }
}

/// The elements that a document stands for.
pub fn document_elements(document: JsonDocument) -> (r: Vec<String>)
    ensures
        texts(r@) == elements_of(document@),
{
    match document {
        JsonDocument::Null => {
            let none: Vec<String> = Vec::new();
            assert(texts(none@) =~= Seq::empty());
            none
        },
        JsonDocument::Array(elements) => elements,
        JsonDocument::Other(text) => {
            let mut one: Vec<String> = Vec::new();
            one.push(text);
            assert(texts(one@) =~= seq![text@]);
            one
        },
    }
}

/// Why no list could be read.
#[derive(Debug)]
pub enum JsonListError {
    /// PowerShell did not return JSON.
    NotJson(serde_json::Error),
}

/// Reads a list as PowerShell writes it, and gives the JSON text of each
/// element.
pub fn parse_json_array(json: &str) -> (r: Result<Vec<String>, JsonListError>)
    ensures
        r is Ok <==> json_document(json@) is Some,
        r matches Ok(elements) ==> texts(elements@) == elements_of(json_document(json@)->0),
        json_document(json@) is None ==> r matches Err(JsonListError::NotJson(_)),
{
    match read_json(json) {
        Ok(document) => Ok(document_elements(document)),
        Err(error) => Err(JsonListError::NotJson(error)),
    }
}

/// `null` is an empty list, a list is its elements in their order, and anything else
/// is a list of one.
pub proof fn law_elements(elements: Seq<Seq<char>>, text: Seq<char>)
    ensures
        elements_of(JsonDocumentView::Null).len() == 0,
        elements_of(JsonDocumentView::Array(elements)) == elements,
        elements_of(JsonDocumentView::Other(text)).len() == 1,
        elements_of(JsonDocumentView::Other(text))[0] == text,
{
}

} // verus!
