//! An XML document held as two tables of rows, nodes and attributes, with
//! structural navigation, CSS-selector matching, value-type inference and
//! redaction over them.

use vstd::prelude::*;
use vstd::utf8::{decode_utf8, valid_utf8};

pub mod builder;
pub mod css;
pub mod document;
pub mod infer;
pub mod model;
pub mod nesting;
pub mod parse;
pub mod redact;
pub mod select;
pub mod text;
pub mod writer;

pub use document::{DbError, DocumentDb, DocumentView, NodeType};
pub use infer::{Inferred, InferredType};
pub use parse::{Error, ParseOptions};
pub use select::Selector;

verus! {

/// Reads an XML text into a new store. Fails with the place at which the
/// tokenizer gives the text up, if it does, and else with the reason for
/// which the store refuses a row, if it refuses one; it refuses none where
/// the elements of the text nest as in a document.
pub fn parse_in_memory(input: &str, options: ParseOptions) -> (r: Result<DocumentDb, Error>)
    ensures
        match parse::parse_spec(DocumentView::empty(options), parse::xml_tokens(input@)) {
            Ok(v) => r is Ok && r->Ok_0@ == v,
            Err(e) => r == Err::<DocumentDb, Error>(e),
        },
        r is Ok ==> r->Ok_0@.wf() && r->Ok_0@.strictly_ordered()
            && r->Ok_0@.order_follows_places(),
        parse::reads_well(parse::xml_tokens(input@)) ==> r is Ok,
{
    let db = DocumentDb::create_in_memory(options);
    parse::parse(db, input)
}

/// Trusted: the text that `std::str::from_utf8` makes of bytes. It makes
/// one exactly of the bytes that are UTF-8, and the text is what the bytes
/// encode.
#[verifier::external_body]
fn utf8_text(bytes: &[u8]) -> (r: Option<&str>)
    ensures
        r is Some <==> valid_utf8(bytes@),
        r is Some ==> r->0@ == decode_utf8(bytes@),
{
    std::str::from_utf8(bytes).ok()
}

/// Reads the bytes of an XML text into a new store. Bytes that are no UTF-8
/// are refused before anything is read.
pub fn parse_bytes_in_memory(input: &[u8], options: ParseOptions) -> (r: Result<DocumentDb, Error>)
    ensures
        !valid_utf8(input@) ==> r == Err::<DocumentDb, Error>(Error::Utf8),
        valid_utf8(input@) ==> match parse::parse_spec(
            DocumentView::empty(options),
            parse::xml_tokens(decode_utf8(input@)),
        ) {
            Ok(v) => r is Ok && r->Ok_0@ == v,
            Err(e) => r == Err::<DocumentDb, Error>(e),
        },
        r is Ok ==> r->Ok_0@.wf() && r->Ok_0@.strictly_ordered()
            && r->Ok_0@.order_follows_places(),
        valid_utf8(input@) && parse::reads_well(parse::xml_tokens(decode_utf8(input@))) ==> r
            is Ok,
{
    match utf8_text(input) {
        Some(text) => parse_in_memory(text, options),
        None => Err(Error::Utf8),
    }
}

} // verus!
