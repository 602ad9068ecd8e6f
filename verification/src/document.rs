//! Parsing a whole document into its value tree.

use vstd::prelude::*;
use crate::builder::{BuilderState, ValueBuilder};
use crate::error::{Error, ErrorView};
use crate::grammar::run;
use crate::laws::lemma_document_wf;
use crate::parser::Parser;
use crate::text::text_of;
use crate::utf8::{decode_prefix, lemma_prefix_of_valid, prefix_chars, prefix_len};
use vstd::utf8::{decode_utf8, valid_utf8};
use crate::value::{lemma_view_table, Tree, Value};

verus! {

/// The tree of the document `s`, or why there is none.
///
/// `fault` is the read error that cut the source short after `s`, where there
/// was one. A document that breaks the grammar or a structural rule is a
/// `ParseError`, whatever the fault; one that is read to the end of a source
/// that a fault ended is an `IOError`.
pub open spec fn document(s: Seq<char>, fault: Option<Seq<char>>) -> Result<Tree, ErrorView> {
    let out = run::<ValueBuilder>(
        s,
        0,
        BuilderState { root: Seq::empty(), path: Seq::empty() },
    );
    if !out.complete {
        Err(ErrorView::ParseError)
    } else {
        match fault {
            Some(what) => Err(ErrorView::IOError(what)),
            None => Ok(Tree::Table(false, out.state.root)),
        }
    }
}

/// The models of a parse result.
pub open spec fn outcome_of(r: Result<Value, Error>) -> Result<Tree, ErrorView> {
    match r {
        Ok(v) => Ok(v@),
        Err(e) => Err(e@),
    }
}

/// Parses the characters `input` of a source held in memory. `fault`
/// describes the read error that cut the source short, where there was one.
pub fn parse_from_buffer(input: Vec<char>, fault: Option<String>) -> (r: Result<Value, Error>)
    ensures
        outcome_of(r) == document(input@, text_of(fault)),
        r is Ok ==> r.unwrap()@.wf(),
{
    proof {
        lemma_document_wf(input@, text_of(fault));
    }
    let mut builder = ValueBuilder::new();
    let mut parser = Parser::new(input, fault);
    match parser.parse(&mut builder) {
        Err(e) => Err(e),
        Ok(_) => {
            let root = builder.into_root();
            proof {
                lemma_view_table(false, root);
            }
            Ok(Value::Table(false, root))
        },
    }
}

/// The fault reported for bytes that are not UTF-8.
pub open spec fn encoding_fault() -> Seq<char> {
    "stream did not contain valid UTF-8"@
}

/// The tree of the document whose source yielded `bytes` and then ended, by
/// the read error `fault` where there was one; or why there is no tree.
///
/// The document is the text of the well-formed UTF-8 that `bytes` starts
/// with. Where bytes follow that are not well formed, they are the fault
/// that ended the source: they stand before any read error.
pub open spec fn document_of_partial(bytes: Seq<u8>, fault: Option<Seq<char>>) -> Result<
    Tree,
    ErrorView,
> {
    document(
        prefix_chars(bytes),
        if prefix_len(bytes) == bytes.len() {
            fault
        } else {
            Some(encoding_fault())
        },
    )
}

/// The tree of the document held in `bytes`, or why there is none.
pub open spec fn document_of_bytes(bytes: Seq<u8>) -> Result<Tree, ErrorView> {
    document_of_partial(bytes, None)
}

/// Bytes that are UTF-8 as a whole are the document that they encode.
pub proof fn lemma_document_of_valid_bytes(bytes: Seq<u8>)
    requires
        valid_utf8(bytes),
    ensures
        document_of_bytes(bytes) == document(decode_utf8(bytes), None),
{
    lemma_prefix_of_valid(bytes);
}

/// Parses the bytes that a source yielded before it ended. `fault`
/// describes the read error that ended it, where there was one.
pub fn parse_from_partial(bytes: &[u8], fault: Option<String>) -> (r: Result<Value, Error>)
    ensures
        outcome_of(r) == document_of_partial(bytes@, text_of(fault)),
        r is Ok ==> r.unwrap()@.wf(),
{
    let (chars, used) = decode_prefix(bytes);
    let fault = if used == bytes.len() {
        fault
    } else {
        Some("stream did not contain valid UTF-8".to_owned())
    };
    parse_from_buffer(chars, fault)
}

/// Parses a document held in memory as UTF-8.
pub fn parse_from_bytes(bytes: &[u8]) -> (r: Result<Value, Error>)
    ensures
        outcome_of(r) == document_of_bytes(bytes@),
        r is Ok ==> r.unwrap()@.wf(),
{
    parse_from_partial(bytes, None)
}

} // verus!
