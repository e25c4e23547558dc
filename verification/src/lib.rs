//! Conformance-test harness for an HTML parsing engine.
//!
//! The crate discovers externally authored fixtures in two textual formats
//! (a multi-section line format and a restricted JSON dialect), decodes them
//! into structured cases, runs each case against a parser, canonicalizes the
//! resulting document tree into a comparable text form, and aggregates
//! pass/fail statistics with a bounded, ordered list of failure detail.

use vstd::prelude::*;

pub mod dom;
pub mod engine;
pub mod html5lib;
pub mod json_spec;
pub mod section_spec;
pub mod serialize;
pub mod text;

verus! {

/// Options handed to the parser for a single run.
#[derive(Clone, Debug)]
pub struct Options {
    pub scripting_enabled: bool,
    pub iframe_srcdoc: bool,
    pub collect_errors: bool,
}

impl Default for Options {
    fn default() -> (r: Self)
        ensures
            !r.scripting_enabled,
            !r.iframe_srcdoc,
            !r.collect_errors,
    {
        Self { scripting_enabled: false, iframe_srcdoc: false, collect_errors: false }
    }
}

#[derive(Clone, Debug, PartialEq, Eq)]
pub struct Location {
    pub line: u32,
    pub col: u32,
}

#[derive(Clone, Debug, PartialEq, Eq)]
pub enum ErrorCode {
    Code(String),
}

#[derive(Clone, Debug, PartialEq, Eq)]
pub struct ParseError {
    pub code: ErrorCode,
    pub location: Location,
}

/// A parse result: the produced value together with the parse errors
/// collected along the way.
#[derive(Clone, Debug)]
pub struct Parsed<T> {
    pub value: T,
    pub errors: Vec<ParseError>,
}

/// The synthetic parent under which a fragment-parsing case is evaluated.
#[derive(Clone, Debug)]
pub struct FragmentContext {
    pub namespace: Option<String>,
    pub tag_name: String,
}

pub struct Parser {
    opts: Options,
}

impl Parser {
    /// The options this parser was created with.
    pub closed spec fn options(&self) -> Options {
        self.opts
    }

    pub fn new(opts: Options) -> (r: Self)
        ensures
            r.options() == opts,
    {
        Self { opts }
    }

    /// Parses a whole document.  The tree-construction algorithm is not
    /// implemented: the result is always an empty document, with a single
    /// placeholder error when error collection is on.
    pub fn parse_document(&mut self, _input: &str) -> (r: Parsed<dom::Document>)
        ensures
            final(self).options() == old(self).options(),
            r.value.arena@.len() == 1,
            r.value.root == 0usize,
            dom::is_fresh_node(r.value.arena@[0], dom::NodeData::Document),
            dom::wf_arena(r.value.arena@),
            old(self).options().collect_errors ==> r.errors@.len() == 1 && (
            r.errors@[0].code matches ErrorCode::Code(m) && m@ == "unimplemented"@)
                && r.errors@[0].location.line == 1 && r.errors@[0].location.col == 1,
            !old(self).options().collect_errors ==> r.errors@.len() == 0,
    {
        let doc = dom::Document::new_empty();
        let mut errors: Vec<ParseError> = Vec::new();
        if self.opts.collect_errors {
            errors.push(ParseError {
                code: ErrorCode::Code("unimplemented".to_owned()),
                location: Location { line: 1, col: 1 },
            });
        }
        Parsed { value: doc, errors }
    }

    /// Parses a fragment under the given context.  The tree-construction
    /// algorithm is not implemented: the result is always an empty
    /// fragment, with a single placeholder error when error collection is
    /// on.
    pub fn parse_fragment(&mut self, _ctx: FragmentContext, _input: &str) -> (r: Parsed<
        dom::DocumentFragment,
    >)
        ensures
            final(self).options() == old(self).options(),
            r.value.arena@.len() == 1,
            r.value.root == 0usize,
            dom::is_fresh_node(r.value.arena@[0], dom::NodeData::DocumentFragment),
            dom::wf_arena(r.value.arena@),
            old(self).options().collect_errors ==> r.errors@.len() == 1 && (
            r.errors@[0].code matches ErrorCode::Code(m) && m@ == "unimplemented"@)
                && r.errors@[0].location.line == 1 && r.errors@[0].location.col == 1,
            !old(self).options().collect_errors ==> r.errors@.len() == 0,
    {
        let frag = dom::DocumentFragment::new_empty();
        let mut errors: Vec<ParseError> = Vec::new();
        if self.opts.collect_errors {
            errors.push(ParseError {
                code: ErrorCode::Code("unimplemented".to_owned()),
                location: Location { line: 1, col: 1 },
            });
        }
        Parsed { value: frag, errors }
    }
}

} // verus!
