use vstd::prelude::*;
use crate::lexer::{lex, tokenize, LexError};
use crate::parser::{parse, parse_tokens, ParseError, ParseFault};
use crate::scenario::{extract, extracted, strings_view, TreeError};
use crate::value::{dict_view, keys_unique, Entry, Tree};

verus! {

#[verifier::external_type_specification]
#[verifier::external_body]
pub struct ExYamlError(serde_yaml::Error);

/// The YAML text that serde_yaml writes for a list of strings, or `None`
/// where it reports an error; either way a function of the list alone.
pub uninterp spec fn yaml_of(list: Seq<Seq<char>>) -> Option<Seq<char>>;

/// The list of strings that serde_yaml reads from a YAML text, if it holds one.
pub uninterp spec fn yaml_strings(text: Seq<char>) -> Option<Seq<Seq<char>>>;

/// Relies on `serde_yaml::to_string`: whether it succeeds, and the YAML text
/// it writes, depend on the list alone.
#[verifier::external_body]
fn yaml_text(list: &Vec<String>) -> (r: Result<String, serde_yaml::Error>)
    ensures
        match r {
            Ok(s) => yaml_of(strings_view(list@)) == Some(s@),
            Err(_) => yaml_of(strings_view(list@)) is None,
        },
{
    serde_yaml::to_string(list)
}

/// Relies on `serde_yaml::from_str::<Vec<String>>`: whether the text holds a
/// list of strings, and which, depends on the text alone.
#[verifier::external_body]
fn yaml_list(text: &str) -> (r: Result<Vec<String>, serde_yaml::Error>)
    ensures
        match r {
            Ok(v) => yaml_strings(text@) == Some(strings_view(v@)),
            Err(_) => yaml_strings(text@) is None,
        },
{
    serde_yaml::from_str(text)
}

/// Why a script text is not a document.
#[derive(Debug)]
pub enum SyntaxError {
    Lex(LexError),
    Parse(ParseError),
}

/// Why the dialogue of a document could not be written out as YAML.
#[derive(Debug)]
pub enum ExportError {
    Tree(TreeError),
    Yaml,
}

/// Why a YAML text does not hold a list of strings.
#[derive(PartialEq, Eq, Structural, Clone, Copy, Debug)]
pub enum ListError {
    NotAStringList,
}

/// The document that a script text spells, or why it spells none.
pub open spec fn parsed(text: Seq<char>) -> Result<Seq<(Seq<char>, Tree)>, (Option<LexError>, Option<ParseFault>)> {
    match lex(text) {
        Err(e) => Err((Some(e), None)),
        Ok(ts) => match parse(ts) {
            Ok(d) => Ok(d),
            Err(f) => Err((None, Some(f))),
        },
    }
}

/// Splits a script text into tokens and parses them into a document.
pub fn parse_script(input: &str) -> (r: Result<Vec<Entry>, SyntaxError>)
    ensures
        parsed(input@) == match r {
            Ok(d) => Ok(dict_view(d@)),
            Err(SyntaxError::Lex(e)) => Err((Some(e), None)),
            Err(SyntaxError::Parse(f)) => Err((None, Some(f.view()))),
        },
        r matches Ok(d) ==> keys_unique(dict_view(d@)),
{
    match tokenize(input) {
        Err(e) => Err(SyntaxError::Lex(e)),
        Ok(tokens) => match parse_tokens(&tokens) {
            Ok(d) => Ok(d),
            Err(f) => Err(SyntaxError::Parse(f)),
        },
    }
}

/// The dialogue strings of a document as a YAML list.
pub fn extract_to_yaml(doc: &Vec<Entry>) -> (r: Result<String, ExportError>)
    ensures
        match extracted(dict_view(doc@)) {
            Err(e) => r matches Err(ExportError::Tree(f)) && f == e,
            Ok(xs) => match yaml_of(xs) {
                Some(t) => r matches Ok(s) && s@ == t,
                None => r matches Err(ExportError::Yaml),
            },
        },
{
    match extract(doc) {
        Err(e) => Err(ExportError::Tree(e)),
        Ok(xs) => match yaml_text(&xs) {
            Ok(s) => Ok(s),
            Err(_) => Err(ExportError::Yaml),
        },
    }
}

/// The list of strings that a YAML text holds.
pub fn read_yaml_as_strings(content: &str) -> (r: Result<Vec<String>, ListError>)
    ensures
        match yaml_strings(content@) {
            Some(l) => r matches Ok(v) && strings_view(v@) == l,
            None => r == Err::<Vec<String>, ListError>(ListError::NotAStringList),
        },
{
    match yaml_list(content) {
        Ok(v) => Ok(v),
        Err(_) => Err(ListError::NotAStringList),
    }
}

} // verus!
