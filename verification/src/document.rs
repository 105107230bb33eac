//! Reading configuration documents: each text parsed as YAML, the documents merged in order.
use vstd::prelude::*;

use crate::merge::{empty_mapping, law_merge_keeps_well_formed, merge_yaml, merged, merged_documents};
use crate::yaml::{Yaml, YamlView, lemma_mapping_view, well_formed};
use serde_yaml_ng::Value;

verus! {

#[verifier::external_type_specification]
#[verifier::external_body]
pub struct ExYamlError(serde_yaml_ng::Error);

/// A document that could not be parsed: its position among the documents, and the parser's error.
#[derive(Debug)]
pub struct ParseError {
    pub document: usize,
    pub cause: serde_yaml_ng::Error,
}

/// The library's form of a parsed value, converted one for one: a number by its text
/// (`Display`), a tag by its text without the leading `!`.
#[verifier::external_body]
fn library_value(v: Value) -> Yaml {
    match v {
        Value::Null => Yaml::Null,
        Value::Bool(b) => Yaml::Bool(b),
        Value::Number(n) => Yaml::Number(n.to_string()),
        Value::String(s) => Yaml::Text(s),
        Value::Sequence(items) => Yaml::List(items.into_iter().map(library_value).collect()),
        Value::Mapping(m) => Yaml::Mapping(m.into_iter().map(|(k, x)| (library_value(k), library_value(x))).collect()),
        Value::Tagged(t) => Yaml::Tagged(t.tag.to_string()[1..].to_string(), Box::new(library_value(t.value))),
    }
}

/// The value that `serde_yaml_ng::from_str` reads from a text, or `None` where it fails.
pub uninterp spec fn parsed_document(text: Seq<char>) -> Option<YamlView>;

/// The text parsed as one YAML document by `serde_yaml_ng::from_str`. The contract names the
/// parsed value (or the failure) as a function of the text, and states that a parsed value is
/// well formed: the parser refuses a mapping that repeats a key (by `Value` equality, which
/// `equivalent` implies) and makes every tag with `Tag::new`, which refuses an empty tag, so the
/// tag's text after the `!` is never empty.
#[verifier::external_body]
fn parse_document(text: &str) -> (r: Result<Yaml, serde_yaml_ng::Error>)
    ensures
        match r {
            Ok(y) => parsed_document(text@) == Some(y@) && well_formed(y@),
            Err(_) => parsed_document(text@) is None,
        },
{
    serde_yaml_ng::from_str::<Value>(text).map(library_value)
}

/// Parses `text` and merges the document onto `accumulated`; where the text does not parse, it
/// is left as it was and the error names the document by the position `document`. A parsed
/// document is well formed, and merging it keeps a well-formed value well formed.
pub fn merge_document_text(accumulated: &mut Yaml, text: &str, document: usize) -> (r: Result<(), ParseError>)
    ensures
        match r {
            Ok(()) => parsed_document(text@) is Some && well_formed(parsed_document(text@)->Some_0)
                && final(accumulated)@ == merged(old(accumulated)@, parsed_document(text@)->Some_0)
                && (well_formed(old(accumulated)@) ==> well_formed(final(accumulated)@)),
            Err(e) => parsed_document(text@) is None && e.document == document && final(accumulated)@
                == old(accumulated)@,
        },
{
    match parse_document(text) {
        Ok(value) => {
            proof {
                if well_formed(accumulated@) {
                    law_merge_keeps_well_formed(accumulated@, value@);
                }
            }
            merge_yaml(accumulated, value);
            Ok(())
        },
        Err(cause) => Err(ParseError { document, cause }),
    }
}

/// The views of the texts.
pub open spec fn texts_view(texts: Seq<String>) -> Seq<Seq<char>> {
    texts.map_values(|t: String| t@)
}

/// The documents the texts parse to (meaningful where each parses).
pub open spec fn parsed_documents(texts: Seq<Seq<char>>) -> Seq<YamlView> {
    texts.map_values(|t: Seq<char>| parsed_document(t)->Some_0)
}

/// Parses each text as a YAML document and merges the documents in order onto an empty mapping.
/// Where a text does not parse, the error names the first such text.
pub fn load_documents(texts: &Vec<String>) -> (r: Result<Yaml, ParseError>)
    ensures
        match r {
            Ok(y) => (forall|i: int|
                0 <= i < texts@.len() ==> #[trigger] parsed_document(texts@[i]@) is Some) && y@
                == merged_documents(parsed_documents(texts_view(texts@))) && well_formed(y@),
            Err(e) => e.document < texts@.len() && parsed_document(texts@[e.document as int]@) is None
                && forall|i: int|
                0 <= i < e.document ==> #[trigger] parsed_document(texts@[i]@) is Some,
        },
{
    let ghost views = texts_view(texts@);
    let start: Vec<(Yaml, Yaml)> = Vec::new();
    proof {
        lemma_mapping_view(start);
        assert(crate::yaml::entries_view(start@) =~= Seq::empty());
        assert(parsed_documents(views.subrange(0, 0)) =~= Seq::<YamlView>::empty());
        assert(well_formed(empty_mapping()));
    }
    let mut result = Yaml::Mapping(start);
    let mut i: usize = 0;
    while i < texts.len()
        invariant
            0 <= i <= texts@.len(),
            views == texts_view(texts@),
            forall|k: int| 0 <= k < i ==> #[trigger] parsed_document(texts@[k]@) is Some,
            result@ == merged_documents(parsed_documents(views.subrange(0, i as int))),
            well_formed(result@),
        decreases texts@.len() - i,
    {
        match merge_document_text(&mut result, texts[i].as_str(), i) {
            Ok(()) => {
                proof {
                    let done = parsed_documents(views.subrange(0, i + 1));
                    assert(done.drop_last() =~= parsed_documents(views.subrange(0, i as int)));
                    assert(done.last() == parsed_document(texts@[i as int]@)->Some_0);
                }
            },
            Err(e) => {
                return Err(e);
            },
        }
        i = i + 1;
    }
    assert(views.subrange(0, i as int) =~= views);
    Ok(result)
}

} // verus!
