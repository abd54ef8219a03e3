//! Text-or-binary classification of a file from a bounded byte prefix.

use vstd::prelude::*;

verus! {

/// How many bytes of a file the classifier looks at.
pub const PREFIX_LEN: usize = 1024;

/// What the content-type inspector reports of a non-empty byte prefix.
#[derive(Clone, Copy, PartialEq, Eq, Structural, Debug)]
pub enum InspectVerdict {
    /// A recognized text encoding.
    Textual,
    /// Byte patterns that also occur in binary data but decode as text
    /// (UTF-16 and UTF-32 style encodings).
    PlausiblyText,
    /// Binary data.
    Binary,
}

/// How a file's content is treated: included as text, or skipped as binary.
#[derive(Clone, Copy, PartialEq, Eq, Structural, Debug)]
pub enum Classification {
    Text,
    Binary,
}

/// The inspector's verdict on a byte prefix: a function of the bytes alone.
pub uninterp spec fn inspected_verdict(prefix: Seq<u8>) -> InspectVerdict;

/// Relies on content_inspector::inspect, which computes its verdict from the
/// bytes alone: the UTF-8 kinds are reported here as textual, the UTF-16 and
/// UTF-32 kinds as plausibly text, and BINARY as binary.
#[verifier::external_body]
fn inspect_bytes(prefix: &[u8]) -> (v: InspectVerdict)
    ensures
        v == inspected_verdict(prefix@),
{
    match content_inspector::inspect(prefix) {
        content_inspector::ContentType::UTF_8 => InspectVerdict::Textual,
        content_inspector::ContentType::UTF_8_BOM => InspectVerdict::Textual,
        content_inspector::ContentType::UTF_16LE => InspectVerdict::PlausiblyText,
        content_inspector::ContentType::UTF_16BE => InspectVerdict::PlausiblyText,
        content_inspector::ContentType::UTF_32LE => InspectVerdict::PlausiblyText,
        content_inspector::ContentType::UTF_32BE => InspectVerdict::PlausiblyText,
        content_inspector::ContentType::BINARY => InspectVerdict::Binary,
    }
}

/// How a file with the given readable prefix is classified: an empty file is
/// text; otherwise the inspector decides, with both textual and
/// plausibly-text verdicts included as text and only a binary verdict
/// excluded.
pub open spec fn spec_classification(prefix: Seq<u8>) -> Classification {
    if prefix.len() == 0 {
        Classification::Text
    } else {
        match inspected_verdict(prefix) {
            InspectVerdict::Textual => Classification::Text,
            InspectVerdict::PlausiblyText => Classification::Text,
            InspectVerdict::Binary => Classification::Binary,
        }
    }
}

/// Classifies a file from its bounded byte prefix.
pub fn classify_prefix(prefix: &[u8]) -> (c: Classification)
    ensures
        c == spec_classification(prefix@),
{
    if prefix.len() == 0 {
        return Classification::Text;
    }
    match inspect_bytes(prefix) {
        InspectVerdict::Binary => Classification::Binary,
        InspectVerdict::Textual => Classification::Text,
        InspectVerdict::PlausiblyText => Classification::Text,
    }
}

/// The prefix sample of a whole content: its first `PREFIX_LEN` bytes.
pub open spec fn spec_prefix_of(content: Seq<u8>) -> Seq<u8> {
    if content.len() <= PREFIX_LEN {
        content
    } else {
        content.take(PREFIX_LEN as int)
    }
}

/// Classifies a file from its whole content, sampling only the prefix.
pub fn classify_content(content: &Vec<u8>) -> (c: Classification)
    ensures
        c == spec_classification(spec_prefix_of(content@)),
{
    let n = if content.len() <= PREFIX_LEN {
        content.len()
    } else {
        PREFIX_LEN
    };
    let mut prefix: Vec<u8> = Vec::new();
    let mut i: usize = 0;
    while i < n
        invariant
            i <= n <= content@.len(),
            prefix@ == content@.take(i as int),
        decreases n - i,
    {
        prefix.push(content[i]);
        proof {
            assert(prefix@ =~= content@.take(i as int + 1));
        }
        i = i + 1;
    }
    proof {
        assert(prefix@ =~= spec_prefix_of(content@));
    }
    classify_prefix(prefix.as_slice())
}

} // verus!
