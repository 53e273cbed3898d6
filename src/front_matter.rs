use vstd::prelude::*;
use vstd::slice::slice_subrange;
use vstd::utf8::{decode_utf8, valid_utf8};

verus! {

#[verifier::external_type_specification]
#[verifier::external_body]
pub struct ExYamlValue(serde_yaml::Value);

/// Whether YAML parsing accepts `text` as a document.
pub uninterp spec fn yaml_accepts(text: Seq<char>) -> bool;

/// Relies on serde_yaml::from_str::<serde_yaml::Value>: whether parsing
/// succeeds depends on the text alone; a failure is reported by the error's
/// display text.
#[verifier::external_body]
fn parse_yaml(text: &str) -> (r: Result<serde_yaml::Value, String>)
    ensures
        r is Ok == yaml_accepts(text@),
{
    serde_yaml::from_str::<serde_yaml::Value>(text).map_err(|e| e.to_string())
}

/// Relies on std::str::from_utf8: succeeds exactly on valid UTF-8, and the
/// text it returns is what the bytes encode.
#[verifier::external_body]
fn utf8_text(b: &[u8]) -> (r: Option<&str>)
    ensures
        r is Some == valid_utf8(b@),
        r matches Some(s) ==> s@ == decode_utf8(b@),
{
    std::str::from_utf8(b).ok()
}

/// The metadata of one document.
pub enum FrontMatter {
    /// No header, or an unclosed header.
    Absent,
    /// The header parsed as structured data.
    Parsed(serde_yaml::Value),
    /// The header is not UTF-8 or failed to parse; a message saying why.
    Malformed(String),
}

/// Which of the three shapes a `FrontMatter` has.
#[derive(Clone, Copy, Debug, PartialEq, Eq, Structural)]
pub enum MetadataKind {
    Absent,
    Parsed,
    Malformed,
}

impl FrontMatter {
    pub open spec fn kind(&self) -> MetadataKind {
        match self {
            FrontMatter::Absent => MetadataKind::Absent,
            FrontMatter::Parsed(_) => MetadataKind::Parsed,
            FrontMatter::Malformed(_) => MetadataKind::Malformed,
        }
    }

    pub fn metadata_kind(&self) -> (r: MetadataKind)
        ensures
            r == self.kind(),
    {
        match self {
            FrontMatter::Absent => MetadataKind::Absent,
            FrontMatter::Parsed(_) => MetadataKind::Parsed,
            FrontMatter::Malformed(_) => MetadataKind::Malformed,
        }
    }
}

/// Content starts with the opening delimiter line `---\n`.
pub open spec fn opens(c: Seq<u8>) -> bool {
    c.len() >= 4 && c[0] == 45u8 && c[1] == 45u8 && c[2] == 45u8 && c[3] == 10u8
}

/// A closing delimiter `\n---\n` starts at `j`.
pub open spec fn closes_at(c: Seq<u8>, j: int) -> bool {
    0 <= j && j + 5 <= c.len() && c[j] == 10u8 && c[j + 1] == 45u8 && c[j + 2] == 45u8
        && c[j + 3] == 45u8 && c[j + 4] == 10u8
}

/// The first position at or after `i` where a closing delimiter starts.
pub open spec fn close_from(c: Seq<u8>, i: int) -> Option<int>
    decreases c.len() - i,
{
    if i < 0 || i + 5 > c.len() {
        None
    } else if closes_at(c, i) {
        Some(i)
    } else {
        close_from(c, i + 1)
    }
}

/// The header bytes: those between the opening line and the first closing
/// delimiter (empty when the closing line directly follows the opening one).
pub open spec fn header_block(c: Seq<u8>) -> Option<Seq<u8>> {
    if !opens(c) {
        None
    } else {
        match close_from(c, 0) {
            None => None,
            Some(j) => Some(c.subrange(4, if j < 4 { 4 } else { j })),
        }
    }
}

/// The shape of the metadata that a document with content `c` carries.
pub open spec fn metadata_kind_of(c: Seq<u8>) -> MetadataKind {
    match header_block(c) {
        None => MetadataKind::Absent,
        Some(b) => if !valid_utf8(b) {
            MetadataKind::Malformed
        } else if yaml_accepts(decode_utf8(b)) {
            MetadataKind::Parsed
        } else {
            MetadataKind::Malformed
        },
    }
}

/// Locates the header: the range of `c` that holds it, if `c` has one.
pub fn header_range(c: &[u8]) -> (r: Option<(usize, usize)>)
    ensures
        match r {
            None => header_block(c@) is None,
            Some((s, e)) => s <= e <= c@.len() && header_block(c@) == Some(c@.subrange(s as int, e as int)),
        },
{
    if c.len() < 4 || c[0] != 45u8 || c[1] != 45u8 || c[2] != 45u8 || c[3] != 10u8 {
        return None;
    }
    let mut i: usize = 0;
    while c.len() - i >= 5
        invariant
            i <= c@.len(),
            opens(c@),
            close_from(c@, 0) == close_from(c@, i as int),
        decreases c@.len() - i,
    {
        if c[i] == 10u8 && c[i + 1] == 45u8 && c[i + 2] == 45u8 && c[i + 3] == 45u8 && c[i + 4] == 10u8 {
            assert(closes_at(c@, i as int));
            assert(close_from(c@, i as int) == Some(i as int));
            let e: usize = if i < 4 { 4 } else { i };
            return Some((4, e));
        }
        assert(!closes_at(c@, i as int));
        i = i + 1;
    }
    assert(close_from(c@, i as int) is None);
    None
}

/// Parses the metadata header of a document.
pub fn parse_front_matter(c: &[u8]) -> (r: FrontMatter)
    ensures
        r.kind() == metadata_kind_of(c@),
{
    match header_range(c) {
        None => FrontMatter::Absent,
        Some((s, e)) => {
            let block = slice_subrange(c, s, e);
            match utf8_text(block) {
                None => FrontMatter::Malformed("front matter is not valid UTF-8".to_owned()),
                Some(text) => match parse_yaml(text) {
                    Ok(v) => FrontMatter::Parsed(v),
                    Err(msg) => FrontMatter::Malformed(msg),
                },
            }
        },
    }
}

} // verus!
