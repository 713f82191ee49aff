//! File contents and their classification.
//!
//! A scanned file is classified once, at scan time: bytes that decode as
//! UTF-8 become [`FileData::Text`] holding the decoded string, any other
//! bytes become [`FileData::Blob`] holding them unchanged.

use vstd::prelude::*;

verus! {

/// Classified payload of a scanned file: a valid UTF-8 string, or raw bytes.
#[derive(Debug, Clone, PartialEq)]
pub enum FileData {
    Blob(Vec<u8>),
    Text(String),
}

/// Mathematical value of a [`FileData`].
#[verifier::ext_equal]
pub enum FileDataV {
    Blob(Seq<u8>),
    Text(Seq<char>),
}

impl View for FileData {
    type V = FileDataV;

    open spec fn view(&self) -> FileDataV {
        match self {
            FileData::Blob(b) => FileDataV::Blob(b@),
            FileData::Text(t) => FileDataV::Text(t@),
        }
    }
}

impl FileData {
    /// The type a leaf of this kind gets in the synthesized schema.
    pub open spec fn type_name_spec(&self) -> Seq<char> {
        match self {
            FileData::Blob(_) => "Vec<u8>"@,
            FileData::Text(_) => "String"@,
        }
    }

    /// Name of the target-representation type that holds this kind of content.
    pub fn _type(&self) -> (r: String)
        ensures
            r@ == self.type_name_spec(),
    {
        match self {
            FileData::Blob(_) => "Vec<u8>".to_owned(),
            FileData::Text(_) => "String".to_owned(),
        }
    }

    /// An owned copy with the same mathematical value.
    pub fn duplicate(&self) -> (r: FileData)
        ensures
            r@ == self@,
    {
        match self {
            FileData::Blob(b) => FileData::Blob(b.clone()),
            FileData::Text(t) => FileData::Text(t.clone()),
        }
    }
}

/// One flattened file: the dot-joined path from a chosen root to a leaf,
/// and the content captured at scan time.
#[derive(Debug, Clone, PartialEq)]
pub struct File {
    pub path: String,
    pub data: FileData,
}

/// Mathematical value of a [`File`].
#[verifier::ext_equal]
pub struct FileV {
    pub path: Seq<char>,
    pub data: FileDataV,
}

impl View for File {
    type V = FileV;

    open spec fn view(&self) -> FileV {
        FileV { path: self.path@, data: self.data@ }
    }
}

impl File {
    /// Name of the target-representation type that holds this file's content.
    pub fn _type(&self) -> (r: String)
        ensures
            r@ == self.data.type_name_spec(),
    {
        self.data._type()
    }
}

/// Uniform conversion of a raw content value into [`FileData`].
pub trait Data: Sized {
    /// The [`FileData`] value this content stands for.
    spec fn file_data_spec(&self) -> FileDataV;

    /// Wrap this content as [`FileData`].
    fn to_file_data(self) -> (r: FileData)
        ensures
            r@ == self.file_data_spec(),
    ;
}

impl Data for String {
    open spec fn file_data_spec(&self) -> FileDataV {
        FileDataV::Text(self@)
    }

    fn to_file_data(self) -> (r: FileData) {
        FileData::Text(self)
    }
}

impl Data for Vec<u8> {
    open spec fn file_data_spec(&self) -> FileDataV {
        FileDataV::Blob(self@)
    }

    fn to_file_data(self) -> (r: FileData) {
        FileData::Blob(self)
    }
}

/// The characters that `bytes` decode to under UTF-8, or `None` where the
/// bytes are not valid UTF-8.
pub uninterp spec fn utf8_chars(bytes: Seq<u8>) -> Option<Seq<char>>;

/// Relies on `String::from_utf8`: it returns the decoded string exactly when
/// the bytes are valid UTF-8, and `FromUtf8Error::into_bytes` hands back the
/// original bytes unchanged.
#[verifier::external_body]
fn decode_utf8(bytes: Vec<u8>) -> (r: Result<String, Vec<u8>>)
    ensures
        match r {
            Ok(s) => utf8_chars(bytes@) == Some(s@),
            Err(b) => b@ == bytes@ && utf8_chars(bytes@) is None,
        },
{
    match String::from_utf8(bytes) {
        Ok(s) => Ok(s),
        Err(e) => Err(e.into_bytes()),
    }
}

/// What classification returns: the decoded text where the bytes are valid
/// UTF-8, the raw bytes otherwise.
pub open spec fn classify_spec(bytes: Seq<u8>) -> FileDataV {
    match utf8_chars(bytes) {
        Some(s) => FileDataV::Text(s),
        None => FileDataV::Blob(bytes),
    }
}

/// Classify raw file bytes as text or blob.
///
/// Valid UTF-8 bytes give `Text` holding exactly the decoded string; any
/// other bytes give `Blob` holding exactly the raw bytes.
pub fn classify(bytes: Vec<u8>) -> (r: FileData)
    ensures
        r@ == classify_spec(bytes@),
        r is Text <==> utf8_chars(bytes@) is Some,
        r is Blob <==> utf8_chars(bytes@) is None,
{
    match decode_utf8(bytes) {
        Ok(s) => FileData::Text(s),
        Err(b) => FileData::Blob(b),
    }
}

/// A name whose first character is `'.'`: such entries are skipped by the
/// scan and never appear in a tree.
pub open spec fn is_hidden_spec(name: Seq<char>) -> bool {
    name.len() > 0 && name[0] == '.'
}

/// Whether a directory entry name is hidden (starts with `'.'`).
pub fn is_hidden(name: &str) -> (r: bool)
    ensures
        r == is_hidden_spec(name@),
{
    if name.unicode_len() == 0 {
        false
    } else {
        name.get_char(0) == '.'
    }
}

} // verus!
