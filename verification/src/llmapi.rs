//! Plain-data model of the flavor-text interface: byte strings and the
//! request contexts handed to the name generator. The generator itself is
//! an outside service; only the data it exchanges is modelled here.

use vstd::prelude::*;

verus! {

/// A byte string exchanged with the flavor-text service.
#[derive(Clone, Debug, PartialEq, Eq)]
pub struct ByteStr {
    pub bytes: Vec<u8>,
}

/// What `String::from_utf8_lossy` decodes a byte sequence to.
pub uninterp spec fn lossy_utf8_of(bytes: Seq<u8>) -> Seq<char>;

/// Relies on `String::from_utf8_lossy`: the result depends on the bytes
/// alone; an empty input decodes to an empty string; and a valid UTF-8
/// input decodes to exactly the string it encodes.
#[verifier::external_body]
fn bytes_to_string_lossy(bytes: &Vec<u8>) -> (r: String)
    ensures
        r@ == lossy_utf8_of(bytes@),
        bytes@.len() == 0 ==> r@.len() == 0,
        forall|s: Seq<char>| bytes@ == vstd::utf8::encode_utf8(s) ==> r@ == s,
{
    String::from_utf8_lossy(bytes).to_string()
}

impl ByteStr {
    /// Decode the bytes to a string, replacing invalid UTF-8. Decoding the
    /// encoding of a string gives that string back.
    pub fn as_string(&self) -> (r: String)
        ensures
            r@ == lossy_utf8_of(self.bytes@),
            forall|s: Seq<char>| self.bytes@ == vstd::utf8::encode_utf8(s) ==> r@ == s,
    {
        bytes_to_string_lossy(&self.bytes)
    }

    /// Copy a string's UTF-8 bytes into an owned byte string.
    pub fn from_string(s: &str) -> (r: ByteStr)
        ensures
            r.bytes@ == vstd::utf8::encode_utf8(s@),
    {
        ByteStr { bytes: vstd::slice::slice_to_vec(s.as_bytes()) }
    }
}

/// Convert a list of strings into byte strings, element for element.
pub fn as_bytestrs(strings: &Vec<String>) -> (r: Vec<ByteStr>)
    ensures
        r@.len() == strings@.len(),
        forall|i: int|
            0 <= i < strings@.len() ==> (#[trigger] r@[i]).bytes@ == vstd::utf8::encode_utf8(strings@[i]@),
{
    let mut out: Vec<ByteStr> = Vec::new();
    let mut i: usize = 0;
    while i < strings.len()
        invariant
            i <= strings@.len(),
            out@.len() == i,
            forall|j: int|
                0 <= j < i ==> (#[trigger] out@[j]).bytes@ == vstd::utf8::encode_utf8(strings@[j]@),
        decreases strings@.len() - i,
    {
        out.push(ByteStr::from_string(strings[i].as_str()));
        i = i + 1;
    }
    out
}

/// Outcome of one flavor-text request.
#[derive(Clone, Copy, Debug, PartialEq, Eq, Structural)]
pub enum StatusCode {
    OK,
    Error,
}

/// Settlement-name request context, as exchanged with the service.
#[derive(Clone, Debug, PartialEq, Eq)]
pub struct ExternSettlementNameCtx {
    pub civilisation_name: ByteStr,
    pub description: ByteStr,
    pub seed_names: Vec<ByteStr>,
}

/// Settlement-name request context, in owned strings.
#[derive(Clone, Debug, PartialEq, Eq)]
pub struct SettlementNameCtx {
    pub civilisation_name: String,
    pub description: String,
    pub seed_names: Vec<String>,
}

/// Unit-spawn bark request context, as exchanged with the service.
#[derive(Clone, Debug, PartialEq, Eq)]
pub struct ExternUnitSpawnBarkCtx {
    pub civilisation_name: ByteStr,
    pub civ_description: ByteStr,
    pub unit_type: ByteStr,
    pub seed_barks: Vec<ByteStr>,
    pub description: ByteStr,
}

/// Unit-spawn bark request context, in owned strings.
#[derive(Clone, Debug, PartialEq, Eq)]
pub struct UnitSpawnBarkCtx {
    pub civilisation_name: String,
    pub civ_description: String,
    pub unit_type: String,
    pub seed_barks: Vec<String>,
    pub description: String,
}

} // verus!
