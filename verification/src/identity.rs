//! Random identities.

use crate::catalog::{BlobKey, NodeId};
use uuid::Uuid;
use vstd::prelude::*;

verus! {

/// A lower-case hexadecimal digit.
pub open spec fn hex_digit(character: char) -> bool {
    ('0' <= character && character <= '9') || ('a' <= character && character <= 'f')
}

/// A digit whose two highest bits are one and zero.
pub open spec fn variant_digit(character: char) -> bool {
    character == '8' || character == '9' || character == 'a' || character == 'b'
}

/// Text of the form `xxxxxxxx-xxxx-4xxx-yxxx-xxxxxxxxxxxx`.
pub open spec fn hyphenated(text: Seq<char>) -> bool {
    &&& text.len() == 36
    &&& forall|i: int|
        0 <= i < 36 ==> if i == 8 || i == 13 || i == 18 || i == 23 {
            #[trigger] text[i] == '-'
        } else {
            hex_digit(text[i])
        }
    &&& text[14] == '4'
    &&& variant_digit(text[19])
}

/// The same text without its hyphens.
pub open spec fn unhyphenated(text: Seq<char>) -> bool {
    &&& text.len() == 32
    &&& forall|i: int| 0 <= i < 32 ==> hex_digit(#[trigger] text[i])
    &&& text[12] == '4'
    &&& variant_digit(text[16])
}

/// Calls `Uuid::new_v4` and the `Display` of the result: a random identity in its hyphenated
/// lower-case form, with the version and the variant digit of random identities. Which one it is,
/// is left to chance.
#[verifier::external_body]
fn random_hyphenated() -> (text: String)
    ensures
        hyphenated(text@),
{
    Uuid::new_v4().to_string()
}

/// Calls `Uuid::new_v4` and the `Display` of its `as_simple` form: a random identity as 32
/// lower-case hexadecimal digits, with the version and the variant digit of random identities.
/// Which one it is, is left to chance.
#[verifier::external_body]
fn random_simple() -> (text: String)
    ensures
        unhyphenated(text@),
{
    Uuid::new_v4().as_simple().to_string()
}

/// A new identity for a tree node.
pub fn generated_node_id() -> (id: NodeId)
    ensures
        hyphenated(id@),
{
    NodeId::new(random_hyphenated())
}

/// A new key for a blob.
pub fn generated_blob_key() -> (key: BlobKey)
    ensures
        hyphenated(key@),
{
    BlobKey::new(random_hyphenated())
}

/// A new identity for a running server.
pub fn generated_instance_id() -> (text: String)
    ensures
        unhyphenated(text@),
{
    random_simple()
}

} // verus!
