//! What the library takes on trust of `core` and of the `heapless` crate.
use vstd::prelude::*;
use vstd::string::*;
use vstd::utf8::*;

verus! {

/// The error of `core::str::from_utf8`.
#[verifier::external_type_specification]
#[verifier::external_body]
pub struct ExUtf8Error(core::str::Utf8Error);

/// `core::str::from_utf8` gives the text that has exactly these bytes for its
/// encoding, and fails exactly when the bytes are not valid UTF-8.
pub assume_specification[ core::str::from_utf8 ](v: &[u8]) -> (result: Result<
    &str,
    core::str::Utf8Error,
>)
    ensures
        result is Ok <==> valid_utf8(v@),
        result matches Ok(text) ==> text.spec_bytes() == v@,
;

/// The bounded text of the `heapless` crate: at most `N` bytes of UTF-8.
#[verifier::external_type_specification]
#[verifier::external_body]
pub struct ExHeaplessString<const N: usize>(heapless::String<N>);

/// The bounded vector of the `heapless` crate: at most `N` items.
#[verifier::external_type_specification]
#[verifier::external_body]
#[verifier::reject_recursive_types(T)]
pub struct ExHeaplessVec<T, const N: usize>(heapless::Vec<T, N>);

/// The characters that a `heapless::String<32>` holds.
pub uninterp spec fn text32(text: heapless::String<32>) -> Seq<char>;

/// The bytes that a `heapless::Vec<u8, 32>` holds.
pub uninterp spec fn bytes32(bytes: heapless::Vec<u8, 32>) -> Seq<u8>;

/// `heapless::String::new` gives a text without characters.
#[verifier::external_body]
pub(crate) fn new_text32() -> (text: heapless::String<32>)
    ensures
        text32(text) == Seq::<char>::empty(),
{
    heapless::String::new()
}

/// `heapless::String::push_str` puts `more` behind the text where the encoding
/// of both fits the capacity, and otherwise fails and leaves the text alone.
#[verifier::external_body]
pub(crate) fn push_text32(text: &mut heapless::String<32>, more: &str) -> (result: Result<(), ()>)
    ensures
        result is Ok <==> encode_utf8(text32(*old(text))).len() + encode_utf8(more@).len() <= 32,
        result is Ok ==> text32(*final(text)) == text32(*old(text)) + more@,
        result is Err ==> text32(*final(text)) == text32(*old(text)),
{
    text.push_str(more)
}

/// `heapless::String::as_str` gives the text that is held, whose encoding
/// never exceeds the capacity.
#[verifier::external_body]
pub(crate) fn text_str32(text: &heapless::String<32>) -> (result: &str)
    ensures
        result@ == text32(*text),
        encode_utf8(result@).len() <= 32,
{
    text.as_str()
}

/// `heapless::Vec::new` gives a vector without items.
#[verifier::external_body]
pub(crate) fn new_bytes32() -> (bytes: heapless::Vec<u8, 32>)
    ensures
        bytes32(bytes) == Seq::<u8>::empty(),
{
    heapless::Vec::new()
}

/// `heapless::Vec::push` puts `byte` behind the items where there is room, and
/// otherwise hands it back and leaves the items alone.
#[verifier::external_body]
pub(crate) fn push_byte32(bytes: &mut heapless::Vec<u8, 32>, byte: u8) -> (result: Result<(), u8>)
    ensures
        result == if bytes32(*old(bytes)).len() < 32 {
            Ok::<(), u8>(())
        } else {
            Err::<(), u8>(byte)
        },
        result is Ok ==> bytes32(*final(bytes)) == bytes32(*old(bytes)).push(byte),
        result is Err ==> bytes32(*final(bytes)) == bytes32(*old(bytes)),
{
    bytes.push(byte)
}

/// `heapless::Vec::as_slice` gives the items that are held, never more than
/// the capacity.
#[verifier::external_body]
pub(crate) fn byte_slice32(bytes: &heapless::Vec<u8, 32>) -> (result: &[u8])
    ensures
        result@ == bytes32(*bytes),
        result@.len() <= 32,
{
    bytes.as_slice()
}

/// The characters that a `heapless::String<64>` holds.
pub uninterp spec fn text64(text: heapless::String<64>) -> Seq<char>;

/// The bytes that a `heapless::Vec<u8, 64>` holds.
pub uninterp spec fn bytes64(bytes: heapless::Vec<u8, 64>) -> Seq<u8>;

/// `heapless::String::new` gives a text without characters.
#[verifier::external_body]
pub(crate) fn new_text64() -> (text: heapless::String<64>)
    ensures
        text64(text) == Seq::<char>::empty(),
{
    heapless::String::new()
}

/// `heapless::String::push_str` puts `more` behind the text where the encoding
/// of both fits the capacity, and otherwise fails and leaves the text alone.
#[verifier::external_body]
pub(crate) fn push_text64(text: &mut heapless::String<64>, more: &str) -> (result: Result<(), ()>)
    ensures
        result is Ok <==> encode_utf8(text64(*old(text))).len() + encode_utf8(more@).len() <= 64,
        result is Ok ==> text64(*final(text)) == text64(*old(text)) + more@,
        result is Err ==> text64(*final(text)) == text64(*old(text)),
{
    text.push_str(more)
}

/// `heapless::String::as_str` gives the text that is held, whose encoding
/// never exceeds the capacity.
#[verifier::external_body]
pub(crate) fn text_str64(text: &heapless::String<64>) -> (result: &str)
    ensures
        result@ == text64(*text),
        encode_utf8(result@).len() <= 64,
{
    text.as_str()
}

/// `heapless::Vec::new` gives a vector without items.
#[verifier::external_body]
pub(crate) fn new_bytes64() -> (bytes: heapless::Vec<u8, 64>)
    ensures
        bytes64(bytes) == Seq::<u8>::empty(),
{
    heapless::Vec::new()
}

/// `heapless::Vec::push` puts `byte` behind the items where there is room, and
/// otherwise hands it back and leaves the items alone.
#[verifier::external_body]
pub(crate) fn push_byte64(bytes: &mut heapless::Vec<u8, 64>, byte: u8) -> (result: Result<(), u8>)
    ensures
        result == if bytes64(*old(bytes)).len() < 64 {
            Ok::<(), u8>(())
        } else {
            Err::<(), u8>(byte)
        },
        result is Ok ==> bytes64(*final(bytes)) == bytes64(*old(bytes)).push(byte),
        result is Err ==> bytes64(*final(bytes)) == bytes64(*old(bytes)),
{
    bytes.push(byte)
}

/// `heapless::Vec::as_slice` gives the items that are held, never more than
/// the capacity.
#[verifier::external_body]
pub(crate) fn byte_slice64(bytes: &heapless::Vec<u8, 64>) -> (result: &[u8])
    ensures
        result@ == bytes64(*bytes),
        result@.len() <= 64,
{
    bytes.as_slice()
}

} // verus!
