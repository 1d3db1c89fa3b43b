//! Text and bytes of bounded length, whatever the bound.
use vstd::prelude::*;
use vstd::utf8::*;

use crate::outside;
use crate::outside::{
    byte_slice32, byte_slice64, new_bytes32, new_bytes64, new_text32, new_text64, push_byte32,
    push_byte64, push_text32, push_text64, text_str32, text_str64,
};

verus! {

/// A text whose encoding is bounded.
pub trait BoundedText: Sized {
    /// A vector that holds as many bytes as the encoding may have.
    type Bytes: BoundedBytes;

    /// The characters of the text.
    spec fn text(self) -> Seq<char>;

    /// How many bytes the encoding may have.
    spec fn limit() -> nat;

    /// A text without characters.
    fn empty() -> (result: Self)
        ensures
            result.text() == Seq::<char>::empty(),
    ;

    /// Puts `more` behind the text, where it fits.
    fn append(&mut self, more: &str) -> (result: Result<(), ()>)
        ensures
            result is Ok <==> encode_utf8(old(self).text()).len() + encode_utf8(more@).len() <= Self::limit(),
            result is Ok ==> final(self).text() == old(self).text() + more@,
            result is Err ==> final(self).text() == old(self).text(),
    ;

    /// The text as a string slice.
    fn as_text(&self) -> (result: &str)
        ensures
            result@ == self.text(),
            encode_utf8(result@).len() <= Self::limit(),
    ;

    /// The vector holds as many bytes as the encoding may have.
    proof fn same_limit()
        ensures
            Self::Bytes::limit() == Self::limit(),
    ;
}

/// A vector of bytes whose length is bounded.
pub trait BoundedBytes: Sized {
    /// The bytes of the vector.
    spec fn bytes(self) -> Seq<u8>;

    /// How many bytes it may hold.
    spec fn limit() -> nat;

    /// A vector without bytes.
    fn empty() -> (result: Self)
        ensures
            result.bytes() == Seq::<u8>::empty(),
    ;

    /// Puts `byte` behind the others, where there is room.
    fn append(&mut self, byte: u8) -> (result: Result<(), u8>)
        ensures
            result is Ok <==> old(self).bytes().len() < Self::limit(),
            result is Ok ==> final(self).bytes() == old(self).bytes().push(byte),
            result is Err ==> final(self).bytes() == old(self).bytes(),
    ;

    /// The bytes as a slice.
    fn as_bytes(&self) -> (result: &[u8])
        ensures
            result@ == self.bytes(),
    ;
}

impl BoundedText for heapless::String<32> {
    type Bytes = heapless::Vec<u8, 32>;

    open spec fn text(self) -> Seq<char> {
        outside::text32(self)
    }

    open spec fn limit() -> nat {
        32
    }

    fn empty() -> (result: Self) {
        new_text32()
    }

    fn append(&mut self, more: &str) -> (result: Result<(), ()>) {
        push_text32(self, more)
    }

    fn as_text(&self) -> (result: &str) {
        text_str32(self)
    }

    proof fn same_limit() {
    }
}

impl BoundedBytes for heapless::Vec<u8, 32> {
    open spec fn bytes(self) -> Seq<u8> {
        outside::bytes32(self)
    }

    open spec fn limit() -> nat {
        32
    }

    fn empty() -> (result: Self) {
        new_bytes32()
    }

    fn append(&mut self, byte: u8) -> (result: Result<(), u8>) {
        push_byte32(self, byte)
    }

    fn as_bytes(&self) -> (result: &[u8]) {
        byte_slice32(self)
    }
}

impl BoundedText for heapless::String<64> {
    type Bytes = heapless::Vec<u8, 64>;

    open spec fn text(self) -> Seq<char> {
        outside::text64(self)
    }

    open spec fn limit() -> nat {
        64
    }

    fn empty() -> (result: Self) {
        new_text64()
    }

    fn append(&mut self, more: &str) -> (result: Result<(), ()>) {
        push_text64(self, more)
    }

    fn as_text(&self) -> (result: &str) {
        text_str64(self)
    }

    proof fn same_limit() {
    }
}

impl BoundedBytes for heapless::Vec<u8, 64> {
    open spec fn bytes(self) -> Seq<u8> {
        outside::bytes64(self)
    }

    open spec fn limit() -> nat {
        64
    }

    fn empty() -> (result: Self) {
        new_bytes64()
    }

    fn append(&mut self, byte: u8) -> (result: Result<(), u8>) {
        push_byte64(self, byte)
    }

    fn as_bytes(&self) -> (result: &[u8]) {
        byte_slice64(self)
    }
}

/// The bounded text with these characters, where they fit.
pub fn bounded<T: BoundedText>(text: &str) -> (result: Option<T>)
    ensures
        result is Some <==> encode_utf8(text@).len() <= T::limit(),
        result matches Some(bounded) ==> bounded.text() == text@,
{
    let mut bounded = T::empty();
    match bounded.append(text) {
        Ok(()) => {
            assert(bounded.text() =~= text@);
            Some(bounded)
        },
        Err(()) => None,
    }
}

} // verus!
