use vstd::prelude::*;
use crate::error::DecodeError;

verus! {

/// An alphabet of primitives: values that know their own bytes on the wire.
///
/// The tree codec never looks at those bytes. It only hands the buffer on,
/// and it relies on the two laws below to read back what it wrote.
pub trait Encodable: Sized {
    /// The bytes that stand for this primitive.
    spec fn wire(&self) -> Seq<u8>;

    /// What the front of `bytes` stands for, with the number of bytes taken.
    spec fn parse(bytes: Seq<u8>) -> Result<(Self, nat), DecodeError>;

    /// Whatever follows the bytes of a primitive, they are read back as that
    /// primitive and as nothing more.
    proof fn lemma_parse_wire(&self, rest: Seq<u8>)
        ensures
            Self::parse(self.wire() + rest) == Ok::<(Self, nat), DecodeError>(
                (*self, self.wire().len()),
            ),
    ;

    /// Appends the bytes of this primitive and returns how many they are.
    fn encode_to_buffer(&self, buffer: &mut Vec<u8>) -> (written: usize)
        ensures
            final(buffer)@ == old(buffer)@ + self.wire(),
            written == self.wire().len(),
    ;

    /// Reads one primitive from the front of `buffer`.
    fn decode_from_buffer(buffer: &[u8]) -> (result: Result<(Self, usize), DecodeError>)
        ensures
            match result {
                Ok((value, taken)) => Self::parse(buffer@) == Ok::<(Self, nat), DecodeError>(
                    (value, taken as nat),
                ),
                Err(e) => Self::parse(buffer@) == Err::<(Self, nat), DecodeError>(e),
            },
    ;
}

/// A primitive known by its one-byte code and by nothing else: the alphabet
/// of a tree whose symbols are left uninterpreted. Every byte is a code.
#[derive(Debug, Clone, Copy, PartialEq, Eq, Structural)]
pub struct RawPrimitive(pub u8);

impl Encodable for RawPrimitive {
    open spec fn wire(&self) -> Seq<u8> {
        seq![self.0]
    }

    open spec fn parse(bytes: Seq<u8>) -> Result<(Self, nat), DecodeError> {
        if bytes.len() == 0 {
            Err(DecodeError::TruncatedInput)
        } else {
            Ok((RawPrimitive(bytes[0]), 1))
        }
    }

    proof fn lemma_parse_wire(&self, rest: Seq<u8>) {
        assert((self.wire() + rest)[0] == self.0);
    }

    fn encode_to_buffer(&self, buffer: &mut Vec<u8>) -> (written: usize) {
        buffer.push(self.0);
        assert(buffer@ =~= old(buffer)@ + self.wire());
        1
    }

    fn decode_from_buffer(buffer: &[u8]) -> (result: Result<(Self, usize), DecodeError>) {
        if buffer.len() == 0 {
            return Err(DecodeError::TruncatedInput);
        }
        Ok((RawPrimitive(buffer[0]), 1))
    }
}

} // verus!
