//! The byte buffer and the two capabilities through which values enter and leave it.
use vstd::prelude::*;

verus! {

/// A byte buffer: the sink that encoding appends to and the source that decoding reads.
pub struct SBI {
    pub data: Vec<u8>,
}

/// The capability of appending a value's canonical bytes to a buffer.
pub trait Serialize: DeepView {
    /// The canonical bytes of a value whose model is `v`.
    spec fn encoding(v: Self::V) -> Seq<u8>;

    /// Appends the canonical bytes of `self` to the end of `sbi`.
    fn serialize(&self, sbi: &mut SBI)
        ensures
            final(sbi).data@ == old(sbi).data@ + Self::encoding(self.deep_view()),
    ;
}

/// The capability of reconstructing a value from a buffer at a cursor.
pub trait DeSerialize: DeepView + Sized {
    /// The model of the value at the start of `bytes`, with the number of bytes it takes;
    /// `None` when the bytes run out first.
    spec fn parse(bytes: Seq<u8>) -> Option<(Self::V, nat)>;

    /// Decoding consumes no more than it is given, and bytes after what it consumes do not matter.
    proof fn lemma_parse_prefix(bytes: Seq<u8>, extra: Seq<u8>)
        ensures
            Self::parse(bytes) matches Some((v, n)) ==> n <= bytes.len() && Self::parse(
                bytes + extra,
            ) == Some((v, n)),
    ;

    /// Decodes a value starting at `*offset`, moving the cursor past the bytes it consumed.
    /// On failure the cursor is left unspecified.
    fn deserialize(sbi: &mut SBI, offset: &mut usize) -> (r: Result<Self, ()>)
        requires
            *old(offset) <= old(sbi).data@.len(),
        ensures
            *final(sbi) == *old(sbi),
            match Self::parse(old(sbi).data@.skip(*old(offset) as int)) {
                Some((v, n)) => r matches Ok(x) && x.deep_view() == v && *final(offset) == *old(
                    offset,
                ) + n,
                None => r is Err,
            },
    ;
}

/// Types whose decoding undoes their encoding.
pub trait Codec: Serialize + DeSerialize {
    /// Whether a value with model `v` can be written: every length in it fits in 64 bits.
    spec fn encodable(v: <Self as DeepView>::V) -> bool;

    /// Decoding the encoding of `v`, followed by any bytes, gives back `v` and consumes exactly
    /// the encoding.
    proof fn lemma_round_trip(v: <Self as DeepView>::V, rest: Seq<u8>)
        requires
            Self::encodable(v),
        ensures
            Self::parse(Self::encoding(v) + rest) == Some((v, Self::encoding(v).len())),
    ;
}

impl SBI {
    /// An empty buffer, ready to be encoded into.
    pub fn new() -> (r: Self)
        ensures
            r.data@ == Seq::<u8>::empty(),
    {
        Self { data: Vec::new() }
    }

    /// Decodes one value of type `T` from the start of the buffer; bytes after it are ignored.
    pub fn deserialize<T: DeSerialize>(&mut self) -> (r: Result<T, ()>)
        ensures
            *final(self) == *old(self),
            match T::parse(old(self).data@) {
                Some((v, _)) => r matches Ok(x) && x.deep_view() == v,
                None => r is Err,
            },
    {
        let mut offset: usize = 0;
        assert(self.data@.skip(0) =~= self.data@);
        T::deserialize(self, &mut offset)
    }

    /// Appends the encoding of `root` to the buffer.
    pub fn serialize<T: Serialize>(&mut self, root: T)
        ensures
            final(self).data@ == old(self).data@ + T::encoding(root.deep_view()),
    {
        root.serialize(self)
    }
}

} // verus!
