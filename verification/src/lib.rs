//! A binary codec that copies plain-old-data values between a typed byte
//! image and a flat, padding-free, little-endian wire format, driven by an
//! immutable layout descriptor. Serialization appends only declared field
//! bytes to a write buffer; deserialization consumes them in the same order
//! and either rebuilds a whole value or reports that the input ran short.

use vstd::prelude::*;

pub mod const_serde;
pub mod encoding;
pub mod model;
pub mod serialize;
pub mod deserialize;
pub mod laws;
pub mod impls;

pub use const_serde::{ConstReadBuffer, ConstWriteBuffer};
pub use encoding::{
    Encoding, EnumEncoding, EnumVariant, ListEncoding, PlainOldData, PrimitiveEncoding,
    StructEncoding,
};
pub use serialize::{
    serialize_const_enum, serialize_const_list, serialize_const_primitive, serialize_const_ptr,
    serialize_const_struct,
};
pub use deserialize::{
    deserialize_const_enum, deserialize_const_list, deserialize_const_primitive,
    deserialize_const_ptr, deserialize_const_struct,
};

use crate::model::{covered, decode, value_ok, wire_of, zero_image};

verus! {

/// A plain-old-data type that the codec can walk: it has a fixed layout
/// descriptor, and each value has a byte image — the bytes of its in-memory
/// representation — that the descriptor describes faithfully. A correct
/// implementation promises, through the three proof obligations, that the
/// descriptor is well formed, that every image is serializable, and that a
/// value is determined by the declared field bytes of its image.
pub trait SerializeConst: Sized {
    /// The layout descriptor of this type.
    spec fn spec_encoding() -> Encoding;

    /// The memory image of this value: its bytes in native layout.
    spec fn image(&self) -> Seq<u8>;

    /// The value an image of this type stands for.
    spec fn of_image(img: Seq<u8>) -> Self;

    /// The descriptor is well formed and describes a size a buffer can
    /// hold.
    proof fn lemma_encoding_wf()
        ensures
            Self::spec_encoding().valid(),
            0 <= Self::spec_encoding().spec_size() <= usize::MAX,
    ;

    /// Every value's image has exactly the declared size and is
    /// serializable under the descriptor.
    proof fn lemma_image_wf(&self)
        ensures
            self.image().len() == Self::spec_encoding().spec_size(),
            value_ok(self.image(), 0, Self::spec_encoding()),
    ;

    /// A value is determined by the covered bytes of its image: any image
    /// that agrees with it on every declared field byte stands for the same
    /// value.
    proof fn lemma_of_image(&self, img: Seq<u8>)
        requires
            img.len() == Self::spec_encoding().spec_size(),
            forall|d: int|
                #[trigger] covered(self.image(), 0, Self::spec_encoding(), d) ==> img[d]
                    == self.image()[d],
        ensures
            Self::of_image(img) == *self,
    ;

    /// The layout descriptor, as a runtime value.
    fn encoding() -> (e: Encoding)
        ensures
            e == Self::spec_encoding(),
    ;

    /// The memory image, as runtime bytes.
    fn to_image(&self) -> (v: Vec<u8>)
        ensures
            v@ == self.image(),
    ;

    /// Rebuild a value from an image of the declared size.
    fn from_image(img: &[u8]) -> (r: Self)
        requires
            img@.len() == Self::spec_encoding().spec_size(),
        ensures
            r == Self::of_image(img@),
    ;
}

/// Serialize a value into a write buffer: exactly its wire bytes are
/// appended, in declaration order and little-endian byte order, with no
/// padding.
pub fn serialize_const<T: SerializeConst>(data: &T, to: ConstWriteBuffer) -> (r: ConstWriteBuffer)
    ensures
        r@ == to@ + wire_of(data.image(), 0, T::spec_encoding()),
{
    proof {
        T::lemma_encoding_wf();
        data.lemma_image_wf();
    }
    let img = data.to_image();
    let e = T::encoding();
    serialize_const_ptr(img.as_slice(), 0, to, &e)
}

/// Deserialize a value from a read buffer. Returns `None`, and no partial
/// value, exactly when the buffer runs out of bytes mid-decode or a decoded
/// discriminant names no declared variant.
pub fn deserialize_const<T: SerializeConst>(from: ConstReadBuffer) -> (r: Option<T>)
    ensures
        match decode(
            from.bytes(),
            from.loc(),
            T::spec_encoding(),
            zero_image(T::spec_encoding().spec_size()),
            0,
        ) {
            Some((img2, _)) => r matches Some(v) && v == T::of_image(img2),
            None => r is None,
        },
{
    proof {
        T::lemma_encoding_wf();
    }
    let e = T::encoding();
    let n = e.size();
    let mut img: Vec<u8> = Vec::new();
    let mut i: usize = 0;
    while i < n
        invariant
            i <= n,
            img@.len() == i,
            forall|k: int| 0 <= k < i ==> #[trigger] img@[k] == 0u8,
        decreases n - i,
    {
        img.push(0u8);
        i = i + 1;
    }
    proof {
        assert(img@ =~= zero_image(T::spec_encoding().spec_size()));
    }
    match deserialize_const_ptr(from, &e, 0, img) {
        Some((_, out)) => Some(T::from_image(out.as_slice())),
        None => None,
    }
}

/// The round-trip law at the level of typed values: the wire bytes that
/// `serialize_const` emits for a value, decoded from anywhere in a larger
/// stream, decode successfully, consume exactly themselves, and stand for
/// the original value again.
pub proof fn lemma_round_trip_value<T: SerializeConst>(v: T, wire: Seq<u8>, pos: int)
    requires
        0 <= pos,
        pos + wire_of(v.image(), 0, T::spec_encoding()).len() <= wire.len(),
        wire.subrange(pos, pos + wire_of(v.image(), 0, T::spec_encoding()).len()) == wire_of(
            v.image(),
            0,
            T::spec_encoding(),
        ),
    ensures
        decode(
            wire,
            pos,
            T::spec_encoding(),
            zero_image(T::spec_encoding().spec_size()),
            0,
        ) matches Some(p) && T::of_image(p.0) == v && p.1 == pos + wire_of(
            v.image(),
            0,
            T::spec_encoding(),
        ).len(),
{
    let e = T::spec_encoding();
    let img0 = zero_image(e.spec_size());
    T::lemma_encoding_wf();
    v.lemma_image_wf();
    laws::lemma_round_trip(v.image(), 0, e, wire, pos, img0, 0);
    match decode(wire, pos, e, img0, 0) {
        Some((img2, pos2)) => {
            assert forall|d: int| #[trigger] covered(v.image(), 0, e, d) implies img2[d]
                == v.image()[d] by {
                assert(img2[d - 0 + 0] == v.image()[d]);
            }
            v.lemma_of_image(img2);
        },
        None => {
            assert(false);
        },
    }
}

} // verus!
