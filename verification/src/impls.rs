//! `SerializeConst` for the primitive scalar types and for fixed-size byte
//! arrays. The byte image of an integer is its little-endian storage —
//! these implementations model a little-endian host, so no descriptor here
//! sets `reverse_bytes`; a big-endian host is described by descriptors
//! whose primitives set it, and the walkers are verified for both.

use vstd::prelude::*;
use vstd::bytes::{
    lemma_auto_spec_u16_to_from_le_bytes, lemma_auto_spec_u32_to_from_le_bytes,
    lemma_auto_spec_u64_to_from_le_bytes, spec_u16_from_le_bytes, spec_u16_to_le_bytes,
    spec_u32_from_le_bytes, spec_u32_to_le_bytes, spec_u64_from_le_bytes, spec_u64_to_le_bytes,
    u16_from_le_bytes, u16_to_le_bytes, u32_from_le_bytes, u32_to_le_bytes, u64_from_le_bytes,
    u64_to_le_bytes,
};
use crate::encoding::{Encoding, ListEncoding, PrimitiveEncoding};
use crate::model::{covered, items_covered, items_ok, value_ok};
use crate::SerializeConst;

verus! {

broadcast use vstd::array::group_array_axioms;

/// A list of bare bytes is serializable from any memory image: a byte has
/// no discriminant to go wrong.
proof fn lemma_byte_items_ok(mem: Seq<u8>, base: int, n: int)
    ensures
        items_ok(mem, base, Encoding::Primitive(PrimitiveEncoding { size: 1, reverse_bytes: false }), n),
    decreases n,
{
    let item = Encoding::Primitive(PrimitiveEncoding { size: 1, reverse_bytes: false });
    if n > 0 {
        lemma_byte_items_ok(mem, base, n - 1);
        assert(value_ok(mem, base + (n - 1) * item.spec_size(), item));
        assert(items_ok(mem, base, item, n));
    } else {
        assert(items_ok(mem, base, item, n));
    }
}

/// A list of `n` bare bytes covers exactly its own `n` positions.
proof fn lemma_byte_items_covered(mem: Seq<u8>, base: int, n: int, d: int)
    ensures
        items_covered(
            mem,
            base,
            Encoding::Primitive(PrimitiveEncoding { size: 1, reverse_bytes: false }),
            n,
            d,
        ) <==> base <= d < base + n,
    decreases n,
{
    let item = Encoding::Primitive(PrimitiveEncoding { size: 1, reverse_bytes: false });
    if n > 0 {
        lemma_byte_items_covered(mem, base, n - 1, d);
        assert(covered(mem, base + (n - 1) * item.spec_size(), item, d) <==> base + (n - 1) <= d
            < base + n);
    } else {
        assert(!items_covered(mem, base, item, n, d));
    }
}

impl SerializeConst for u8 {
    open spec fn spec_encoding() -> Encoding {
        Encoding::Primitive(PrimitiveEncoding { size: 1, reverse_bytes: false })
    }

    open spec fn image(&self) -> Seq<u8> {
        seq![*self]
    }

    open spec fn of_image(img: Seq<u8>) -> Self {
        img[0]
    }

    proof fn lemma_encoding_wf() {
    }

    proof fn lemma_image_wf(&self) {
    }

    proof fn lemma_of_image(&self, img: Seq<u8>) {
        assert(covered(self.image(), 0, Self::spec_encoding(), 0));
    }

    fn encoding() -> Encoding {
        Encoding::Primitive(PrimitiveEncoding { size: 1, reverse_bytes: false })
    }

    fn to_image(&self) -> (v: Vec<u8>) {
        let mut v: Vec<u8> = Vec::new();
        v.push(*self);
        proof {
            assert(v@ =~= self.image());
        }
        v
    }

    fn from_image(img: &[u8]) -> Self {
        img[0]
    }
}

impl SerializeConst for u16 {
    open spec fn spec_encoding() -> Encoding {
        Encoding::Primitive(PrimitiveEncoding { size: 2, reverse_bytes: false })
    }

    open spec fn image(&self) -> Seq<u8> {
        spec_u16_to_le_bytes(*self)
    }

    open spec fn of_image(img: Seq<u8>) -> Self {
        spec_u16_from_le_bytes(img)
    }

    proof fn lemma_encoding_wf() {
    }

    proof fn lemma_image_wf(&self) {
        lemma_auto_spec_u16_to_from_le_bytes();
    }

    proof fn lemma_of_image(&self, img: Seq<u8>) {
        lemma_auto_spec_u16_to_from_le_bytes();
        assert forall|d: int| 0 <= d < 2 implies #[trigger] img[d] == self.image()[d] by {
            assert(covered(self.image(), 0, Self::spec_encoding(), d));
        }
        assert(img =~= self.image());
    }

    fn encoding() -> Encoding {
        Encoding::Primitive(PrimitiveEncoding { size: 2, reverse_bytes: false })
    }

    fn to_image(&self) -> Vec<u8> {
        u16_to_le_bytes(*self)
    }

    fn from_image(img: &[u8]) -> Self {
        u16_from_le_bytes(img)
    }
}

impl SerializeConst for u32 {
    open spec fn spec_encoding() -> Encoding {
        Encoding::Primitive(PrimitiveEncoding { size: 4, reverse_bytes: false })
    }

    open spec fn image(&self) -> Seq<u8> {
        spec_u32_to_le_bytes(*self)
    }

    open spec fn of_image(img: Seq<u8>) -> Self {
        spec_u32_from_le_bytes(img)
    }

    proof fn lemma_encoding_wf() {
    }

    proof fn lemma_image_wf(&self) {
        lemma_auto_spec_u32_to_from_le_bytes();
    }

    proof fn lemma_of_image(&self, img: Seq<u8>) {
        lemma_auto_spec_u32_to_from_le_bytes();
        assert forall|d: int| 0 <= d < 4 implies #[trigger] img[d] == self.image()[d] by {
            assert(covered(self.image(), 0, Self::spec_encoding(), d));
        }
        assert(img =~= self.image());
    }

    fn encoding() -> Encoding {
        Encoding::Primitive(PrimitiveEncoding { size: 4, reverse_bytes: false })
    }

    fn to_image(&self) -> Vec<u8> {
        u32_to_le_bytes(*self)
    }

    fn from_image(img: &[u8]) -> Self {
        u32_from_le_bytes(img)
    }
}

impl SerializeConst for u64 {
    open spec fn spec_encoding() -> Encoding {
        Encoding::Primitive(PrimitiveEncoding { size: 8, reverse_bytes: false })
    }

    open spec fn image(&self) -> Seq<u8> {
        spec_u64_to_le_bytes(*self)
    }

    open spec fn of_image(img: Seq<u8>) -> Self {
        spec_u64_from_le_bytes(img)
    }

    proof fn lemma_encoding_wf() {
    }

    proof fn lemma_image_wf(&self) {
        lemma_auto_spec_u64_to_from_le_bytes();
    }

    proof fn lemma_of_image(&self, img: Seq<u8>) {
        lemma_auto_spec_u64_to_from_le_bytes();
        assert forall|d: int| 0 <= d < 8 implies #[trigger] img[d] == self.image()[d] by {
            assert(covered(self.image(), 0, Self::spec_encoding(), d));
        }
        assert(img =~= self.image());
    }

    fn encoding() -> Encoding {
        Encoding::Primitive(PrimitiveEncoding { size: 8, reverse_bytes: false })
    }

    fn to_image(&self) -> Vec<u8> {
        u64_to_le_bytes(*self)
    }

    fn from_image(img: &[u8]) -> Self {
        u64_from_le_bytes(img)
    }
}

impl SerializeConst for i8 {
    open spec fn spec_encoding() -> Encoding {
        Encoding::Primitive(PrimitiveEncoding { size: 1, reverse_bytes: false })
    }

    open spec fn image(&self) -> Seq<u8> {
        seq![*self as u8]
    }

    open spec fn of_image(img: Seq<u8>) -> Self {
        img[0] as i8
    }

    proof fn lemma_encoding_wf() {
    }

    proof fn lemma_image_wf(&self) {
    }

    proof fn lemma_of_image(&self, img: Seq<u8>) {
        assert(covered(self.image(), 0, Self::spec_encoding(), 0));
        assert(((*self as u8) as i8) == *self) by (bit_vector);
    }

    fn encoding() -> Encoding {
        Encoding::Primitive(PrimitiveEncoding { size: 1, reverse_bytes: false })
    }

    fn to_image(&self) -> (v: Vec<u8>) {
        let mut v: Vec<u8> = Vec::new();
        v.push(*self as u8);
        proof {
            assert(v@ =~= self.image());
        }
        v
    }

    fn from_image(img: &[u8]) -> Self {
        img[0] as i8
    }
}

impl SerializeConst for i16 {
    open spec fn spec_encoding() -> Encoding {
        Encoding::Primitive(PrimitiveEncoding { size: 2, reverse_bytes: false })
    }

    open spec fn image(&self) -> Seq<u8> {
        spec_u16_to_le_bytes(*self as u16)
    }

    open spec fn of_image(img: Seq<u8>) -> Self {
        spec_u16_from_le_bytes(img) as i16
    }

    proof fn lemma_encoding_wf() {
    }

    proof fn lemma_image_wf(&self) {
        lemma_auto_spec_u16_to_from_le_bytes();
    }

    proof fn lemma_of_image(&self, img: Seq<u8>) {
        lemma_auto_spec_u16_to_from_le_bytes();
        assert forall|d: int| 0 <= d < 2 implies #[trigger] img[d] == self.image()[d] by {
            assert(covered(self.image(), 0, Self::spec_encoding(), d));
        }
        assert(img =~= self.image());
        assert(((*self as u16) as i16) == *self) by (bit_vector);
    }

    fn encoding() -> Encoding {
        Encoding::Primitive(PrimitiveEncoding { size: 2, reverse_bytes: false })
    }

    fn to_image(&self) -> Vec<u8> {
        u16_to_le_bytes(*self as u16)
    }

    fn from_image(img: &[u8]) -> Self {
        u16_from_le_bytes(img) as i16
    }
}

impl SerializeConst for i32 {
    open spec fn spec_encoding() -> Encoding {
        Encoding::Primitive(PrimitiveEncoding { size: 4, reverse_bytes: false })
    }

    open spec fn image(&self) -> Seq<u8> {
        spec_u32_to_le_bytes(*self as u32)
    }

    open spec fn of_image(img: Seq<u8>) -> Self {
        spec_u32_from_le_bytes(img) as i32
    }

    proof fn lemma_encoding_wf() {
    }

    proof fn lemma_image_wf(&self) {
        lemma_auto_spec_u32_to_from_le_bytes();
    }

    proof fn lemma_of_image(&self, img: Seq<u8>) {
        lemma_auto_spec_u32_to_from_le_bytes();
        assert forall|d: int| 0 <= d < 4 implies #[trigger] img[d] == self.image()[d] by {
            assert(covered(self.image(), 0, Self::spec_encoding(), d));
        }
        assert(img =~= self.image());
        assert(((*self as u32) as i32) == *self) by (bit_vector);
    }

    fn encoding() -> Encoding {
        Encoding::Primitive(PrimitiveEncoding { size: 4, reverse_bytes: false })
    }

    fn to_image(&self) -> Vec<u8> {
        u32_to_le_bytes(*self as u32)
    }

    fn from_image(img: &[u8]) -> Self {
        u32_from_le_bytes(img) as i32
    }
}

impl SerializeConst for i64 {
    open spec fn spec_encoding() -> Encoding {
        Encoding::Primitive(PrimitiveEncoding { size: 8, reverse_bytes: false })
    }

    open spec fn image(&self) -> Seq<u8> {
        spec_u64_to_le_bytes(*self as u64)
    }

    open spec fn of_image(img: Seq<u8>) -> Self {
        spec_u64_from_le_bytes(img) as i64
    }

    proof fn lemma_encoding_wf() {
    }

    proof fn lemma_image_wf(&self) {
        lemma_auto_spec_u64_to_from_le_bytes();
    }

    proof fn lemma_of_image(&self, img: Seq<u8>) {
        lemma_auto_spec_u64_to_from_le_bytes();
        assert forall|d: int| 0 <= d < 8 implies #[trigger] img[d] == self.image()[d] by {
            assert(covered(self.image(), 0, Self::spec_encoding(), d));
        }
        assert(img =~= self.image());
        assert(((*self as u64) as i64) == *self) by (bit_vector);
    }

    fn encoding() -> Encoding {
        Encoding::Primitive(PrimitiveEncoding { size: 8, reverse_bytes: false })
    }

    fn to_image(&self) -> Vec<u8> {
        u64_to_le_bytes(*self as u64)
    }

    fn from_image(img: &[u8]) -> Self {
        u64_from_le_bytes(img) as i64
    }
}

impl<const N: usize> SerializeConst for [u8; N] {
    open spec fn spec_encoding() -> Encoding {
        Encoding::List(
            ListEncoding {
                len: N,
                item_encoding: Box::new(
                    Encoding::Primitive(PrimitiveEncoding { size: 1, reverse_bytes: false }),
                ),
            },
        )
    }

    open spec fn image(&self) -> Seq<u8> {
        self@
    }

    open spec fn of_image(img: Seq<u8>) -> Self {
        choose|a: [u8; N]| a@ == img
    }

    proof fn lemma_encoding_wf() {
        let item = Encoding::Primitive(PrimitiveEncoding { size: 1, reverse_bytes: false });
        assert(item.valid());
        assert(item.spec_size() == 1);
        assert(Self::spec_encoding().spec_size() == N as int);
    }

    proof fn lemma_image_wf(&self) {
        let item = Encoding::Primitive(PrimitiveEncoding { size: 1, reverse_bytes: false });
        assert(item.spec_size() == 1);
        assert(Self::spec_encoding().spec_size() == N as int);
        lemma_byte_items_ok(self@, 0, N as int);
    }

    proof fn lemma_of_image(&self, img: Seq<u8>) {
        let item = Encoding::Primitive(PrimitiveEncoding { size: 1, reverse_bytes: false });
        assert(item.spec_size() == 1);
        assert(Self::spec_encoding().spec_size() == N as int);
        assert forall|d: int| 0 <= d < N implies img[d] == self@[d] by {
            lemma_byte_items_covered(self@, 0, N as int, d);
            assert(covered(self.image(), 0, Self::spec_encoding(), d));
        }
        assert(img =~= self@);
        assert((*self)@ == img);
        let a = Self::of_image(img);
        assert(a@ == img);
        assert(a =~= *self);
    }

    fn encoding() -> Encoding {
        Encoding::List(
            ListEncoding::new(N, Encoding::Primitive(PrimitiveEncoding::new(1, false))),
        )
    }

    fn to_image(&self) -> (v: Vec<u8>) {
        let mut v: Vec<u8> = Vec::new();
        let mut i: usize = 0;
        while i < N
            invariant
                i <= N,
                v@.len() == i,
                forall|k: int| 0 <= k < i ==> #[trigger] v@[k] == self@[k],
            decreases N - i,
        {
            v.push(self[i]);
            i = i + 1;
        }
        proof {
            assert(v@ =~= self@);
        }
        v
    }

    fn from_image(img: &[u8]) -> (r: Self)
        ensures
            r == Self::of_image(img@),
    {
        proof {
            let item = Encoding::Primitive(PrimitiveEncoding { size: 1, reverse_bytes: false });
            assert(item.spec_size() == 1);
            assert(Self::spec_encoding().spec_size() == N as int);
        }
        let mut arr: [u8; N] = vstd::array::array_fill_for_copy_types(0u8);
        let mut i: usize = 0;
        while i < N
            invariant
                i <= N,
                img@.len() == N,
                forall|k: int| 0 <= k < i ==> #[trigger] arr@[k] == img@[k],
            decreases N - i,
        {
            arr[i] = img[i];
            i = i + 1;
        }
        proof {
            assert(arr@ =~= img@);
            let a = Self::of_image(img@);
            assert(a@ == img@);
            assert(a =~= arr);
        }
        arr
    }
}

impl SerializeConst for bool {
    open spec fn spec_encoding() -> Encoding {
        Encoding::Primitive(PrimitiveEncoding { size: 1, reverse_bytes: false })
    }

    open spec fn image(&self) -> Seq<u8> {
        seq![
            if *self {
                1u8
            } else {
                0u8
            },
        ]
    }

    open spec fn of_image(img: Seq<u8>) -> Self {
        img[0] != 0
    }

    proof fn lemma_encoding_wf() {
    }

    proof fn lemma_image_wf(&self) {
    }

    proof fn lemma_of_image(&self, img: Seq<u8>) {
        assert(covered(self.image(), 0, Self::spec_encoding(), 0));
    }

    fn encoding() -> Encoding {
        Encoding::Primitive(PrimitiveEncoding { size: 1, reverse_bytes: false })
    }

    fn to_image(&self) -> (v: Vec<u8>) {
        let mut v: Vec<u8> = Vec::new();
        if *self {
            v.push(1u8);
        } else {
            v.push(0u8);
        }
        proof {
            assert(v@ =~= self.image());
        }
        v
    }

    fn from_image(img: &[u8]) -> Self {
        img[0] != 0
    }
}

} // verus!
