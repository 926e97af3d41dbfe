//! The layout descriptor model: an immutable tree describing a type's memory
//! shape — primitive scalar, fixed-length list, struct, or tagged union.

use vstd::prelude::*;

verus! {

broadcast use vstd::std_specs::vec::axiom_vec_index_decreases, vstd::seq::axiom_seq_index_decreases, vstd::seq::axiom_seq_subrange_decreases, vstd::std_specs::vec::axiom_vec_decreases_to_view;

/// The encoding for a primitive scalar. `reverse_bytes` is true when the
/// host's native byte order differs from the wire's fixed little-endian
/// order, so the bytes must be copied in reverse to land in wire order.
#[derive(Debug, PartialEq, Eq)]
pub struct PrimitiveEncoding {
    pub size: usize,
    pub reverse_bytes: bool,
}

/// The encoding for a constant sized array: a length and an item encoding.
#[derive(Debug, PartialEq, Eq)]
pub struct ListEncoding {
    pub len: usize,
    pub item_encoding: Box<Encoding>,
}

/// One field of a struct: its byte offset within the containing struct and
/// the encoding of the field itself.
#[derive(Debug, PartialEq, Eq)]
pub struct PlainOldData {
    pub offset: usize,
    pub encoding: Encoding,
}

/// Encoding for a struct: the real memory size (including padding) and the
/// fields in declaration order. Padding bytes are never part of any field.
#[derive(Debug, PartialEq, Eq)]
pub struct StructEncoding {
    pub size: usize,
    pub data: Vec<PlainOldData>,
}

/// One variant of a tagged union: the discriminant value that selects it and
/// a struct-shaped encoding of its payload fields.
#[derive(Debug, PartialEq, Eq)]
pub struct EnumVariant {
    pub tag: u64,
    pub data: StructEncoding,
}

/// Encoding for a tagged union: the real memory size, the discriminant
/// primitive stored at offset 0, the shared byte offset where every variant's
/// payload begins, and the variants in declaration order.
#[derive(Debug, PartialEq, Eq)]
pub struct EnumEncoding {
    pub size: usize,
    pub discriminant: PrimitiveEncoding,
    pub variants_offset: usize,
    pub variants: Vec<EnumVariant>,
}

/// The encoding for a type: a sequence of locations and reversed-or-not byte
/// ranges. Bytes are copied from these locations during serialization and
/// copied back into them during deserialization.
#[derive(Debug, PartialEq, Eq)]
pub enum Encoding {
    Struct(StructEncoding),
    List(ListEncoding),
    Primitive(PrimitiveEncoding),
    Enum(EnumEncoding),
}

impl Encoding {
    /// The size in bytes of the memory image of the type this encoding
    /// describes.
    pub open spec fn spec_size(&self) -> int
        decreases self,
    {
        match self {
            Encoding::Struct(s) => s.size as int,
            Encoding::List(l) => l.len as int * l.item_encoding.spec_size(),
            Encoding::Primitive(p) => p.size as int,
            Encoding::Enum(e) => e.size as int,
        }
    }

    /// Well-formedness of a descriptor: every computed size fits in `usize`,
    /// every field lies inside its container, the discriminant of a tagged
    /// union is a small scalar that fits before the shared payload region,
    /// and discriminant values are unique within one tagged union.
    pub open spec fn valid(&self) -> bool
        decreases self,
    {
        match self {
            Encoding::Primitive(p) => true,
            Encoding::List(l) => {
                &&& l.item_encoding.valid()
                &&& 0 <= l.len as int * l.item_encoding.spec_size() <= usize::MAX
            },
            Encoding::Struct(s) => forall|i: int|
                0 <= i < s.data.len() ==> (#[trigger] s.data[i].encoding).valid()
                    && s.data[i].offset + s.data[i].encoding.spec_size() <= s.size,
            Encoding::Enum(e) => {
                &&& 1 <= e.discriminant.size <= 8
                &&& e.discriminant.size <= e.variants_offset
                &&& e.variants_offset <= e.size
                &&& forall|i: int|
                    0 <= i < e.variants.len() ==> (#[trigger] e.variants[i]).data.valid_payload(
                        (e.size - e.variants_offset) as int,
                    )
                &&& forall|i: int, j: int|
                    0 <= i < e.variants.len() && 0 <= j < e.variants.len() && i != j
                        ==> (#[trigger] e.variants[i]).tag != (#[trigger] e.variants[j]).tag
            },
        }
    }

    /// The size in bytes, or `None` when it does not fit in `usize`.
    /// Unlike `size`, this asks nothing of the descriptor.
    pub fn checked_size(&self) -> (r: Option<usize>)
        ensures
            match r {
                Some(n) => n == self.spec_size(),
                None => self.spec_size() > usize::MAX,
            },
        decreases self,
    {
        match self {
            Encoding::Struct(s) => Some(s.size),
            Encoding::List(l) => {
                proof {
                    lemma_spec_size_nonneg(*l.item_encoding);
                }
                if l.len == 0 {
                    proof {
                        assert(0int * l.item_encoding.spec_size() == 0) by (nonlinear_arith);
                    }
                    Some(0)
                } else {
                    match l.item_encoding.checked_size() {
                        Some(s) => l.len.checked_mul(s),
                        None => {
                            proof {
                                assert(l.len as int * l.item_encoding.spec_size()
                                    >= l.item_encoding.spec_size()) by (nonlinear_arith)
                                    requires
                                        l.len as int >= 1 && l.item_encoding.spec_size() >= 0,
                                ;
                            }
                            None
                        },
                    }
                }
            },
            Encoding::Primitive(p) => Some(p.size),
            Encoding::Enum(e) => Some(e.size),
        }
    }

    /// Validate a descriptor before use: the executable check of the same
    /// invariant the verified walkers require. A descriptor this rejects
    /// must not drive the engine; one it accepts satisfies `valid`.
    pub fn check_valid(&self) -> (r: bool)
        ensures
            r == self.valid(),
        decreases self, 1int,
    {
        match self {
            Encoding::Primitive(p) => true,
            Encoding::List(l) => {
                if !l.item_encoding.check_valid() {
                    return false;
                }
                proof {
                    lemma_spec_size_nonneg(*l.item_encoding);
                }
                if l.len == 0 {
                    proof {
                        assert(0int * l.item_encoding.spec_size() == 0) by (nonlinear_arith);
                    }
                    return true;
                }
                match l.item_encoding.checked_size() {
                    Some(s) => {
                        proof {
                            assert(l.len as int * l.item_encoding.spec_size() >= 0)
                                by (nonlinear_arith)
                                requires
                                    l.len as int >= 0 && l.item_encoding.spec_size() >= 0,
                            ;
                        }
                        l.len.checked_mul(s).is_some()
                    },
                    None => {
                        proof {
                            assert(l.len as int * l.item_encoding.spec_size()
                                >= l.item_encoding.spec_size()) by (nonlinear_arith)
                                requires
                                    l.len as int >= 1 && l.item_encoding.spec_size() >= 0,
                            ;
                        }
                        false
                    },
                }
            },
            Encoding::Struct(st) => check_valid_fields(st),
            Encoding::Enum(en) => check_valid_enum(en),
        }
    }

    /// The size of the type in bytes.
    pub fn size(&self) -> (r: usize)
        requires
            self.valid(),
        ensures
            r == self.spec_size(),
        decreases self,
    {
        match self {
            Encoding::Struct(s) => s.size,
            Encoding::List(l) => l.len * l.item_encoding.size(),
            Encoding::Primitive(p) => p.size,
            Encoding::Enum(e) => e.size,
        }
    }
}

impl PlainOldData {
    /// A field at `offset` within its containing struct, described by
    /// `encoding`.
    pub fn new(offset: usize, encoding: Encoding) -> (r: Self)
        ensures
            r.offset == offset,
            r.encoding == encoding,
    {
        Self { offset, encoding }
    }
}

impl StructEncoding {
    /// A struct of real memory size `size` whose declared fields are
    /// `data`, in declaration order.
    pub fn new(size: usize, data: Vec<PlainOldData>) -> (r: Self)
        ensures
            r.size == size,
            r.data == data,
    {
        Self { size, data }
    }
}

impl ListEncoding {
    /// A fixed-length sequence of `len` items, each described by
    /// `item_encoding`.
    pub fn new(len: usize, item_encoding: Encoding) -> (r: Self)
        ensures
            r.len == len,
            r.item_encoding == Box::new(item_encoding),
    {
        Self { len, item_encoding: Box::new(item_encoding) }
    }
}

impl PrimitiveEncoding {
    /// A scalar of `size` bytes; `reverse_bytes` is set when the host's
    /// byte order is not the wire's little-endian order.
    pub fn new(size: usize, reverse_bytes: bool) -> (r: Self)
        ensures
            r.size == size,
            r.reverse_bytes == reverse_bytes,
    {
        Self { size, reverse_bytes }
    }
}

impl EnumVariant {
    /// A variant selected by the discriminant value `tag`, with a
    /// struct-shaped payload.
    pub fn new(tag: u64, data: StructEncoding) -> (r: Self)
        ensures
            r.tag == tag,
            r.data == data,
    {
        Self { tag, data }
    }
}

impl EnumEncoding {
    /// The shared payload offset of a tagged union: the discriminant's
    /// size divided (truncating) by the maximum variant alignment, plus
    /// that alignment — the natural padding a compiler inserts between the
    /// discriminant and a union of the variant payloads.
    pub fn payload_offset(discriminant_size: usize, max_align: usize) -> (r: usize)
        requires
            1 <= max_align,
            discriminant_size / max_align + max_align <= usize::MAX,
        ensures
            r == discriminant_size / max_align + max_align,
    {
        discriminant_size / max_align + max_align
    }

    /// A tagged union of real memory size `size`: a discriminant of
    /// `discriminant_size` bytes at offset 0, reversed on a host whose byte
    /// order differs from the wire's, and the variants' shared payload
    /// region starting at `variants_offset`.
    pub fn new(
        size: usize,
        discriminant_size: usize,
        reverse_bytes: bool,
        variants_offset: usize,
        variants: Vec<EnumVariant>,
    ) -> (r: Self)
        ensures
            r.size == size,
            r.discriminant == (PrimitiveEncoding { size: discriminant_size, reverse_bytes }),
            r.variants_offset == variants_offset,
            r.variants == variants,
    {
        Self {
            size,
            discriminant: PrimitiveEncoding { size: discriminant_size, reverse_bytes },
            variants_offset,
            variants,
        }
    }
}

/// Check that every declared field of `st` has a well-formed encoding and
/// lies wholly inside `st`'s own `size` bytes.
fn check_valid_fields(st: &StructEncoding) -> (r: bool)
    ensures
        r == (forall|k: int|
            0 <= k < st.data.len() ==> (#[trigger] st.data[k].encoding).valid()
                && st.data[k].offset + st.data[k].encoding.spec_size() <= st.size),
    decreases st, 0int,
{
    let mut i: usize = 0;
    while i < st.data.len()
        invariant
            i <= st.data.len(),
            forall|k: int|
                0 <= k < i ==> (#[trigger] st.data[k].encoding).valid()
                    && st.data[k].offset + st.data[k].encoding.spec_size() <= st.size,
        decreases st.data@.len() - i,
    {
        let field = &st.data[i];
        if !field.encoding.check_valid() {
            return false;
        }
        let fsize = field.encoding.size();
        if fsize > st.size || field.offset > st.size - fsize {
            return false;
        }
        i = i + 1;
    }
    true
}

/// Check a tagged union's own invariants: a small discriminant that fits
/// before the shared payload region, every variant payload well formed
/// inside that region, and no two variants sharing a discriminant value.
fn check_valid_enum(en: &EnumEncoding) -> (r: bool)
    ensures
        r == Encoding::Enum(*en).valid(),
    decreases en, 0int,
{
    if en.discriminant.size < 1 || en.discriminant.size > 8 {
        return false;
    }
    if en.discriminant.size > en.variants_offset {
        return false;
    }
    if en.variants_offset > en.size {
        return false;
    }
    let region = en.size - en.variants_offset;
    let mut i: usize = 0;
    while i < en.variants.len()
        invariant
            i <= en.variants.len(),
            region == en.size - en.variants_offset,
            forall|k: int|
                0 <= k < i ==> (#[trigger] en.variants[k]).data.valid_payload(region as int),
        decreases en.variants@.len() - i,
    {
        let v = &en.variants[i];
        if v.data.size > region {
            proof {
                assert(!en.variants[i as int].data.valid_payload(region as int));
            }
            return false;
        }
        if !check_valid_fields(&v.data) {
            proof {
                assert(!en.variants[i as int].data.valid_payload(region as int));
            }
            return false;
        }
        i = i + 1;
    }
    let mut a: usize = 0;
    while a < en.variants.len()
        invariant
            a <= en.variants.len(),
            forall|k1: int, k2: int|
                0 <= k1 < k2 < a ==> (#[trigger] en.variants[k1]).tag != (
                #[trigger] en.variants[k2]).tag,
        decreases en.variants@.len() - a,
    {
        let mut b: usize = 0;
        while b < a
            invariant
                b <= a < en.variants.len(),
                forall|m: int|
                    0 <= m < b ==> (#[trigger] en.variants[m]).tag != en.variants[a as int].tag,
            decreases a - b,
        {
            if en.variants[b].tag == en.variants[a].tag {
                return false;
            }
            b = b + 1;
        }
        a = a + 1;
    }
    proof {
        assert forall|k1: int, k2: int|
            0 <= k1 < en.variants.len() && 0 <= k2 < en.variants.len() && k1 != k2 implies (
        #[trigger] en.variants[k1]).tag != (#[trigger] en.variants[k2]).tag by {
            if k1 < k2 {
                assert(en.variants[k1].tag != en.variants[k2].tag);
            } else {
                assert(en.variants[k2].tag != en.variants[k1].tag);
            }
        }
    }
    true
}

/// A descriptor never describes a negative number of bytes.
pub proof fn lemma_spec_size_nonneg(e: Encoding)
    ensures
        e.spec_size() >= 0,
    decreases e,
{
    match e {
        Encoding::List(l) => {
            lemma_spec_size_nonneg(*l.item_encoding);
            assert(l.len as int * l.item_encoding.spec_size() >= 0) by (nonlinear_arith)
                requires
                    l.len as int >= 0 && l.item_encoding.spec_size() >= 0,
            ;
        },
        _ => {},
    }
}

impl StructEncoding {
    /// Well-formedness of a variant payload: a well-formed struct layout
    /// that fits inside the payload region of the containing tagged union.
    pub open spec fn valid_payload(&self, region: int) -> bool
        decreases self,
    {
        &&& self.size <= region
        &&& forall|i: int|
            0 <= i < self.data.len() ==> (#[trigger] self.data[i].encoding).valid()
                && self.data[i].offset + self.data[i].encoding.spec_size() <= self.size
    }
}

} // verus!
