//! The serializer: walks a memory image guided by a layout descriptor,
//! appending the declared field bytes — and nothing else — to a write
//! buffer, in declaration order and in wire (little-endian) byte order.

use vstd::prelude::*;
use crate::const_serde::ConstWriteBuffer;
use crate::encoding::{Encoding, EnumEncoding, ListEncoding, PrimitiveEncoding, StructEncoding};
use crate::model::{
    enum_tag, fields_ok, items_ok, le_value, lemma_fields_ok_index, lemma_items_ok_index,
    lemma_item_offset_bounds, lemma_le_value_bound, lemma_pow256_monotonic, pow256, prim_wire,
    value_ok, variants_ok, wire_of, wire_of_fields, wire_of_items, wire_of_variants,
};

verus! {

broadcast use vstd::std_specs::vec::axiom_vec_index_decreases, vstd::seq::axiom_seq_index_decreases, vstd::seq::axiom_seq_subrange_decreases, vstd::std_specs::vec::axiom_vec_decreases_to_view;

/// Serialize one primitive stored at `mem[base ..]`: its bytes are appended
/// in wire order, walking backwards through its storage when the host byte
/// order is reversed with respect to the wire.
pub fn serialize_const_primitive(
    mem: &[u8],
    base: usize,
    to: ConstWriteBuffer,
    encoding: &PrimitiveEncoding,
) -> (r: ConstWriteBuffer)
    requires
        base + encoding.size <= mem@.len(),
    ensures
        r@ == to@ + prim_wire(mem@, base as int, *encoding),
{
    let mem_len = mem.len();
    let ghost w = prim_wire(mem@, base as int, *encoding);
    let ghost to0 = to@;
    let mut to = to;
    let mut offset: usize = 0;
    while offset < encoding.size
        invariant
            offset <= encoding.size,
            base + encoding.size <= mem@.len(),
            mem_len == mem@.len(),
            w == prim_wire(mem@, base as int, *encoding),
            w.len() == encoding.size,
            to@ == to0 + w.subrange(0, offset as int),
        decreases encoding.size - offset,
    {
        let b: u8 = if encoding.reverse_bytes {
            mem[base + encoding.size - offset - 1]
        } else {
            mem[base + offset]
        };
        proof {
            assert(b == w[offset as int]);
            assert(w.subrange(0, offset as int).push(w[offset as int]) =~= w.subrange(
                0,
                offset as int + 1,
            ));
        }
        to = to.push(b);
        offset = offset + 1;
    }
    proof {
        assert(w.subrange(0, w.len() as int) =~= w);
    }
    to
}

/// Serialize the fields of a struct stored at `mem[base ..]`, in declaration
/// order, each at its own offset; padding between fields is skipped.
pub fn serialize_const_struct(
    mem: &[u8],
    base: usize,
    to: ConstWriteBuffer,
    encoding: &StructEncoding,
) -> (r: ConstWriteBuffer)
    requires
        forall|k: int|
            0 <= k < encoding.data.len() ==> (#[trigger] encoding.data[k].encoding).valid()
                && encoding.data[k].offset + encoding.data[k].encoding.spec_size()
                <= encoding.size,
        base + encoding.size <= mem@.len(),
        fields_ok(mem@, base as int, encoding.data@, encoding.data@.len() as int),
    ensures
        r@ == to@ + wire_of_fields(mem@, base as int, encoding.data@, encoding.data@.len() as int),
    decreases encoding, 0int,
{
    let mem_len = mem.len();
    let ghost to0 = to@;
    let mut to = to;
    let mut i: usize = 0;
    while i < encoding.data.len()
        invariant
            i <= encoding.data.len(),
            forall|k: int|
                0 <= k < encoding.data.len() ==> (#[trigger] encoding.data[k].encoding).valid()
                    && encoding.data[k].offset + encoding.data[k].encoding.spec_size()
                    <= encoding.size,
            base + encoding.size <= mem@.len(),
            mem_len == mem@.len(),
            fields_ok(mem@, base as int, encoding.data@, encoding.data@.len() as int),
            to@ == to0 + wire_of_fields(mem@, base as int, encoding.data@, i as int),
        decreases encoding.data@.len() - i,
    {
        let field = &encoding.data[i];
        proof {
            lemma_fields_ok_index(
                mem@,
                base as int,
                encoding.data@,
                encoding.data@.len() as int,
                i as int,
            );
        }
        to = serialize_const_ptr(mem, base + field.offset, to, &field.encoding);
        proof {
            assert(to@ == to0 + wire_of_fields(mem@, base as int, encoding.data@, i as int + 1));
        }
        i = i + 1;
    }
    to
}

/// Serialize the items of a fixed-length list stored back to back at
/// `mem[base ..]`, in index order.
pub fn serialize_const_list(
    mem: &[u8],
    base: usize,
    to: ConstWriteBuffer,
    encoding: &ListEncoding,
) -> (r: ConstWriteBuffer)
    requires
        encoding.item_encoding.valid(),
        0 <= encoding.len as int * encoding.item_encoding.spec_size() <= usize::MAX,
        base + encoding.len as int * encoding.item_encoding.spec_size() <= mem@.len(),
        items_ok(mem@, base as int, *encoding.item_encoding, encoding.len as int),
    ensures
        r@ == to@ + wire_of_items(mem@, base as int, *encoding.item_encoding, encoding.len as int),
    decreases encoding, 0int,
{
    let mem_len = mem.len();
    let item_size = encoding.item_encoding.size();
    let ghost to0 = to@;
    let mut to = to;
    let mut i: usize = 0;
    while i < encoding.len
        invariant
            i <= encoding.len,
            item_size == encoding.item_encoding.spec_size(),
            encoding.item_encoding.valid(),
            0 <= encoding.len as int * encoding.item_encoding.spec_size() <= usize::MAX,
            base + encoding.len as int * encoding.item_encoding.spec_size() <= mem@.len(),
            mem_len == mem@.len(),
            items_ok(mem@, base as int, *encoding.item_encoding, encoding.len as int),
            to@ == to0 + wire_of_items(mem@, base as int, *encoding.item_encoding, i as int),
        decreases encoding.len - i,
    {
        proof {
            lemma_item_offset_bounds(i as int, encoding.len as int, item_size as int);
            lemma_items_ok_index(
                mem@,
                base as int,
                *encoding.item_encoding,
                encoding.len as int,
                i as int,
            );
        }
        to = serialize_const_ptr(mem, base + i * item_size, to, &encoding.item_encoding);
        i = i + 1;
    }
    to
}

/// Read the numeric discriminant of a tagged union out of the memory image:
/// the little-endian value of the discriminant's wire bytes.
pub(crate) fn read_tag(mem: &[u8], base: usize, discr: &PrimitiveEncoding) -> (t: u64)
    requires
        1 <= discr.size <= 8,
        base + discr.size <= mem@.len(),
    ensures
        t as nat == le_value(prim_wire(mem@, base as int, *discr)),
{
    let mem_len = mem.len();
    let ghost w = prim_wire(mem@, base as int, *discr);
    let mut acc: u64 = 0;
    let mut k: usize = discr.size;
    while k > 0
        invariant
            k <= discr.size,
            1 <= discr.size <= 8,
            base + discr.size <= mem@.len(),
            mem_len == mem@.len(),
            w == prim_wire(mem@, base as int, *discr),
            w.len() == discr.size,
            acc as nat == le_value(w.subrange(k as int, discr.size as int)),
        decreases k,
    {
        k = k - 1;
        let b: u8 = if discr.reverse_bytes {
            mem[base + discr.size - k - 1]
        } else {
            mem[base + k]
        };
        proof {
            assert(b == w[k as int]);
            let tail = w.subrange(k as int + 1, discr.size as int);
            lemma_le_value_bound(tail);
            lemma_pow256_monotonic(tail.len(), 7);
            reveal_with_fuel(pow256, 9);
            assert(w.subrange(k as int, discr.size as int).drop_first() =~= tail);
        }
        acc = acc * 256 + (b as u64);
    }
    proof {
        assert(w.subrange(0, w.len() as int) =~= w);
    }
    acc
}

/// Serialize a tagged union stored at `mem[base ..]`: the discriminant's
/// bytes first, then the payload fields of the variant the discriminant
/// selects, based at the union's shared payload offset.
pub fn serialize_const_enum(
    mem: &[u8],
    base: usize,
    to: ConstWriteBuffer,
    encoding: &EnumEncoding,
) -> (r: ConstWriteBuffer)
    requires
        1 <= encoding.discriminant.size <= 8,
        encoding.discriminant.size <= encoding.variants_offset,
        encoding.variants_offset <= encoding.size,
        forall|k: int|
            0 <= k < encoding.variants.len() ==> (#[trigger] encoding.variants[k]).data
                .valid_payload((encoding.size - encoding.variants_offset) as int),
        base + encoding.size <= mem@.len(),
        variants_ok(
            mem@,
            base as int + encoding.variants_offset,
            encoding.variants@,
            enum_tag(mem@, base as int, *encoding),
        ),
    ensures
        r@ == to@ + prim_wire(mem@, base as int, encoding.discriminant) + wire_of_variants(
            mem@,
            base as int + encoding.variants_offset,
            encoding.variants@,
            enum_tag(mem@, base as int, *encoding),
        ),
    decreases encoding, 0int,
{
    let mem_len = mem.len();
    let ghost t = enum_tag(mem@, base as int, *encoding);
    let ghost vs = encoding.variants@;
    let ghost pb = base as int + encoding.variants_offset;
    let ghost torig = to@;
    let with_tag = serialize_const_primitive(mem, base, to, &encoding.discriminant);
    let ghost to1 = with_tag@;
    let tag = read_tag(mem, base, &encoding.discriminant);
    let payload_base = base + encoding.variants_offset;
    proof {
        assert(vs.skip(0) =~= vs);
    }
    let mut i: usize = 0;
    while i < encoding.variants.len()
        invariant
            i <= vs.len(),
            vs == encoding.variants@,
            tag as nat == t,
            t == enum_tag(mem@, base as int, *encoding),
            torig == to@,
            pb == base as int + encoding.variants_offset,
            with_tag@ == to1,
            to1 == torig + prim_wire(mem@, base as int, encoding.discriminant),
            base + encoding.size <= mem@.len(),
            mem_len == mem@.len(),
            payload_base == base + encoding.variants_offset,
            encoding.variants_offset <= encoding.size,
            forall|k: int|
                0 <= k < encoding.variants.len() ==> (#[trigger] encoding.variants[k]).data
                    .valid_payload((encoding.size - encoding.variants_offset) as int),
            variants_ok(mem@, pb, vs.skip(i as int), t),
            wire_of_variants(mem@, pb, vs.skip(i as int), t) == wire_of_variants(mem@, pb, vs, t),
        decreases vs.len() - i,
    {
        let v = &encoding.variants[i];
        proof {
            assert(vs.skip(i as int)[0] == vs[i as int]);
        }
        if v.tag == tag {
            let r = serialize_const_struct(mem, payload_base, with_tag, &v.data);
            proof {
                assert(wire_of_variants(mem@, pb, vs.skip(i as int), t) == wire_of_fields(
                    mem@,
                    pb,
                    v.data.data@,
                    v.data.data@.len() as int,
                ));
                assert(to1 == torig + prim_wire(mem@, base as int, encoding.discriminant));
                assert(r@ == to1 + wire_of_fields(
                    mem@,
                    pb,
                    v.data.data@,
                    v.data.data@.len() as int,
                ));
                assert(r@ == torig + prim_wire(mem@, base as int, encoding.discriminant)
                    + wire_of_variants(mem@, pb, vs, t));
            }
            return r;
        }
        proof {
            assert(vs.skip(i as int).drop_first() =~= vs.skip(i as int + 1));
        }
        i = i + 1;
    }
    proof {
        assert(vs.skip(vs.len() as int) =~= Seq::<crate::encoding::EnumVariant>::empty());
        assert(false);
    }
    with_tag
}

/// Serialize any value stored at `mem[base ..]` under its descriptor,
/// dispatching on the descriptor's kind.
pub fn serialize_const_ptr(
    mem: &[u8],
    base: usize,
    to: ConstWriteBuffer,
    encoding: &Encoding,
) -> (r: ConstWriteBuffer)
    requires
        encoding.valid(),
        value_ok(mem@, base as int, *encoding),
        base + encoding.spec_size() <= mem@.len(),
    ensures
        r@ == to@ + wire_of(mem@, base as int, *encoding),
    decreases encoding, 1int,
{
    match encoding {
        Encoding::Struct(s) => serialize_const_struct(mem, base, to, s),
        Encoding::List(l) => serialize_const_list(mem, base, to, l),
        Encoding::Primitive(p) => serialize_const_primitive(mem, base, to, p),
        Encoding::Enum(e) => serialize_const_enum(mem, base, to, e),
    }
}

} // verus!
