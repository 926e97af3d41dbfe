//! The mathematical model of the wire format: what the serializer emits for
//! a given memory image and descriptor, and what the deserializer writes back
//! into an image for a given wire stream. The executable walkers are proved
//! against these functions.

use vstd::prelude::*;
use crate::encoding::{Encoding, EnumEncoding, EnumVariant, PlainOldData, PrimitiveEncoding};

verus! {

broadcast use vstd::std_specs::vec::axiom_vec_index_decreases, vstd::seq::axiom_seq_index_decreases, vstd::seq::axiom_seq_subrange_decreases, vstd::std_specs::vec::axiom_vec_decreases_to_view;

/// 256 raised to the power `n`: the number of values a `n`-byte scalar can
/// take.
pub open spec fn pow256(n: nat) -> nat
    decreases n,
{
    if n == 0 {
        1
    } else {
        256 * pow256((n - 1) as nat)
    }
}

/// Raising 256 to a larger power never shrinks it.
pub proof fn lemma_pow256_monotonic(a: nat, b: nat)
    requires
        a <= b,
    ensures
        pow256(a) <= pow256(b),
    decreases b,
{
    if a < b {
        lemma_pow256_monotonic(a, (b - 1) as nat);
        assert(pow256(b) == 256 * pow256((b - 1) as nat));
    }
}

/// The numeric value of a little-endian byte sequence.
pub open spec fn le_value(s: Seq<u8>) -> nat
    decreases s.len(),
{
    if s.len() == 0 {
        0
    } else {
        (s[0] + 256 * le_value(s.drop_first())) as nat
    }
}

/// A little-endian byte sequence encodes fewer than 256-to-its-length
/// values.
pub proof fn lemma_le_value_bound(s: Seq<u8>)
    ensures
        le_value(s) < pow256(s.len()),
    decreases s.len(),
{
    if s.len() > 0 {
        lemma_le_value_bound(s.drop_first());
        assert(le_value(s.drop_first()) <= pow256((s.len() - 1) as nat) - 1);
        assert(256 * le_value(s.drop_first()) <= 256 * (pow256((s.len() - 1) as nat) - 1))
            by (nonlinear_arith)
            requires
                le_value(s.drop_first()) <= pow256((s.len() - 1) as nat) - 1,
        ;
        assert(pow256(s.len()) == 256 * pow256((s.len() - 1) as nat));
    }
}

/// The wire bytes of one primitive stored at `base` in `mem`: the `size`
/// bytes of its storage, reversed when the host order is not the wire order,
/// so the wire is always little-endian.
pub open spec fn prim_wire(mem: Seq<u8>, base: int, p: PrimitiveEncoding) -> Seq<u8> {
    if p.reverse_bytes {
        mem.subrange(base, base + p.size).reverse()
    } else {
        mem.subrange(base, base + p.size)
    }
}

/// The numeric discriminant stored at `base` in `mem` for a tagged union:
/// the little-endian value of the discriminant's wire bytes.
pub open spec fn enum_tag(mem: Seq<u8>, base: int, e: EnumEncoding) -> nat {
    le_value(prim_wire(mem, base, e.discriminant))
}

/// Where item `i` of a list of `n` items of size `s` lies: wholly inside the
/// list's own `n * s` bytes.
pub proof fn lemma_item_offset_bounds(i: int, n: int, s: int)
    requires
        0 <= i < n,
        0 <= s,
    ensures
        0 <= i * s,
        i * s + s <= n * s,
{
    assert(0 <= i * s && i * s + s <= n * s) by (nonlinear_arith)
        requires
            0 <= i < n && 0 <= s,
    ;
}

/// The full wire stream for the value whose memory image occupies
/// `mem[base ..]` as described by `e`: only declared field bytes, in
/// declaration order, discriminant before payload; padding is never emitted.
pub open spec fn wire_of(mem: Seq<u8>, base: int, e: Encoding) -> Seq<u8>
    decreases e, 0int, 0int,
{
    match e {
        Encoding::Primitive(p) => prim_wire(mem, base, p),
        Encoding::List(l) => wire_of_items(mem, base, *l.item_encoding, l.len as int),
        Encoding::Struct(s) => wire_of_fields(mem, base, s.data@, s.data@.len() as int),
        Encoding::Enum(en) => prim_wire(mem, base, en.discriminant) + wire_of_variants(
            mem,
            base + en.variants_offset,
            en.variants@,
            enum_tag(mem, base, en),
        ),
    }
}

/// The concatenated wire bytes of the first `n` items of a list whose items
/// are laid out back to back from `base`.
pub open spec fn wire_of_items(mem: Seq<u8>, base: int, item: Encoding, n: int) -> Seq<u8>
    decreases item, 1int, n,
{
    if n <= 0 {
        Seq::empty()
    } else {
        wire_of_items(mem, base, item, n - 1) + wire_of(
            mem,
            base + (n - 1) * item.spec_size(),
            item,
        )
    }
}

/// The concatenated wire bytes of the first `n` fields of a struct based at
/// `base`, each field at its own offset.
pub open spec fn wire_of_fields(mem: Seq<u8>, base: int, fields: Seq<PlainOldData>, n: int) -> Seq<
    u8,
>
    decreases fields, 1int, n,
{
    if n <= 0 || fields.len() < n {
        Seq::empty()
    } else {
        wire_of_fields(mem, base, fields, n - 1) + wire_of(
            mem,
            base + fields[n - 1].offset,
            fields[n - 1].encoding,
        )
    }
}

/// The wire bytes of the payload of the first variant in `vs` whose tag is
/// `tag`, with the payload fields based at `payload_base`; empty when no
/// variant matches.
pub open spec fn wire_of_variants(
    mem: Seq<u8>,
    payload_base: int,
    vs: Seq<EnumVariant>,
    tag: nat,
) -> Seq<u8>
    decreases vs, 1int, 0int,
{
    if vs.len() == 0 {
        Seq::empty()
    } else if vs[0].tag == tag {
        wire_of_fields(mem, payload_base, vs[0].data.data@, vs[0].data.data@.len() as int)
    } else {
        wire_of_variants(mem, payload_base, vs.drop_first(), tag)
    }
}

/// Whether the memory image at `mem[base ..]` is serializable under `e`:
/// every tagged-union discriminant reached by the walk names a declared
/// variant.
pub open spec fn value_ok(mem: Seq<u8>, base: int, e: Encoding) -> bool
    decreases e, 0int, 0int,
{
    match e {
        Encoding::Primitive(p) => true,
        Encoding::List(l) => items_ok(mem, base, *l.item_encoding, l.len as int),
        Encoding::Struct(s) => fields_ok(mem, base, s.data@, s.data@.len() as int),
        Encoding::Enum(en) => variants_ok(
            mem,
            base + en.variants_offset,
            en.variants@,
            enum_tag(mem, base, en),
        ),
    }
}

/// `value_ok` for the first `n` items of a list.
pub open spec fn items_ok(mem: Seq<u8>, base: int, item: Encoding, n: int) -> bool
    decreases item, 1int, n,
{
    if n <= 0 {
        true
    } else {
        items_ok(mem, base, item, n - 1) && value_ok(mem, base + (n - 1) * item.spec_size(), item)
    }
}

/// `value_ok` for the first `n` fields of a struct.
pub open spec fn fields_ok(mem: Seq<u8>, base: int, fields: Seq<PlainOldData>, n: int) -> bool
    decreases fields, 1int, n,
{
    if n <= 0 || fields.len() < n {
        true
    } else {
        fields_ok(mem, base, fields, n - 1) && value_ok(
            mem,
            base + fields[n - 1].offset,
            fields[n - 1].encoding,
        )
    }
}

/// Each single field of a serializable struct prefix is itself serializable.
pub proof fn lemma_fields_ok_index(mem: Seq<u8>, base: int, fields: Seq<PlainOldData>, n: int, i: int)
    requires
        0 <= i < n <= fields.len(),
        fields_ok(mem, base, fields, n),
    ensures
        value_ok(mem, base + fields[i].offset, fields[i].encoding),
    decreases n,
{
    if i < n - 1 {
        lemma_fields_ok_index(mem, base, fields, n - 1, i);
    }
}

/// Each single item of a serializable list prefix is itself serializable.
pub proof fn lemma_items_ok_index(mem: Seq<u8>, base: int, item: Encoding, n: int, i: int)
    requires
        0 <= i < n,
        items_ok(mem, base, item, n),
    ensures
        value_ok(mem, base + i * item.spec_size(), item),
    decreases n,
{
    if i < n - 1 {
        lemma_items_ok_index(mem, base, item, n - 1, i);
    }
}

/// Some variant in `vs` carries the tag `tag`, and the payload fields of the
/// first such variant are themselves serializable.
pub open spec fn variants_ok(mem: Seq<u8>, payload_base: int, vs: Seq<EnumVariant>, tag: nat) -> bool
    decreases vs, 1int, 0int,
{
    if vs.len() == 0 {
        false
    } else if vs[0].tag == tag {
        fields_ok(mem, payload_base, vs[0].data.data@, vs[0].data.data@.len() as int)
    } else {
        variants_ok(mem, payload_base, vs.drop_first(), tag)
    }
}

/// The image `img` with the primitive at `base` overwritten from the wire
/// bytes `wire[pos ..]`, undoing the byte reversal the serializer applied.
pub open spec fn write_prim(
    img: Seq<u8>,
    base: int,
    p: PrimitiveEncoding,
    wire: Seq<u8>,
    pos: int,
) -> Seq<u8> {
    Seq::new(
        img.len(),
        |i: int|
            if base <= i < base + p.size {
                if p.reverse_bytes {
                    wire[pos + p.size - 1 - (i - base)]
                } else {
                    wire[pos + (i - base)]
                }
            } else {
                img[i]
            },
    )
}

/// A fresh all-zero image of `n` bytes: what the deserializer starts from.
/// The decoder fills every declared field byte; padding bytes stay zero.
pub open spec fn zero_image(n: int) -> Seq<u8> {
    Seq::new(if n >= 0 { n as nat } else { 0 }, |i: int| 0u8)
}

/// One step of decoding: consume the wire bytes for `e` starting at `pos`
/// and write them into the image at `base`; `None` when the wire is too
/// short or a decoded discriminant names no declared variant. No partial
/// result escapes: a failure anywhere fails the whole walk.
pub open spec fn decode(wire: Seq<u8>, pos: int, e: Encoding, img: Seq<u8>, base: int) -> Option<
    (Seq<u8>, int),
>
    decreases e, 0int, 0int,
{
    match e {
        Encoding::Primitive(p) => if pos + p.size <= wire.len() {
            Some((write_prim(img, base, p, wire, pos), pos + p.size))
        } else {
            None
        },
        Encoding::List(l) => decode_items(wire, pos, *l.item_encoding, l.len as int, img, base),
        Encoding::Struct(s) => decode_fields(wire, pos, s.data@, s.data@.len() as int, img, base),
        Encoding::Enum(en) => if pos + en.discriminant.size <= wire.len() {
            decode_variants(
                wire,
                pos + en.discriminant.size,
                en.variants@,
                le_value(wire.subrange(pos, pos + en.discriminant.size)),
                write_prim(img, base, en.discriminant, wire, pos),
                base + en.variants_offset,
            )
        } else {
            None
        },
    }
}

/// Decode the first `n` items of a list, in order.
pub open spec fn decode_items(
    wire: Seq<u8>,
    pos: int,
    item: Encoding,
    n: int,
    img: Seq<u8>,
    base: int,
) -> Option<(Seq<u8>, int)>
    decreases item, 1int, n,
{
    if n <= 0 {
        Some((img, pos))
    } else {
        match decode_items(wire, pos, item, n - 1, img, base) {
            Some((img1, pos1)) => decode(wire, pos1, item, img1, base + (n - 1) * item.spec_size()),
            None => None,
        }
    }
}

/// Decode the first `n` fields of a struct, in declaration order.
pub open spec fn decode_fields(
    wire: Seq<u8>,
    pos: int,
    fields: Seq<PlainOldData>,
    n: int,
    img: Seq<u8>,
    base: int,
) -> Option<(Seq<u8>, int)>
    decreases fields, 1int, n,
{
    if n <= 0 || fields.len() < n {
        Some((img, pos))
    } else {
        match decode_fields(wire, pos, fields, n - 1, img, base) {
            Some((img1, pos1)) => decode(
                wire,
                pos1,
                fields[n - 1].encoding,
                img1,
                base + fields[n - 1].offset,
            ),
            None => None,
        }
    }
}

/// Decode the payload of the first variant in `vs` whose tag is `tag`;
/// `None` when no declared variant carries the decoded tag.
pub open spec fn decode_variants(
    wire: Seq<u8>,
    pos: int,
    vs: Seq<EnumVariant>,
    tag: nat,
    img: Seq<u8>,
    payload_base: int,
) -> Option<(Seq<u8>, int)>
    decreases vs, 1int, 0int,
{
    if vs.len() == 0 {
        None
    } else if vs[0].tag == tag {
        decode_fields(wire, pos, vs[0].data.data@, vs[0].data.data@.len() as int, img, payload_base)
    } else {
        decode_variants(wire, pos, vs.drop_first(), tag, img, payload_base)
    }
}

/// Writing a primitive's wire bytes into an image and reading them back out
/// in wire order returns exactly the consumed wire bytes: the two byte
/// reversals cancel.
pub proof fn lemma_prim_wire_write_prim(
    img: Seq<u8>,
    base: int,
    p: PrimitiveEncoding,
    wire: Seq<u8>,
    pos: int,
)
    requires
        0 <= base,
        base + p.size <= img.len(),
        0 <= pos,
        pos + p.size <= wire.len(),
    ensures
        prim_wire(write_prim(img, base, p, wire, pos), base, p) == wire.subrange(
            pos,
            pos + p.size,
        ),
{
    assert(prim_wire(write_prim(img, base, p, wire, pos), base, p) =~= wire.subrange(
        pos,
        pos + p.size,
    ));
}

/// Once decoding a prefix of a list has failed, decoding any longer prefix
/// fails too: a failure aborts the whole walk.
pub proof fn lemma_decode_items_none(
    wire: Seq<u8>,
    pos: int,
    item: Encoding,
    i: int,
    n: int,
    img: Seq<u8>,
    base: int,
)
    requires
        0 <= i <= n,
        decode_items(wire, pos, item, i, img, base) is None,
    ensures
        decode_items(wire, pos, item, n, img, base) is None,
    decreases n,
{
    if i < n {
        lemma_decode_items_none(wire, pos, item, i, n - 1, img, base);
    }
}

/// Once decoding a prefix of a struct's fields has failed, decoding any
/// longer prefix fails too.
pub proof fn lemma_decode_fields_none(
    wire: Seq<u8>,
    pos: int,
    fields: Seq<PlainOldData>,
    i: int,
    n: int,
    img: Seq<u8>,
    base: int,
)
    requires
        0 <= i <= n <= fields.len(),
        decode_fields(wire, pos, fields, i, img, base) is None,
    ensures
        decode_fields(wire, pos, fields, n, img, base) is None,
    decreases n,
{
    if i < n {
        lemma_decode_fields_none(wire, pos, fields, i, n - 1, img, base);
    }
}

/// Whether the absolute position `p` of `mem` is part of a declared field of
/// the value at `base` described by `e` — the positions the serializer reads
/// and the deserializer writes back. Padding positions are not covered.
pub open spec fn covered(mem: Seq<u8>, base: int, e: Encoding, p: int) -> bool
    decreases e, 0int, 0int,
{
    match e {
        Encoding::Primitive(pe) => base <= p < base + pe.size,
        Encoding::List(l) => items_covered(mem, base, *l.item_encoding, l.len as int, p),
        Encoding::Struct(s) => fields_covered(mem, base, s.data@, s.data@.len() as int, p),
        Encoding::Enum(en) => base <= p < base + en.discriminant.size || variants_covered(
            mem,
            base + en.variants_offset,
            en.variants@,
            enum_tag(mem, base, en),
            p,
        ),
    }
}

/// `covered` over the first `n` items of a list.
pub open spec fn items_covered(mem: Seq<u8>, base: int, item: Encoding, n: int, p: int) -> bool
    decreases item, 1int, n,
{
    if n <= 0 {
        false
    } else {
        items_covered(mem, base, item, n - 1, p) || covered(
            mem,
            base + (n - 1) * item.spec_size(),
            item,
            p,
        )
    }
}

/// `covered` over the first `n` fields of a struct.
pub open spec fn fields_covered(
    mem: Seq<u8>,
    base: int,
    fields: Seq<PlainOldData>,
    n: int,
    p: int,
) -> bool
    decreases fields, 1int, n,
{
    if n <= 0 || fields.len() < n {
        false
    } else {
        fields_covered(mem, base, fields, n - 1, p) || covered(
            mem,
            base + fields[n - 1].offset,
            fields[n - 1].encoding,
            p,
        )
    }
}

/// `covered` over the payload of the first variant in `vs` whose tag is
/// `tag`.
pub open spec fn variants_covered(
    mem: Seq<u8>,
    payload_base: int,
    vs: Seq<EnumVariant>,
    tag: nat,
    p: int,
) -> bool
    decreases vs, 1int, 0int,
{
    if vs.len() == 0 {
        false
    } else if vs[0].tag == tag {
        fields_covered(mem, payload_base, vs[0].data.data@, vs[0].data.data@.len() as int, p)
    } else {
        variants_covered(mem, payload_base, vs.drop_first(), tag, p)
    }
}

} // verus!
