//! The deserializer: mirrors the serializer, consuming wire bytes in the
//! order they were written and filling them back into a byte image at the
//! offsets the fields occupy in memory. Running out of bytes, or a
//! discriminant that names no declared variant, fails the whole decode; no
//! partial value is ever handed back.

use vstd::prelude::*;
use crate::const_serde::ConstReadBuffer;
use crate::encoding::{Encoding, EnumEncoding, ListEncoding, PrimitiveEncoding, StructEncoding};
use crate::model::{
    decode, decode_fields, decode_items, decode_variants, le_value, lemma_decode_fields_none,
    lemma_decode_items_none, lemma_item_offset_bounds, lemma_prim_wire_write_prim, write_prim,
};
use crate::serialize::read_tag;

verus! {

broadcast use vstd::std_specs::vec::axiom_vec_index_decreases, vstd::seq::axiom_seq_index_decreases, vstd::seq::axiom_seq_subrange_decreases, vstd::std_specs::vec::axiom_vec_decreases_to_view;

/// The image `img` after the first `cnt` wire bytes of a primitive have been
/// copied in: the loop states of `deserialize_const_primitive`.
spec fn write_prim_upto(
    img: Seq<u8>,
    base: int,
    p: PrimitiveEncoding,
    wire: Seq<u8>,
    pos: int,
    cnt: int,
) -> Seq<u8> {
    Seq::new(
        img.len(),
        |i: int|
            if (p.reverse_bytes && base + p.size - cnt <= i < base + p.size) || (!p.reverse_bytes
                && base <= i < base + cnt) {
                if p.reverse_bytes {
                    wire[pos + p.size - 1 - (i - base)]
                } else {
                    wire[pos + (i - base)]
                }
            } else {
                img[i]
            },
    )
}

/// Deserialize one primitive into the image at `start`, consuming its wire
/// bytes and undoing the serializer's byte reversal; `None` when the reader
/// runs out of bytes.
pub fn deserialize_const_primitive<'a>(
    from: ConstReadBuffer<'a>,
    encoding: &PrimitiveEncoding,
    start: usize,
    out: Vec<u8>,
) -> (r: Option<(ConstReadBuffer<'a>, Vec<u8>)>)
    requires
        start + encoding.size <= out@.len(),
    ensures
        match r {
            Some((from2, out2)) => {
                &&& from.loc() + encoding.size <= from.bytes().len()
                &&& from2.bytes() == from.bytes()
                &&& from2.loc() == from.loc() + encoding.size
                &&& out2@ == write_prim(out@, start as int, *encoding, from.bytes(), from.loc())
                &&& out2@.len() == out@.len()
            },
            None => from.loc() + encoding.size > from.bytes().len(),
        },
{
    proof {
        use_type_invariant(&from);
    }
    let out_len = out.len();
    let ghost wire = from.bytes();
    let ghost pos = from.loc();
    let ghost out0 = out@;
    let mut rd = from;
    let mut img = out;
    let mut offset: usize = 0;
    while offset < encoding.size
        invariant
            offset <= encoding.size,
            start + encoding.size <= img@.len(),
            out_len == img@.len(),
            wire == from.bytes(),
            pos == from.loc(),
            out0 == out@,
            img@.len() == out0.len(),
            rd.bytes() == wire,
            rd.loc() == pos + offset,
            0 <= pos,
            pos + offset <= wire.len(),
            img@ == write_prim_upto(out0, start as int, *encoding, wire, pos, offset as int),
        decreases encoding.size - offset,
    {
        match rd.get() {
            Some((next, value)) => {
                rd = next;
                let idx: usize = if encoding.reverse_bytes {
                    start + encoding.size - offset - 1
                } else {
                    start + offset
                };
                proof {
                    assert(write_prim_upto(
                        out0,
                        start as int,
                        *encoding,
                        wire,
                        pos,
                        offset as int,
                    ).update(idx as int, value) =~= write_prim_upto(
                        out0,
                        start as int,
                        *encoding,
                        wire,
                        pos,
                        offset as int + 1,
                    ));
                }
                img[idx] = value;
                offset = offset + 1;
            },
            None => {
                return None;
            },
        }
    }
    proof {
        assert(write_prim_upto(out0, start as int, *encoding, wire, pos, encoding.size as int)
            =~= write_prim(out0, start as int, *encoding, wire, pos));
    }
    Some((rd, img))
}

/// Deserialize the fields of a struct into the image based at `start`, in
/// declaration order; padding bytes of the image are left as they were.
pub fn deserialize_const_struct<'a>(
    from: ConstReadBuffer<'a>,
    encoding: &StructEncoding,
    start: usize,
    out: Vec<u8>,
) -> (r: Option<(ConstReadBuffer<'a>, Vec<u8>)>)
    requires
        forall|k: int|
            0 <= k < encoding.data.len() ==> (#[trigger] encoding.data[k].encoding).valid()
                && encoding.data[k].offset + encoding.data[k].encoding.spec_size()
                <= encoding.size,
        start + encoding.size <= out@.len(),
    ensures
        match r {
            Some((from2, out2)) => {
                &&& decode_fields(
                    from.bytes(),
                    from.loc(),
                    encoding.data@,
                    encoding.data@.len() as int,
                    out@,
                    start as int,
                ) == Some((out2@, from2.loc()))
                &&& from2.bytes() == from.bytes()
                &&& from.loc() <= from2.loc() <= from.bytes().len()
                &&& out2@.len() == out@.len()
            },
            None => decode_fields(
                from.bytes(),
                from.loc(),
                encoding.data@,
                encoding.data@.len() as int,
                out@,
                start as int,
            ) is None,
        },
    decreases encoding, 0int,
{
    proof {
        use_type_invariant(&from);
    }
    let out_len = out.len();
    let ghost wire = from.bytes();
    let ghost pos0 = from.loc();
    let ghost out0 = out@;
    let mut rd = from;
    let mut img = out;
    let mut i: usize = 0;
    while i < encoding.data.len()
        invariant
            i <= encoding.data.len(),
            forall|k: int|
                0 <= k < encoding.data.len() ==> (#[trigger] encoding.data[k].encoding).valid()
                    && encoding.data[k].offset + encoding.data[k].encoding.spec_size()
                    <= encoding.size,
            start + encoding.size <= img@.len(),
            out_len == img@.len(),
            wire == from.bytes(),
            pos0 == from.loc(),
            out0 == out@,
            img@.len() == out0.len(),
            rd.bytes() == wire,
            pos0 <= rd.loc() <= wire.len(),
            decode_fields(wire, pos0, encoding.data@, i as int, out0, start as int) == Some(
                (img@, rd.loc()),
            ),
        decreases encoding.data@.len() - i,
    {
        let field = &encoding.data[i];
        match deserialize_const_ptr(rd, &field.encoding, start + field.offset, img) {
            Some((rd2, img2)) => {
                rd = rd2;
                img = img2;
            },
            None => {
                proof {
                    lemma_decode_fields_none(
                        wire,
                        pos0,
                        encoding.data@,
                        i as int + 1,
                        encoding.data@.len() as int,
                        out0,
                        start as int,
                    );
                }
                return None;
            },
        }
        i = i + 1;
    }
    Some((rd, img))
}

/// Deserialize the items of a fixed-length list into the image based at
/// `start`, in index order.
pub fn deserialize_const_list<'a>(
    from: ConstReadBuffer<'a>,
    encoding: &ListEncoding,
    start: usize,
    out: Vec<u8>,
) -> (r: Option<(ConstReadBuffer<'a>, Vec<u8>)>)
    requires
        encoding.item_encoding.valid(),
        0 <= encoding.len as int * encoding.item_encoding.spec_size() <= usize::MAX,
        start + encoding.len as int * encoding.item_encoding.spec_size() <= out@.len(),
    ensures
        match r {
            Some((from2, out2)) => {
                &&& decode_items(
                    from.bytes(),
                    from.loc(),
                    *encoding.item_encoding,
                    encoding.len as int,
                    out@,
                    start as int,
                ) == Some((out2@, from2.loc()))
                &&& from2.bytes() == from.bytes()
                &&& from.loc() <= from2.loc() <= from.bytes().len()
                &&& out2@.len() == out@.len()
            },
            None => decode_items(
                from.bytes(),
                from.loc(),
                *encoding.item_encoding,
                encoding.len as int,
                out@,
                start as int,
            ) is None,
        },
    decreases encoding, 0int,
{
    proof {
        use_type_invariant(&from);
    }
    let out_len = out.len();
    let ghost wire = from.bytes();
    let ghost pos0 = from.loc();
    let ghost out0 = out@;
    let item_size = encoding.item_encoding.size();
    let mut rd = from;
    let mut img = out;
    let mut i: usize = 0;
    while i < encoding.len
        invariant
            i <= encoding.len,
            item_size == encoding.item_encoding.spec_size(),
            encoding.item_encoding.valid(),
            0 <= encoding.len as int * encoding.item_encoding.spec_size() <= usize::MAX,
            start + encoding.len as int * encoding.item_encoding.spec_size() <= img@.len(),
            out_len == img@.len(),
            wire == from.bytes(),
            pos0 == from.loc(),
            out0 == out@,
            img@.len() == out0.len(),
            rd.bytes() == wire,
            pos0 <= rd.loc() <= wire.len(),
            decode_items(wire, pos0, *encoding.item_encoding, i as int, out0, start as int)
                == Some((img@, rd.loc())),
        decreases encoding.len - i,
    {
        proof {
            lemma_item_offset_bounds(i as int, encoding.len as int, item_size as int);
        }
        match deserialize_const_ptr(rd, &encoding.item_encoding, start + i * item_size, img) {
            Some((rd2, img2)) => {
                rd = rd2;
                img = img2;
            },
            None => {
                proof {
                    lemma_decode_items_none(
                        wire,
                        pos0,
                        *encoding.item_encoding,
                        i as int + 1,
                        encoding.len as int,
                        out0,
                        start as int,
                    );
                }
                return None;
            },
        }
        i = i + 1;
    }
    Some((rd, img))
}

/// Deserialize a tagged union: the discriminant's bytes are read first and
/// immediately select which variant's payload to decode at the union's
/// shared payload offset. A discriminant that names no declared variant
/// fails the decode.
pub fn deserialize_const_enum<'a>(
    from: ConstReadBuffer<'a>,
    encoding: &EnumEncoding,
    start: usize,
    out: Vec<u8>,
) -> (r: Option<(ConstReadBuffer<'a>, Vec<u8>)>)
    requires
        1 <= encoding.discriminant.size <= 8,
        encoding.discriminant.size <= encoding.variants_offset,
        encoding.variants_offset <= encoding.size,
        forall|k: int|
            0 <= k < encoding.variants.len() ==> (#[trigger] encoding.variants[k]).data
                .valid_payload((encoding.size - encoding.variants_offset) as int),
        start + encoding.size <= out@.len(),
    ensures
        match r {
            Some((from2, out2)) => {
                &&& decode(
                    from.bytes(),
                    from.loc(),
                    Encoding::Enum(*encoding),
                    out@,
                    start as int,
                ) == Some((out2@, from2.loc()))
                &&& from2.bytes() == from.bytes()
                &&& from.loc() <= from2.loc() <= from.bytes().len()
                &&& out2@.len() == out@.len()
            },
            None => decode(
                from.bytes(),
                from.loc(),
                Encoding::Enum(*encoding),
                out@,
                start as int,
            ) is None,
        },
    decreases encoding, 0int,
{
    proof {
        use_type_invariant(&from);
    }
    let out_len = out.len();
    let ghost wire = from.bytes();
    let ghost pos0 = from.loc();
    let ghost out0 = out@;
    let (rd, img) = match deserialize_const_primitive(from, &encoding.discriminant, start, out) {
        Some(x) => x,
        None => {
            return None;
        },
    };
    proof {
        lemma_prim_wire_write_prim(out0, start as int, encoding.discriminant, wire, pos0);
    }
    let tag = read_tag(img.as_slice(), start, &encoding.discriminant);
    let ghost t = le_value(wire.subrange(pos0, pos0 + encoding.discriminant.size));
    let ghost vs = encoding.variants@;
    let ghost pos1 = rd.loc();
    let ghost img1 = img@;
    let ghost pb = start as int + encoding.variants_offset;
    let payload_base = start + encoding.variants_offset;
    proof {
        assert(vs.skip(0) =~= vs);
    }
    let mut i: usize = 0;
    while i < encoding.variants.len()
        invariant
            i <= vs.len(),
            vs == encoding.variants@,
            tag as nat == t,
            pb == start as int + encoding.variants_offset,
            payload_base == start + encoding.variants_offset,
            encoding.variants_offset <= encoding.size,
            start + encoding.size <= img@.len(),
            forall|k: int|
                0 <= k < encoding.variants.len() ==> (#[trigger] encoding.variants[k]).data
                    .valid_payload((encoding.size - encoding.variants_offset) as int),
            wire == from.bytes(),
            pos0 == from.loc(),
            out0 == out@,
            img@ == img1,
            out_len == img@.len(),
            img@.len() == out0.len(),
            img1 == write_prim(out0, start as int, encoding.discriminant, wire, pos0),
            rd.bytes() == wire,
            rd.loc() == pos1,
            1 <= encoding.discriminant.size <= 8,
            encoding.discriminant.size <= encoding.variants_offset,
            pos1 == pos0 + encoding.discriminant.size,
            t == le_value(wire.subrange(pos0, pos0 + encoding.discriminant.size)),
            0 <= pos0,
            pos0 <= pos1 <= wire.len(),
            decode_variants(wire, pos1, vs.skip(i as int), t, img1, pb) == decode_variants(
                wire,
                pos1,
                vs,
                t,
                img1,
                pb,
            ),
        decreases vs.len() - i,
    {
        let v = &encoding.variants[i];
        proof {
            assert(vs.skip(i as int)[0] == vs[i as int]);
        }
        if v.tag == tag {
            proof {
                assert(decode_variants(wire, pos1, vs.skip(i as int), t, img1, pb)
                    == decode_fields(wire, pos1, v.data.data@, v.data.data@.len() as int, img1, pb));
                assert(decode(wire, pos0, Encoding::Enum(*encoding), out0, start as int)
                    == decode_variants(wire, pos1, vs, t, img1, pb));
            }
            return deserialize_const_struct(rd, &v.data, payload_base, img);
        }
        proof {
            assert(vs.skip(i as int).drop_first() =~= vs.skip(i as int + 1));
        }
        i = i + 1;
    }
    proof {
        assert(vs.skip(vs.len() as int) =~= Seq::<crate::encoding::EnumVariant>::empty());
        assert(decode(wire, pos0, Encoding::Enum(*encoding), out0, start as int) is None);
    }
    None
}

/// Deserialize any value into the image at `start` under its descriptor,
/// dispatching on the descriptor's kind.
pub fn deserialize_const_ptr<'a>(
    from: ConstReadBuffer<'a>,
    encoding: &Encoding,
    start: usize,
    out: Vec<u8>,
) -> (r: Option<(ConstReadBuffer<'a>, Vec<u8>)>)
    requires
        encoding.valid(),
        start + encoding.spec_size() <= out@.len(),
    ensures
        match r {
            Some((from2, out2)) => {
                &&& decode(from.bytes(), from.loc(), *encoding, out@, start as int) == Some(
                    (out2@, from2.loc()),
                )
                &&& from2.bytes() == from.bytes()
                &&& from.loc() <= from2.loc() <= from.bytes().len()
                &&& out2@.len() == out@.len()
            },
            None => decode(from.bytes(), from.loc(), *encoding, out@, start as int) is None,
        },
    decreases encoding, 1int,
{
    match encoding {
        Encoding::Struct(s) => deserialize_const_struct(from, s, start, out),
        Encoding::List(l) => deserialize_const_list(from, l, start, out),
        Encoding::Primitive(p) => {
            proof {
                use_type_invariant(&from);
            }
            deserialize_const_primitive(from, p, start, out)
        },
        Encoding::Enum(e) => deserialize_const_enum(from, e, start, out),
    }
}

} // verus!
