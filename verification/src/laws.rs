//! The round-trip law: decoding a wire stream produced by the serializer
//! succeeds, consumes exactly the bytes that were written, and restores
//! every declared field byte of the original memory image, touching nothing
//! else of the output image.

use vstd::prelude::*;
use crate::encoding::{lemma_spec_size_nonneg, Encoding, EnumVariant, PlainOldData, PrimitiveEncoding};
use crate::model::{
    covered, decode, decode_fields, decode_items, decode_variants, enum_tag, fields_covered,
    fields_ok, items_covered, items_ok, le_value, lemma_item_offset_bounds, prim_wire, value_ok,
    variants_covered, variants_ok, wire_of, wire_of_fields, wire_of_items, wire_of_variants,
    write_prim,
};

verus! {

broadcast use vstd::std_specs::vec::axiom_vec_index_decreases, vstd::std_specs::vec::axiom_vec_decreases_to_view, vstd::seq::group_seq_axioms;

/// A covered position lies inside the value's own byte range.
pub proof fn lemma_covered_in_range(mem: Seq<u8>, base: int, e: Encoding, d: int)
    requires
        e.valid(),
        covered(mem, base, e, d),
    ensures
        base <= d < base + e.spec_size(),
    decreases e, 0int, 0int,
{
    match e {
        Encoding::Primitive(p) => {},
        Encoding::List(l) => {
            lemma_items_covered_in_range(mem, base, *l.item_encoding, l.len as int, d);
        },
        Encoding::Struct(s) => {
            lemma_fields_covered_in_range(
                mem,
                base,
                s.data@,
                s.data@.len() as int,
                s.size as int,
                d,
            );
        },
        Encoding::Enum(en) => {
            if !(base <= d < base + en.discriminant.size) {
                lemma_variants_covered_in_range(
                    mem,
                    base + en.variants_offset,
                    en.variants@,
                    enum_tag(mem, base, en),
                    (en.size - en.variants_offset) as int,
                    d,
                );
            }
        },
    }
}

proof fn lemma_items_covered_in_range(mem: Seq<u8>, base: int, item: Encoding, n: int, d: int)
    requires
        item.valid(),
        items_covered(mem, base, item, n, d),
    ensures
        base <= d < base + n * item.spec_size(),
    decreases item, 1int, n,
{
    lemma_spec_size_nonneg(item);
    let s = item.spec_size();
    lemma_item_offset_bounds(n - 1, n, s);
    if covered(mem, base + (n - 1) * s, item, d) {
        lemma_covered_in_range(mem, base + (n - 1) * s, item, d);
    } else {
        lemma_items_covered_in_range(mem, base, item, n - 1, d);
    }
}

proof fn lemma_fields_covered_in_range(
    mem: Seq<u8>,
    base: int,
    fields: Seq<PlainOldData>,
    n: int,
    ssize: int,
    d: int,
)
    requires
        forall|k: int|
            0 <= k < fields.len() ==> (#[trigger] fields[k].encoding).valid()
                && fields[k].offset + fields[k].encoding.spec_size() <= ssize,
        n <= fields.len(),
        fields_covered(mem, base, fields, n, d),
    ensures
        base <= d < base + ssize,
    decreases fields, 1int, n,
{
    if covered(mem, base + fields[n - 1].offset, fields[n - 1].encoding, d) {
        lemma_covered_in_range(mem, base + fields[n - 1].offset, fields[n - 1].encoding, d);
    } else {
        lemma_fields_covered_in_range(mem, base, fields, n - 1, ssize, d);
    }
}

proof fn lemma_variants_covered_in_range(
    mem: Seq<u8>,
    pb: int,
    vs: Seq<EnumVariant>,
    tag: nat,
    region: int,
    d: int,
)
    requires
        forall|k: int| 0 <= k < vs.len() ==> (#[trigger] vs[k]).data.valid_payload(region),
        variants_covered(mem, pb, vs, tag, d),
    ensures
        pb <= d < pb + region,
    decreases vs, 1int, 0int,
{
    if vs[0].tag == tag {
        assert(vs[0].data.valid_payload(region));
        lemma_fields_covered_in_range(
            mem,
            pb,
            vs[0].data.data@,
            vs[0].data.data@.len() as int,
            vs[0].data.size as int,
            d,
        );
    } else {
        assert forall|k: int| 0 <= k < vs.drop_first().len() implies (#[trigger] vs.drop_first()[
            k
        ]).data.valid_payload(region) by {
            assert(vs.drop_first()[k] == vs[k + 1]);
        }
        lemma_variants_covered_in_range(mem, pb, vs.drop_first(), tag, region, d);
    }
}

/// A wire segment that holds a concatenation holds its two halves, in
/// order.
proof fn lemma_wire_split(wire: Seq<u8>, pos: int, a: Seq<u8>, b: Seq<u8>)
    requires
        0 <= pos,
        pos + a.len() + b.len() <= wire.len(),
        wire.subrange(pos, pos + a.len() + b.len()) == a + b,
    ensures
        wire.subrange(pos, pos + a.len()) == a,
        wire.subrange(pos + a.len(), pos + a.len() + b.len()) == b,
{
    let cat = wire.subrange(pos, pos + a.len() + b.len());
    assert forall|i: int| 0 <= i < a.len() implies wire[pos + i] == a[i] by {
        assert(cat[i] == wire[pos + i]);
        assert((a + b)[i] == a[i]);
    }
    assert forall|i: int| 0 <= i < b.len() implies wire[pos + a.len() + i] == b[i] by {
        assert(cat[a.len() + i] == wire[pos + a.len() + i]);
        assert((a + b)[a.len() + i] == b[i]);
    }
    assert(wire.subrange(pos, pos + a.len()) =~= a);
    assert(wire.subrange(pos + a.len(), pos + a.len() + b.len()) =~= b);
}

/// The wire byte order is fixed, whatever the host's. A host whose native
/// order is the wire's copies a scalar's storage forward; one whose order
/// is reversed stores the same scalar's bytes in the opposite order and
/// copies them backward: both emit identical wire bytes.
pub proof fn lemma_wire_fixed_endian(
    mem: Seq<u8>,
    base: int,
    mem2: Seq<u8>,
    base2: int,
    size: usize,
)
    requires
        0 <= base,
        base + size <= mem.len(),
        0 <= base2,
        base2 + size <= mem2.len(),
        forall|k: int| 0 <= k < size ==> #[trigger] mem2[base2 + k] == mem[base + size - 1 - k],
    ensures
        prim_wire(mem2, base2, PrimitiveEncoding { size, reverse_bytes: true }) == prim_wire(
            mem,
            base,
            PrimitiveEncoding { size, reverse_bytes: false },
        ),
{
    let pw1 = prim_wire(mem2, base2, PrimitiveEncoding { size, reverse_bytes: true });
    let pw2 = prim_wire(mem, base, PrimitiveEncoding { size, reverse_bytes: false });
    assert forall|j: int| 0 <= j < size implies pw1[j] == pw2[j] by {
        assert(pw1[j] == mem2.subrange(base2, base2 + size)[size - 1 - j]);
        assert(mem2[base2 + (size - 1 - j)] == mem[base + size - 1 - (size - 1 - j)]);
        assert(pw2[j] == mem[base + j]);
    }
    assert(pw1 =~= pw2);
}

/// What a successful round trip of one value means: decoding from `pos`
/// succeeds, stops exactly past the value's wire bytes, and yields an image
/// that holds the original memory bytes at every covered position and the
/// prior image bytes everywhere else.
pub open spec fn decodes_back(
    mem: Seq<u8>,
    base: int,
    e: Encoding,
    wire: Seq<u8>,
    pos: int,
    img: Seq<u8>,
    base2: int,
) -> bool {
    match decode(wire, pos, e, img, base2) {
        Some((img2, pos2)) => {
            &&& pos2 == pos + wire_of(mem, base, e).len()
            &&& img2.len() == img.len()
            &&& forall|d: int|
                #[trigger] covered(mem, base, e, d) ==> img2[d - base + base2] == mem[d]
            &&& forall|q: int|
                0 <= q < img.len() && !covered(mem, base, e, q - base2 + base) ==> #[trigger] img2[
                    q
                ] == img[q]
        },
        None => false,
    }
}

/// `decodes_back` for the first `n` items of a list.
pub open spec fn items_decode_back(
    mem: Seq<u8>,
    base: int,
    item: Encoding,
    n: int,
    wire: Seq<u8>,
    pos: int,
    img: Seq<u8>,
    base2: int,
) -> bool {
    match decode_items(wire, pos, item, n, img, base2) {
        Some((img2, pos2)) => {
            &&& pos2 == pos + wire_of_items(mem, base, item, n).len()
            &&& img2.len() == img.len()
            &&& forall|d: int|
                #[trigger] items_covered(mem, base, item, n, d) ==> img2[d - base + base2]
                    == mem[d]
            &&& forall|q: int|
                0 <= q < img.len() && !items_covered(mem, base, item, n, q - base2 + base)
                    ==> #[trigger] img2[q] == img[q]
        },
        None => false,
    }
}

/// `decodes_back` for the first `n` fields of a struct.
pub open spec fn fields_decode_back(
    mem: Seq<u8>,
    base: int,
    fields: Seq<PlainOldData>,
    n: int,
    wire: Seq<u8>,
    pos: int,
    img: Seq<u8>,
    base2: int,
) -> bool {
    match decode_fields(wire, pos, fields, n, img, base2) {
        Some((img2, pos2)) => {
            &&& pos2 == pos + wire_of_fields(mem, base, fields, n).len()
            &&& img2.len() == img.len()
            &&& forall|d: int|
                #[trigger] fields_covered(mem, base, fields, n, d) ==> img2[d - base + base2]
                    == mem[d]
            &&& forall|q: int|
                0 <= q < img.len() && !fields_covered(mem, base, fields, n, q - base2 + base)
                    ==> #[trigger] img2[q] == img[q]
        },
        None => false,
    }
}

/// `decodes_back` for the payload of the selected variant of a tagged
/// union.
pub open spec fn variants_decode_back(
    mem: Seq<u8>,
    pbm: int,
    vs: Seq<EnumVariant>,
    tag: nat,
    wire: Seq<u8>,
    pos: int,
    img: Seq<u8>,
    pbi: int,
) -> bool {
    match decode_variants(wire, pos, vs, tag, img, pbi) {
        Some((img2, pos2)) => {
            &&& pos2 == pos + wire_of_variants(mem, pbm, vs, tag).len()
            &&& img2.len() == img.len()
            &&& forall|d: int|
                #[trigger] variants_covered(mem, pbm, vs, tag, d) ==> img2[d - pbm + pbi]
                    == mem[d]
            &&& forall|q: int|
                0 <= q < img.len() && !variants_covered(mem, pbm, vs, tag, q - pbi + pbm)
                    ==> #[trigger] img2[q] == img[q]
        },
        None => false,
    }
}

/// One byte of a wire segment equals the matching byte of the stream it was
/// cut from.
proof fn lemma_wire_index(wire: Seq<u8>, pos: int, w: Seq<u8>, j: int)
    requires
        0 <= pos,
        pos + w.len() <= wire.len(),
        wire.subrange(pos, pos + w.len()) == w,
        0 <= j < w.len(),
    ensures
        wire[pos + j] == w[j],
{
    assert(wire.subrange(pos, pos + w.len())[j] == w[j]);
}

/// The round-trip law. Serializing the value whose image lies at
/// `mem[base ..]` and decoding the produced wire bytes — wherever they sit
/// in a larger stream — succeeds, consumes exactly those bytes, restores
/// every declared field byte into the output image, and leaves every other
/// byte of the output image untouched.
pub proof fn lemma_round_trip(
    mem: Seq<u8>,
    base: int,
    e: Encoding,
    wire: Seq<u8>,
    pos: int,
    img: Seq<u8>,
    base2: int,
)
    requires
        e.valid(),
        value_ok(mem, base, e),
        0 <= base,
        base + e.spec_size() <= mem.len(),
        0 <= base2,
        base2 + e.spec_size() <= img.len(),
        0 <= pos,
        pos + wire_of(mem, base, e).len() <= wire.len(),
        wire.subrange(pos, pos + wire_of(mem, base, e).len()) == wire_of(mem, base, e),
    ensures
        decodes_back(mem, base, e, wire, pos, img, base2),
    decreases e, 0int, 0int,
{
    match e {
        Encoding::Primitive(p) => {
            let w = prim_wire(mem, base, p);
            assert(w.len() == p.size);
            let img2 = write_prim(img, base2, p, wire, pos);
            assert forall|d: int| #[trigger] covered(mem, base, e, d) implies img2[d - base
                + base2] == mem[d] by {
                let k = d - base;
                if p.reverse_bytes {
                    lemma_wire_index(wire, pos, w, p.size - 1 - k);
                    assert(w[p.size - 1 - k] == mem.subrange(base, base + p.size)[k]);
                    assert(img2[base2 + k] == wire[pos + p.size - 1 - k]);
                } else {
                    lemma_wire_index(wire, pos, w, k);
                    assert(w[k] == mem.subrange(base, base + p.size)[k]);
                    assert(img2[base2 + k] == wire[pos + k]);
                }
            }
            assert forall|q: int|
                0 <= q < img.len() && !covered(mem, base, e, q - base2 + base) implies img2[q]
                == img[q] by {}
            assert(decode(wire, pos, e, img, base2) == Some((img2, pos + p.size as int)));
            assert(wire_of(mem, base, e).len() == p.size);
            assert(img2.len() == img.len());
            assert(decodes_back(mem, base, e, wire, pos, img, base2));
        },
        Encoding::List(l) => {
            let item = *l.item_encoding;
            let n = l.len as int;
            lemma_round_trip_items(mem, base, item, n, wire, pos, img, base2);
            match decode_items(wire, pos, item, n, img, base2) {
                Some((img2, pos2)) => {
                    assert(decode(wire, pos, e, img, base2) == Some((img2, pos2)));
                    assert(wire_of(mem, base, e) == wire_of_items(mem, base, item, n));
                    assert forall|d: int| #[trigger] covered(mem, base, e, d) implies img2[d - base
                        + base2] == mem[d] by {
                        assert(items_covered(mem, base, item, n, d));
                    }
                    assert forall|q: int|
                        0 <= q < img.len() && !covered(mem, base, e, q - base2 + base) implies
                        img2[q] == img[q] by {
                        assert(!items_covered(mem, base, item, n, q - base2 + base));
                    }
                },
                None => {
                    assert(false);
                },
            }
        },
        Encoding::Struct(st) => {
            let flds = st.data@;
            let n = flds.len() as int;
            lemma_round_trip_fields(mem, base, flds, n, st.size as int, wire, pos, img, base2);
            match decode_fields(wire, pos, flds, n, img, base2) {
                Some((img2, pos2)) => {
                    assert(decode(wire, pos, e, img, base2) == Some((img2, pos2)));
                    assert(wire_of(mem, base, e) == wire_of_fields(mem, base, flds, n));
                    assert forall|d: int| #[trigger] covered(mem, base, e, d) implies img2[d - base
                        + base2] == mem[d] by {
                        assert(fields_covered(mem, base, flds, n, d));
                    }
                    assert forall|q: int|
                        0 <= q < img.len() && !covered(mem, base, e, q - base2 + base) implies
                        img2[q] == img[q] by {
                        assert(!fields_covered(mem, base, flds, n, q - base2 + base));
                    }
                },
                None => {
                    assert(false);
                },
            }
        },
        Encoding::Enum(en) => {
            let dsize = en.discriminant.size as int;
            let pbm = base + en.variants_offset;
            let pbi = base2 + en.variants_offset;
            let region = (en.size - en.variants_offset) as int;
            let t = enum_tag(mem, base, en);
            let wd = prim_wire(mem, base, en.discriminant);
            let wv = wire_of_variants(mem, pbm, en.variants@, t);
            assert(wd.len() == dsize);
            assert(wire_of(mem, base, e) == wd + wv);
            lemma_wire_split(wire, pos, wd, wv);
            assert(wire.subrange(pos, pos + dsize) == wd);
            assert(le_value(wire.subrange(pos, pos + dsize)) == t);
            let img1 = write_prim(img, base2, en.discriminant, wire, pos);
            assert(img1.len() == img.len());
            assert forall|k: int| 0 <= k < dsize implies #[trigger] img1[base2 + k] == mem[base
                + k] by {
                if en.discriminant.reverse_bytes {
                    lemma_wire_index(wire, pos, wd, dsize - 1 - k);
                    assert(wd[dsize - 1 - k] == mem.subrange(base, base + dsize)[k]);
                    assert(img1[base2 + k] == wire[pos + dsize - 1 - k]);
                } else {
                    lemma_wire_index(wire, pos, wd, k);
                    assert(wd[k] == mem.subrange(base, base + dsize)[k]);
                    assert(img1[base2 + k] == wire[pos + k]);
                }
            }
            lemma_round_trip_variants(
                mem,
                pbm,
                en.variants@,
                t,
                region,
                wire,
                pos + dsize,
                img1,
                pbi,
            );
            match decode_variants(wire, pos + dsize, en.variants@, t, img1, pbi) {
                Some((img2, pos2)) => {
                    assert(decode(wire, pos, e, img, base2) == Some((img2, pos2)));
                    assert forall|d: int| #[trigger] covered(mem, base, e, d) implies img2[d - base
                        + base2] == mem[d] by {
                        if base <= d < base + dsize {
                            let q = d - base + base2;
                            if variants_covered(mem, pbm, en.variants@, t, q - pbi + pbm) {
                                lemma_variants_covered_in_range(
                                    mem,
                                    pbm,
                                    en.variants@,
                                    t,
                                    region,
                                    q - pbi + pbm,
                                );
                            }
                            assert(img2[q] == img1[q]);
                            let k = d - base;
                            assert(img1[base2 + k] == mem[base + k]);
                            assert(q == base2 + k);
                            assert(img1[q] == mem[d]);
                        } else {
                            assert(variants_covered(mem, pbm, en.variants@, t, d));
                            assert(img2[d - pbm + pbi] == mem[d]);
                            assert(d - pbm + pbi == d - base + base2);
                        }
                    }
                    assert forall|q: int|
                        0 <= q < img.len() && !covered(mem, base, e, q - base2 + base) implies
                        img2[q] == img[q] by {
                        assert(!variants_covered(mem, pbm, en.variants@, t, q - base2 + base));
                        assert(q - pbi + pbm == q - base2 + base);
                        assert(img2[q] == img1[q]);
                        assert(!(base <= q - base2 + base < base + dsize));
                        assert(img1[q] == img[q]);
                    }
                },
                None => {
                    assert(false);
                },
            }
        },
    }
}

/// The round-trip law for the first `n` items of a list.
pub proof fn lemma_round_trip_items(
    mem: Seq<u8>,
    base: int,
    item: Encoding,
    n: int,
    wire: Seq<u8>,
    pos: int,
    img: Seq<u8>,
    base2: int,
)
    requires
        item.valid(),
        items_ok(mem, base, item, n),
        0 <= base,
        base + n * item.spec_size() <= mem.len(),
        0 <= base2,
        base2 + n * item.spec_size() <= img.len(),
        0 <= pos,
        pos + wire_of_items(mem, base, item, n).len() <= wire.len(),
        wire.subrange(pos, pos + wire_of_items(mem, base, item, n).len()) == wire_of_items(
            mem,
            base,
            item,
            n,
        ),
    ensures
        items_decode_back(mem, base, item, n, wire, pos, img, base2),
    decreases item, 1int, n,
{
    lemma_spec_size_nonneg(item);
    let s = item.spec_size();
    if n > 0 {
        let wpre = wire_of_items(mem, base, item, n - 1);
        let wlast = wire_of(mem, base + (n - 1) * s, item);
        assert(wire_of_items(mem, base, item, n) == wpre + wlast);
        lemma_item_offset_bounds(n - 1, n, s);
        lemma_wire_split(wire, pos, wpre, wlast);
        lemma_round_trip_items(mem, base, item, n - 1, wire, pos, img, base2);
        match decode_items(wire, pos, item, n - 1, img, base2) {
            Some((img2, pos2)) => {
                lemma_round_trip(
                    mem,
                    base + (n - 1) * s,
                    item,
                    wire,
                    pos2,
                    img2,
                    base2 + (n - 1) * s,
                );
                match decode(wire, pos2, item, img2, base2 + (n - 1) * s) {
                    Some((img3, pos3)) => {
                        assert(decode_items(wire, pos, item, n, img, base2) == Some(
                            (img3, pos3),
                        ));
                        assert forall|d: int|
                            #[trigger] items_covered(mem, base, item, n, d) implies img3[d - base
                            + base2] == mem[d] by {
                            if covered(mem, base + (n - 1) * s, item, d) {
                                assert(img3[d - (base + (n - 1) * s) + (base2 + (n - 1) * s)]
                                    == mem[d]);
                                assert(d - (base + (n - 1) * s) + (base2 + (n - 1) * s) == d - base
                                    + base2);
                            } else {
                                assert(items_covered(mem, base, item, n - 1, d));
                                let q = d - base + base2;
                                assert(img2[q] == mem[d]);
                                lemma_items_covered_in_range(mem, base, item, n - 1, d);
                                assert(0 <= q < img2.len());
                                assert(q - (base2 + (n - 1) * s) + (base + (n - 1) * s) == d);
                                assert(img3[q] == img2[q]);
                            }
                        }
                        assert forall|q: int|
                            0 <= q < img.len() && !items_covered(
                                mem,
                                base,
                                item,
                                n,
                                q - base2 + base,
                            ) implies img3[q] == img[q] by {
                            assert(!items_covered(mem, base, item, n - 1, q - base2 + base));
                            assert(!covered(mem, base + (n - 1) * s, item, q - base2 + base));
                            assert(img2[q] == img[q]);
                            assert(q - (base2 + (n - 1) * s) + (base + (n - 1) * s) == q - base2
                                + base);
                            assert(img3[q] == img2[q]);
                        }
                    },
                    None => {
                        assert(false);
                    },
                }
            },
            None => {
                assert(false);
            },
        }
    }
}

/// The round-trip law for the first `n` fields of a struct of declared size
/// `ssize`.
pub proof fn lemma_round_trip_fields(
    mem: Seq<u8>,
    base: int,
    fields: Seq<PlainOldData>,
    n: int,
    ssize: int,
    wire: Seq<u8>,
    pos: int,
    img: Seq<u8>,
    base2: int,
)
    requires
        forall|k: int|
            0 <= k < fields.len() ==> (#[trigger] fields[k].encoding).valid()
                && fields[k].offset + fields[k].encoding.spec_size() <= ssize,
        0 <= n <= fields.len(),
        fields_ok(mem, base, fields, n),
        0 <= base,
        base + ssize <= mem.len(),
        0 <= base2,
        base2 + ssize <= img.len(),
        0 <= pos,
        pos + wire_of_fields(mem, base, fields, n).len() <= wire.len(),
        wire.subrange(pos, pos + wire_of_fields(mem, base, fields, n).len()) == wire_of_fields(
            mem,
            base,
            fields,
            n,
        ),
    ensures
        fields_decode_back(mem, base, fields, n, wire, pos, img, base2),
    decreases fields, 1int, n,
{
    if n > 0 {
        let o = fields[n - 1].offset as int;
        let fe = fields[n - 1].encoding;
        let wpre = wire_of_fields(mem, base, fields, n - 1);
        let wlast = wire_of(mem, base + o, fe);
        assert(wire_of_fields(mem, base, fields, n) == wpre + wlast);
        lemma_wire_split(wire, pos, wpre, wlast);
        lemma_round_trip_fields(mem, base, fields, n - 1, ssize, wire, pos, img, base2);
        match decode_fields(wire, pos, fields, n - 1, img, base2) {
            Some((img2, pos2)) => {
                lemma_round_trip(mem, base + o, fe, wire, pos2, img2, base2 + o);
                match decode(wire, pos2, fe, img2, base2 + o) {
                    Some((img3, pos3)) => {
                        assert(decode_fields(wire, pos, fields, n, img, base2) == Some(
                            (img3, pos3),
                        ));
                        assert forall|d: int|
                            #[trigger] fields_covered(mem, base, fields, n, d) implies img3[d
                            - base + base2] == mem[d] by {
                            if covered(mem, base + o, fe, d) {
                                assert(img3[d - (base + o) + (base2 + o)] == mem[d]);
                                assert(d - (base + o) + (base2 + o) == d - base + base2);
                            } else {
                                assert(fields_covered(mem, base, fields, n - 1, d));
                                let q = d - base + base2;
                                assert(img2[q] == mem[d]);
                                lemma_fields_covered_in_range(mem, base, fields, n - 1, ssize, d);
                                assert(0 <= q < img2.len());
                                assert(q - (base2 + o) + (base + o) == d);
                                assert(img3[q] == img2[q]);
                            }
                        }
                        assert forall|q: int|
                            0 <= q < img.len() && !fields_covered(
                                mem,
                                base,
                                fields,
                                n,
                                q - base2 + base,
                            ) implies img3[q] == img[q] by {
                            assert(!fields_covered(mem, base, fields, n - 1, q - base2 + base));
                            assert(!covered(mem, base + o, fe, q - base2 + base));
                            assert(img2[q] == img[q]);
                            assert(q - (base2 + o) + (base + o) == q - base2 + base);
                            assert(img3[q] == img2[q]);
                        }
                    },
                    None => {
                        assert(false);
                    },
                }
            },
            None => {
                assert(false);
            },
        }
    }
}

/// The round-trip law for the selected variant's payload of a tagged
/// union whose payload region holds `region` bytes.
pub proof fn lemma_round_trip_variants(
    mem: Seq<u8>,
    pbm: int,
    vs: Seq<EnumVariant>,
    tag: nat,
    region: int,
    wire: Seq<u8>,
    pos: int,
    img: Seq<u8>,
    pbi: int,
)
    requires
        forall|k: int| 0 <= k < vs.len() ==> (#[trigger] vs[k]).data.valid_payload(region),
        variants_ok(mem, pbm, vs, tag),
        0 <= pbm,
        pbm + region <= mem.len(),
        0 <= pbi,
        pbi + region <= img.len(),
        0 <= pos,
        pos + wire_of_variants(mem, pbm, vs, tag).len() <= wire.len(),
        wire.subrange(pos, pos + wire_of_variants(mem, pbm, vs, tag).len()) == wire_of_variants(
            mem,
            pbm,
            vs,
            tag,
        ),
    ensures
        variants_decode_back(mem, pbm, vs, tag, wire, pos, img, pbi),
    decreases vs, 1int, 0int,
{
    if vs[0].tag == tag {
        assert(vs[0].data.valid_payload(region));
        let flds = vs[0].data.data@;
        let fn_ = flds.len() as int;
        lemma_round_trip_fields(
            mem,
            pbm,
            flds,
            fn_,
            vs[0].data.size as int,
            wire,
            pos,
            img,
            pbi,
        );
        assert(wire_of_variants(mem, pbm, vs, tag) == wire_of_fields(mem, pbm, flds, fn_));
        assert(decode_variants(wire, pos, vs, tag, img, pbi) == decode_fields(
            wire,
            pos,
            flds,
            fn_,
            img,
            pbi,
        ));
        match decode_fields(wire, pos, flds, fn_, img, pbi) {
            Some((img2, pos2)) => {
                assert forall|d: int| #[trigger] variants_covered(mem, pbm, vs, tag, d) implies
                    img2[d - pbm + pbi] == mem[d] by {
                    assert(fields_covered(mem, pbm, flds, fn_, d));
                }
                assert forall|q: int|
                    0 <= q < img.len() && !variants_covered(mem, pbm, vs, tag, q - pbi + pbm)
                    implies img2[q] == img[q] by {
                    assert(!fields_covered(mem, pbm, flds, fn_, q - pbi + pbm));
                }
            },
            None => {
                assert(false);
            },
        }
    } else {
        assert forall|k: int| 0 <= k < vs.drop_first().len() implies (#[trigger] vs.drop_first()[
            k
        ]).data.valid_payload(region) by {
            assert(vs.drop_first()[k] == vs[k + 1]);
        }
        lemma_round_trip_variants(mem, pbm, vs.drop_first(), tag, region, wire, pos, img, pbi);
        let rest = vs.drop_first();
        assert(wire_of_variants(mem, pbm, vs, tag) == wire_of_variants(mem, pbm, rest, tag));
        assert(decode_variants(wire, pos, vs, tag, img, pbi) == decode_variants(
            wire,
            pos,
            rest,
            tag,
            img,
            pbi,
        ));
        match decode_variants(wire, pos, rest, tag, img, pbi) {
            Some((img2, pos2)) => {
                assert forall|d: int| #[trigger] variants_covered(mem, pbm, vs, tag, d) implies
                    img2[d - pbm + pbi] == mem[d] by {
                    assert(variants_covered(mem, pbm, rest, tag, d));
                }
                assert forall|q: int|
                    0 <= q < img.len() && !variants_covered(mem, pbm, vs, tag, q - pbi + pbm)
                    implies img2[q] == img[q] by {
                    assert(!variants_covered(mem, pbm, rest, tag, q - pbi + pbm));
                }
            },
            None => {
                assert(false);
            },
        }
    }
}


/// Padding never reaches the wire: two memory images that agree on every
/// declared field byte — and may differ arbitrarily on padding — serialize
/// to identical wire bytes, cover the same positions, and are serializable
/// under the same conditions.
pub proof fn lemma_wire_ignores_padding(mem1: Seq<u8>, mem2: Seq<u8>, base: int, e: Encoding)
    requires
        e.valid(),
        mem1.len() == mem2.len(),
        0 <= base,
        base + e.spec_size() <= mem1.len(),
        forall|p: int| #[trigger] covered(mem1, base, e, p) ==> mem2[p] == mem1[p],
    ensures
        wire_of(mem2, base, e) == wire_of(mem1, base, e),
        forall|p: int| #[trigger] covered(mem2, base, e, p) == covered(mem1, base, e, p),
        value_ok(mem2, base, e) == value_ok(mem1, base, e),
    decreases e, 0int, 0int,
{
    match e {
        Encoding::Primitive(p) => {
            assert forall|j: int| 0 <= j < p.size implies #[trigger] mem2.subrange(
                base,
                base + p.size,
            )[j] == mem1.subrange(base, base + p.size)[j] by {
                assert(covered(mem1, base, e, base + j));
                assert(mem2[base + j] == mem1[base + j]);
            }
            assert(mem2.subrange(base, base + p.size) =~= mem1.subrange(base, base + p.size));
        },
        Encoding::List(l) => {
            assert forall|p: int|
                #[trigger] items_covered(mem1, base, *l.item_encoding, l.len as int, p) implies
                mem2[p] == mem1[p] by {
                assert(covered(mem1, base, e, p));
            }
            lemma_items_wire_ignores_padding(mem1, mem2, base, *l.item_encoding, l.len as int);
            assert forall|p: int|
                #[trigger] covered(mem2, base, e, p) == covered(mem1, base, e, p) by {
                assert(items_covered(mem2, base, *l.item_encoding, l.len as int, p)
                    == items_covered(mem1, base, *l.item_encoding, l.len as int, p));
            }
        },
        Encoding::Struct(st) => {
            assert forall|p: int|
                #[trigger] fields_covered(mem1, base, st.data@, st.data@.len() as int, p) implies
                mem2[p] == mem1[p] by {
                assert(covered(mem1, base, e, p));
            }
            lemma_fields_wire_ignores_padding(
                mem1,
                mem2,
                base,
                st.data@,
                st.data@.len() as int,
                st.size as int,
            );
            assert forall|p: int|
                #[trigger] covered(mem2, base, e, p) == covered(mem1, base, e, p) by {
                assert(fields_covered(mem2, base, st.data@, st.data@.len() as int, p)
                    == fields_covered(mem1, base, st.data@, st.data@.len() as int, p));
            }
        },
        Encoding::Enum(en) => {
            let dsize = en.discriminant.size as int;
            let pbm = base + en.variants_offset;
            let region = (en.size - en.variants_offset) as int;
            assert forall|j: int| 0 <= j < dsize implies #[trigger] mem2.subrange(
                base,
                base + dsize,
            )[j] == mem1.subrange(base, base + dsize)[j] by {
                assert(covered(mem1, base, e, base + j));
                assert(mem2[base + j] == mem1[base + j]);
            }
            assert(mem2.subrange(base, base + dsize) =~= mem1.subrange(base, base + dsize));
            assert(prim_wire(mem2, base, en.discriminant) == prim_wire(mem1, base, en.discriminant));
            let t = enum_tag(mem1, base, en);
            assert(enum_tag(mem2, base, en) == t);
            assert forall|p: int|
                #[trigger] variants_covered(mem1, pbm, en.variants@, t, p) implies mem2[p]
                == mem1[p] by {
                assert(covered(mem1, base, e, p));
            }
            lemma_variants_wire_ignores_padding(mem1, mem2, pbm, en.variants@, t, region);
            assert forall|p: int|
                #[trigger] covered(mem2, base, e, p) == covered(mem1, base, e, p) by {
                assert(variants_covered(mem2, pbm, en.variants@, t, p) == variants_covered(
                    mem1,
                    pbm,
                    en.variants@,
                    t,
                    p,
                ));
            }
        },
    }
}

proof fn lemma_items_wire_ignores_padding(
    mem1: Seq<u8>,
    mem2: Seq<u8>,
    base: int,
    item: Encoding,
    n: int,
)
    requires
        item.valid(),
        mem1.len() == mem2.len(),
        0 <= base,
        base + n * item.spec_size() <= mem1.len(),
        forall|p: int| #[trigger] items_covered(mem1, base, item, n, p) ==> mem2[p] == mem1[p],
    ensures
        wire_of_items(mem2, base, item, n) == wire_of_items(mem1, base, item, n),
        forall|p: int|
            #[trigger] items_covered(mem2, base, item, n, p) == items_covered(
                mem1,
                base,
                item,
                n,
                p,
            ),
        items_ok(mem2, base, item, n) == items_ok(mem1, base, item, n),
    decreases item, 1int, n,
{
    if n > 0 {
        lemma_spec_size_nonneg(item);
        let s = item.spec_size();
        lemma_item_offset_bounds(n - 1, n, s);
        assert forall|p: int|
            #[trigger] items_covered(mem1, base, item, n - 1, p) implies mem2[p] == mem1[p] by {
            assert(items_covered(mem1, base, item, n, p));
        }
        lemma_items_wire_ignores_padding(mem1, mem2, base, item, n - 1);
        assert forall|p: int|
            #[trigger] covered(mem1, base + (n - 1) * s, item, p) implies mem2[p] == mem1[p] by {
            assert(items_covered(mem1, base, item, n, p));
        }
        lemma_wire_ignores_padding(mem1, mem2, base + (n - 1) * s, item);
        assert forall|p: int|
            #[trigger] items_covered(mem2, base, item, n, p) == items_covered(
                mem1,
                base,
                item,
                n,
                p,
            ) by {
            assert(items_covered(mem2, base, item, n - 1, p) == items_covered(
                mem1,
                base,
                item,
                n - 1,
                p,
            ));
            assert(covered(mem2, base + (n - 1) * s, item, p) == covered(
                mem1,
                base + (n - 1) * s,
                item,
                p,
            ));
        }
    }
}

proof fn lemma_fields_wire_ignores_padding(
    mem1: Seq<u8>,
    mem2: Seq<u8>,
    base: int,
    fields: Seq<PlainOldData>,
    n: int,
    ssize: int,
)
    requires
        forall|k: int|
            0 <= k < fields.len() ==> (#[trigger] fields[k].encoding).valid()
                && fields[k].offset + fields[k].encoding.spec_size() <= ssize,
        0 <= n <= fields.len(),
        mem1.len() == mem2.len(),
        0 <= base,
        base + ssize <= mem1.len(),
        forall|p: int| #[trigger] fields_covered(mem1, base, fields, n, p) ==> mem2[p] == mem1[p],
    ensures
        wire_of_fields(mem2, base, fields, n) == wire_of_fields(mem1, base, fields, n),
        forall|p: int|
            #[trigger] fields_covered(mem2, base, fields, n, p) == fields_covered(
                mem1,
                base,
                fields,
                n,
                p,
            ),
        fields_ok(mem2, base, fields, n) == fields_ok(mem1, base, fields, n),
    decreases fields, 1int, n,
{
    if n > 0 {
        let o = fields[n - 1].offset as int;
        let fe = fields[n - 1].encoding;
        assert forall|p: int|
            #[trigger] fields_covered(mem1, base, fields, n - 1, p) implies mem2[p] == mem1[p] by {
            assert(fields_covered(mem1, base, fields, n, p));
        }
        lemma_fields_wire_ignores_padding(mem1, mem2, base, fields, n - 1, ssize);
        assert forall|p: int| #[trigger] covered(mem1, base + o, fe, p) implies mem2[p]
            == mem1[p] by {
            assert(fields_covered(mem1, base, fields, n, p));
        }
        lemma_wire_ignores_padding(mem1, mem2, base + o, fe);
        assert forall|p: int|
            #[trigger] fields_covered(mem2, base, fields, n, p) == fields_covered(
                mem1,
                base,
                fields,
                n,
                p,
            ) by {
            assert(fields_covered(mem2, base, fields, n - 1, p) == fields_covered(
                mem1,
                base,
                fields,
                n - 1,
                p,
            ));
            assert(covered(mem2, base + o, fe, p) == covered(mem1, base + o, fe, p));
        }
    }
}

proof fn lemma_variants_wire_ignores_padding(
    mem1: Seq<u8>,
    mem2: Seq<u8>,
    pbm: int,
    vs: Seq<EnumVariant>,
    tag: nat,
    region: int,
)
    requires
        forall|k: int| 0 <= k < vs.len() ==> (#[trigger] vs[k]).data.valid_payload(region),
        mem1.len() == mem2.len(),
        0 <= pbm,
        pbm + region <= mem1.len(),
        forall|p: int| #[trigger] variants_covered(mem1, pbm, vs, tag, p) ==> mem2[p] == mem1[p],
    ensures
        wire_of_variants(mem2, pbm, vs, tag) == wire_of_variants(mem1, pbm, vs, tag),
        forall|p: int|
            #[trigger] variants_covered(mem2, pbm, vs, tag, p) == variants_covered(
                mem1,
                pbm,
                vs,
                tag,
                p,
            ),
        variants_ok(mem2, pbm, vs, tag) == variants_ok(mem1, pbm, vs, tag),
    decreases vs, 1int, 0int,
{
    if vs.len() == 0 {
    } else if vs[0].tag == tag {
        assert(vs[0].data.valid_payload(region));
        let flds = vs[0].data.data@;
        let fn_ = flds.len() as int;
        assert forall|p: int| #[trigger] fields_covered(mem1, pbm, flds, fn_, p) implies mem2[p]
            == mem1[p] by {
            assert(variants_covered(mem1, pbm, vs, tag, p));
        }
        lemma_fields_wire_ignores_padding(mem1, mem2, pbm, flds, fn_, vs[0].data.size as int);
        assert forall|p: int|
            #[trigger] variants_covered(mem2, pbm, vs, tag, p) == variants_covered(
                mem1,
                pbm,
                vs,
                tag,
                p,
            ) by {
            assert(fields_covered(mem2, pbm, flds, fn_, p) == fields_covered(
                mem1,
                pbm,
                flds,
                fn_,
                p,
            ));
        }
    } else {
        let rest = vs.drop_first();
        assert forall|k: int| 0 <= k < rest.len() implies (#[trigger] rest[k]).data.valid_payload(
            region,
        ) by {
            assert(rest[k] == vs[k + 1]);
        }
        assert forall|p: int| #[trigger] variants_covered(mem1, pbm, rest, tag, p) implies mem2[p]
            == mem1[p] by {
            assert(variants_covered(mem1, pbm, vs, tag, p));
        }
        lemma_variants_wire_ignores_padding(mem1, mem2, pbm, rest, tag, region);
        assert forall|p: int|
            #[trigger] variants_covered(mem2, pbm, vs, tag, p) == variants_covered(
                mem1,
                pbm,
                vs,
                tag,
                p,
            ) by {
            assert(variants_covered(mem2, pbm, rest, tag, p) == variants_covered(
                mem1,
                pbm,
                rest,
                tag,
                p,
            ));
        }
    }
}

} // verus!
