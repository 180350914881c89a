use vstd::prelude::*;
use crate::value::{DataValue, ValueView, values_view};

verus! {

/// The eight little-endian bytes of `x`.
pub open spec fn le_bytes(x: u64) -> Seq<u8> {
    seq![
        (x & 0xff) as u8,
        ((x >> 8) & 0xff) as u8,
        ((x >> 16) & 0xff) as u8,
        ((x >> 24) & 0xff) as u8,
        ((x >> 32) & 0xff) as u8,
        ((x >> 40) & 0xff) as u8,
        ((x >> 48) & 0xff) as u8,
        ((x >> 56) & 0xff) as u8,
    ]
}

/// The tag byte that opens the encoding of each kind of value.
pub const TAG_NULL: u8 = 0;
pub const TAG_BOOLEAN: u8 = 1;
pub const TAG_INT64: u8 = 2;
pub const TAG_UINT64: u8 = 3;
pub const TAG_UTF8: u8 = 4;

/// A value that the encoding can hold: a string's length fits in eight bytes.
pub open spec fn encodable(v: ValueView) -> bool {
    match v {
        ValueView::Utf8(s) => s.len() <= u64::MAX,
        _ => true,
    }
}

pub open spec fn all_encodable(vs: Seq<ValueView>) -> bool {
    forall|i: int| 0 <= i < vs.len() ==> encodable(#[trigger] vs[i])
}

/// The encoding of one value: a tag byte, then the native bytes of a fixed-width
/// value, or a length prefix and the raw bytes of a string.
pub open spec fn encode_value(v: ValueView) -> Seq<u8> {
    match v {
        ValueView::Null => seq![TAG_NULL],
        ValueView::Boolean(b) => seq![TAG_BOOLEAN, if b { 1u8 } else { 0u8 }],
        ValueView::Int64(x) => seq![TAG_INT64] + le_bytes(x as u64),
        ValueView::UInt64(x) => seq![TAG_UINT64] + le_bytes(x),
        ValueView::Utf8(s) => seq![TAG_UTF8] + le_bytes(s.len() as u64) + s,
    }
}

/// The group key of a tuple of values: the concatenation of their encodings.
pub open spec fn encode_key(vs: Seq<ValueView>) -> Seq<u8>
    decreases vs.len(),
{
    if vs.len() == 0 {
        Seq::empty()
    } else {
        encode_value(vs[0]) + encode_key(vs.subrange(1, vs.len() as int))
    }
}

proof fn lemma_le_bytes_injective(x: u64, y: u64)
    requires
        le_bytes(x) == le_bytes(y),
    ensures
        x == y,
{
    assert(le_bytes(x)[0] == le_bytes(y)[0]);
    assert(le_bytes(x)[1] == le_bytes(y)[1]);
    assert(le_bytes(x)[2] == le_bytes(y)[2]);
    assert(le_bytes(x)[3] == le_bytes(y)[3]);
    assert(le_bytes(x)[4] == le_bytes(y)[4]);
    assert(le_bytes(x)[5] == le_bytes(y)[5]);
    assert(le_bytes(x)[6] == le_bytes(y)[6]);
    assert(le_bytes(x)[7] == le_bytes(y)[7]);
    assert(x == y) by (bit_vector)
        requires
            (x & 0xff) as u8 == (y & 0xff) as u8,
            ((x >> 8) & 0xff) as u8 == ((y >> 8) & 0xff) as u8,
            ((x >> 16) & 0xff) as u8 == ((y >> 16) & 0xff) as u8,
            ((x >> 24) & 0xff) as u8 == ((y >> 24) & 0xff) as u8,
            ((x >> 32) & 0xff) as u8 == ((y >> 32) & 0xff) as u8,
            ((x >> 40) & 0xff) as u8 == ((y >> 40) & 0xff) as u8,
            ((x >> 48) & 0xff) as u8 == ((y >> 48) & 0xff) as u8,
            ((x >> 56) & 0xff) as u8 == ((y >> 56) & 0xff) as u8,
    ;
}

proof fn lemma_i64_bits_injective(x: i64, y: i64)
    requires
        x as u64 == y as u64,
    ensures
        x == y,
{
    assert(x == y) by (bit_vector)
        requires
            x as u64 == y as u64,
    ;
}

/// No value's encoding is a proper prefix of another's: from a shared stream
/// both the value and the rest are recovered.
proof fn lemma_value_prefix_free(v: ValueView, w: ValueView, r1: Seq<u8>, r2: Seq<u8>)
    requires
        encodable(v),
        encodable(w),
        encode_value(v) + r1 == encode_value(w) + r2,
    ensures
        v == w,
        r1 == r2,
{
    let e = encode_value(v) + r1;
    let ev = encode_value(v);
    let ew = encode_value(w);
    assert(e[0] == ev[0]);
    assert(e[0] == ew[0]);
    match v {
        ValueView::Null => {},
        ValueView::Boolean(b) => {
            assert(e[1] == ev[1]);
            assert(e[1] == ew[1]);
        },
        ValueView::Int64(x) => {
            if let ValueView::Int64(y) = w {
                assert(le_bytes(x as u64) =~= e.subrange(1, 9));
                assert(le_bytes(y as u64) =~= e.subrange(1, 9));
                lemma_le_bytes_injective(x as u64, y as u64);
                lemma_i64_bits_injective(x, y);
            }
        },
        ValueView::UInt64(x) => {
            if let ValueView::UInt64(y) = w {
                assert(le_bytes(x) =~= e.subrange(1, 9));
                assert(le_bytes(y) =~= e.subrange(1, 9));
                lemma_le_bytes_injective(x, y);
            }
        },
        ValueView::Utf8(s) => {
            if let ValueView::Utf8(t) = w {
                assert(le_bytes(s.len() as u64) =~= e.subrange(1, 9));
                assert(le_bytes(t.len() as u64) =~= e.subrange(1, 9));
                lemma_le_bytes_injective(s.len() as u64, t.len() as u64);
                assert(s =~= e.subrange(9, 9 + s.len() as int));
                assert(t =~= e.subrange(9, 9 + t.len() as int));
            }
        },
    }
    assert(ev == ew);
    assert(r1 =~= e.subrange(ev.len() as int, e.len() as int));
    assert(r2 =~= e.subrange(ev.len() as int, e.len() as int));
}

/// Equal group keys come only from equal tuples of values, including their
/// null pattern and string lengths; equal tuples give equal keys.
pub proof fn lemma_encode_key_injective(a: Seq<ValueView>, b: Seq<ValueView>)
    requires
        all_encodable(a),
        all_encodable(b),
    ensures
        (encode_key(a) == encode_key(b)) == (a == b),
    decreases a.len(),
{
    if encode_key(a) == encode_key(b) {
        if a.len() == 0 {
            if b.len() != 0 {
                assert(encode_key(b).len() >= encode_value(b[0]).len());
            }
            assert(a =~= b);
        } else {
            if b.len() == 0 {
                assert(encode_key(a).len() >= encode_value(a[0]).len());
            } else {
                let ra = a.subrange(1, a.len() as int);
                let rb = b.subrange(1, b.len() as int);
                assert(encodable(a[0]));
                assert(encodable(b[0]));
                lemma_value_prefix_free(a[0], b[0], encode_key(ra), encode_key(rb));
                assert(all_encodable(ra)) by {
                    assert forall|i: int| 0 <= i < ra.len() implies encodable(#[trigger] ra[i]) by {
                        assert(ra[i] == a[i + 1]);
                    }
                }
                assert(all_encodable(rb)) by {
                    assert forall|i: int| 0 <= i < rb.len() implies encodable(#[trigger] rb[i]) by {
                        assert(rb[i] == b[i + 1]);
                    }
                }
                lemma_encode_key_injective(ra, rb);
                assert(a =~= seq![a[0]] + ra);
                assert(b =~= seq![b[0]] + rb);
            }
        }
    }
}

proof fn lemma_encode_key_push(vs: Seq<ValueView>, v: ValueView)
    ensures
        encode_key(vs.push(v)) == encode_key(vs) + encode_value(v),
    decreases vs.len(),
{
    if vs.len() == 0 {
        assert(vs.push(v).subrange(1, 1) =~= Seq::<ValueView>::empty());
        assert(encode_key(Seq::<ValueView>::empty()) =~= Seq::<u8>::empty());
        assert(encode_key(vs.push(v)) == encode_value(v) + encode_key(vs.push(v).subrange(1, 1)));
        assert(encode_key(vs.push(v)) =~= encode_value(v));
    } else {
        let rest = vs.subrange(1, vs.len() as int);
        lemma_encode_key_push(rest, v);
        assert(vs.push(v).subrange(1, vs.len() as int + 1) =~= rest.push(v));
        assert(encode_key(vs.push(v)) =~= encode_key(vs) + encode_value(v));
    }
}

fn push_le_bytes(buf: &mut Vec<u8>, x: u64)
    ensures
        final(buf)@ == old(buf)@ + le_bytes(x),
{
    buf.push((x & 0xff) as u8);
    buf.push(((x >> 8) & 0xff) as u8);
    buf.push(((x >> 16) & 0xff) as u8);
    buf.push(((x >> 24) & 0xff) as u8);
    buf.push(((x >> 32) & 0xff) as u8);
    buf.push(((x >> 40) & 0xff) as u8);
    buf.push(((x >> 48) & 0xff) as u8);
    buf.push(((x >> 56) & 0xff) as u8);
    assert(buf@ =~= old(buf)@ + le_bytes(x));
}

/// Appends the encoding of one value to `buf`.
pub fn encode_value_into(buf: &mut Vec<u8>, v: &DataValue)
    ensures
        final(buf)@ == old(buf)@ + encode_value(v@),
        encodable(v@),
{
    match v {
        DataValue::Null => {
            buf.push(TAG_NULL);
        },
        DataValue::Boolean(b) => {
            buf.push(TAG_BOOLEAN);
            buf.push(if *b { 1u8 } else { 0u8 });
        },
        DataValue::Int64(x) => {
            buf.push(TAG_INT64);
            push_le_bytes(buf, *x as u64);
        },
        DataValue::UInt64(x) => {
            buf.push(TAG_UINT64);
            push_le_bytes(buf, *x);
        },
        DataValue::Utf8(s) => {
            buf.push(TAG_UTF8);
            push_le_bytes(buf, s.len() as u64);
            let mut i: usize = 0;
            let ghost start = buf@;
            while i < s.len()
                invariant
                    i <= s.len(),
                    buf@ == start + s@.subrange(0, i as int),
                decreases s.len() - i,
            {
                buf.push(s[i]);
                i += 1;
                assert(buf@ =~= start + s@.subrange(0, i as int));
            }
            assert(s@.subrange(0, s.len() as int) =~= s@);
        },
    }
    assert(buf@ =~= old(buf)@ + encode_value(v@));
}

/// The group key of a tuple of values.
pub fn encode_group_key(values: &Vec<DataValue>) -> (r: Vec<u8>)
    ensures
        r@ == encode_key(values_view(values@)),
        all_encodable(values_view(values@)),
{
    let mut buf: Vec<u8> = Vec::new();
    let mut i: usize = 0;
    while i < values.len()
        invariant
            i <= values.len(),
            buf@ == encode_key(values_view(values@).subrange(0, i as int)),
            forall|j: int| 0 <= j < i ==> encodable(#[trigger] values_view(values@)[j]),
        decreases values.len() - i,
    {
        let ghost prefix = values_view(values@).subrange(0, i as int);
        encode_value_into(&mut buf, &values[i]);
        proof {
            lemma_encode_key_push(prefix, values[i as int]@);
            assert(values_view(values@).subrange(0, i + 1) =~= prefix.push(values[i as int]@));
        }
        i += 1;
    }
    assert(values_view(values@).subrange(0, values.len() as int) =~= values_view(values@));
    buf
}

} // verus!
