//! Byte-level building blocks of the wire format.
//!
//! Every value is written as a self-delimiting run of bytes: integers as fixed
//! little-endian words, sequences as a `u64` element count followed by each
//! element in turn, text as its UTF-8 bytes in the form of a byte sequence.
//! A reader parses exactly what the matching writer produced, and nothing else.
use vstd::prelude::*;
use vstd::slice::*;
use vstd::utf8::*;

verus! {

/// `e` occurs in `s` starting at index `pos`.
pub open spec fn bytes_at(s: Seq<u8>, pos: int, e: Seq<u8>) -> bool {
    &&& 0 <= pos
    &&& pos + e.len() <= s.len()
    &&& s.subrange(pos, pos + e.len()) == e
}

/// Bytes of `v` in little-endian order.
pub open spec fn le_u64(v: u64) -> Seq<u8> {
    seq![
        (v & 0xff) as u8,
        ((v >> 8u64) & 0xff) as u8,
        ((v >> 16u64) & 0xff) as u8,
        ((v >> 24u64) & 0xff) as u8,
        ((v >> 32u64) & 0xff) as u8,
        ((v >> 40u64) & 0xff) as u8,
        ((v >> 48u64) & 0xff) as u8,
        ((v >> 56u64) & 0xff) as u8,
    ]
}

/// Bytes of `v` in little-endian order.
pub open spec fn le_u32(v: u32) -> Seq<u8> {
    seq![
        (v & 0xff) as u8,
        ((v >> 8u32) & 0xff) as u8,
        ((v >> 16u32) & 0xff) as u8,
        ((v >> 24u32) & 0xff) as u8,
    ]
}

pub proof fn lemma_bytes_at_concat(s: Seq<u8>, pos: int, a: Seq<u8>, b: Seq<u8>)
    ensures
        bytes_at(s, pos, a + b) <==> (bytes_at(s, pos, a) && bytes_at(s, pos + a.len(), b)),
{
    if bytes_at(s, pos, a + b) {
        assert(s.subrange(pos, pos + a.len()) =~= a) by {
            assert forall|i: int| 0 <= i < a.len() implies s.subrange(pos, pos + a.len())[i]
                == a[i] by {
                assert(s.subrange(pos, pos + (a + b).len())[i] == (a + b)[i]);
            }
        }
        assert(s.subrange(pos + a.len(), pos + a.len() + b.len()) =~= b) by {
            assert forall|i: int| 0 <= i < b.len() implies s.subrange(
                pos + a.len(),
                pos + a.len() + b.len(),
            )[i] == b[i] by {
                assert(s.subrange(pos, pos + (a + b).len())[a.len() + i] == (a + b)[a.len() + i]);
            }
        }
    }
    if bytes_at(s, pos, a) && bytes_at(s, pos + a.len(), b) {
        assert(s.subrange(pos, pos + (a + b).len()) =~= a + b);
    }
}

pub proof fn lemma_bytes_at_prefix(s: Seq<u8>, pos: int, e: Seq<u8>, f: Seq<u8>)
    requires
        bytes_at(s, pos, e),
        f.len() <= e.len(),
        e.subrange(0, f.len() as int) == f,
    ensures
        bytes_at(s, pos, f),
{
    assert(s.subrange(pos, pos + f.len()) =~= e.subrange(0, f.len() as int));
}

/// A value with a byte encoding over its model (`deep_view`).
pub trait Wire: Sized + DeepView {
    /// The bytes that encode the model `v`.
    spec fn spec_enc(v: Self::V) -> Seq<u8>;

    /// No encoding is empty.
    proof fn lemma_enc_nonempty(v: Self::V)
        ensures
            Self::spec_enc(v).len() > 0,
    ;

    /// An encoding is never a proper prefix of another, so a byte string
    /// starting at a given index encodes at most one value there.
    proof fn lemma_enc_unique(s: Seq<u8>, pos: int, v1: Self::V, v2: Self::V)
        requires
            s.len() <= u64::MAX,
            bytes_at(s, pos, Self::spec_enc(v1)),
            bytes_at(s, pos, Self::spec_enc(v2)),
        ensures
            v1 == v2,
    ;

    /// Appends the encoding of `self`.
    fn write(&self, out: &mut Vec<u8>)
        ensures
            final(out)@ == old(out)@ + Self::spec_enc(self.deep_view()),
    ;

    /// Reads the value whose encoding starts at `pos`, with the index just past it.
    fn read(b: &[u8], pos: usize) -> (r: Option<(Self, usize)>)
        requires
            pos <= b@.len(),
        ensures
            r matches Some((v, p)) ==> {
                &&& bytes_at(b@, pos as int, Self::spec_enc(v.deep_view()))
                &&& p == pos + Self::spec_enc(v.deep_view()).len()
            },
            forall|v: Self::V| #[trigger]
                bytes_at(b@, pos as int, Self::spec_enc(v)) ==> (r matches Some((w, p)) && w.deep_view()
                    == v),
    ;
}

impl Wire for u8 {
    open spec fn spec_enc(v: u8) -> Seq<u8> {
        seq![v]
    }

    proof fn lemma_enc_nonempty(v: u8) {
    }

    proof fn lemma_enc_unique(s: Seq<u8>, pos: int, v1: u8, v2: u8) {
        assert(s.subrange(pos, pos + 1)[0] == s[pos]);
        assert(seq![v1][0] == v1);
        assert(seq![v2][0] == v2);
    }

    fn write(&self, out: &mut Vec<u8>) {
        out.push(*self);
        proof {
            assert(out@ =~= old(out)@ + seq![*self]);
        }
    }

    fn read(b: &[u8], pos: usize) -> (r: Option<(u8, usize)>) {
        if pos >= b.len() {
            return None;
        }
        let v = b[pos];
        proof {
            assert(b@.subrange(pos as int, pos + 1) =~= seq![v]);
            assert forall|x: u8| #[trigger] bytes_at(b@, pos as int, Self::spec_enc(x)) implies x
                == v by {
                assert(b@.subrange(pos as int, pos + 1)[0] == b@[pos as int]);
                assert(seq![x][0] == x);
            }
        }
        Some((v, pos + 1))
    }
}

impl Wire for bool {
    open spec fn spec_enc(v: bool) -> Seq<u8> {
        seq![if v { 1u8 } else { 0u8 }]
    }

    proof fn lemma_enc_nonempty(v: bool) {
    }

    proof fn lemma_enc_unique(s: Seq<u8>, pos: int, v1: bool, v2: bool) {
        assert(s.subrange(pos, pos + 1)[0] == s[pos]);
        assert(Self::spec_enc(v1)[0] == if v1 { 1u8 } else { 0u8 });
        assert(Self::spec_enc(v2)[0] == if v2 { 1u8 } else { 0u8 });
    }

    fn write(&self, out: &mut Vec<u8>) {
        let byte: u8 = if *self { 1 } else { 0 };
        out.push(byte);
        proof {
            assert(out@ =~= old(out)@ + Self::spec_enc(*self));
        }
    }

    fn read(b: &[u8], pos: usize) -> (r: Option<(bool, usize)>) {
        if pos >= b.len() {
            return None;
        }
        let byte = b[pos];
        proof {
            assert(b@.subrange(pos as int, pos + 1)[0] == b@[pos as int]);
            assert forall|x: bool| #[trigger] bytes_at(b@, pos as int, Self::spec_enc(x)) implies byte
                == (if x { 1u8 } else { 0u8 }) by {
                assert(Self::spec_enc(x)[0] == if x { 1u8 } else { 0u8 });
            }
        }
        if byte == 1 {
            proof {
                assert(b@.subrange(pos as int, pos + 1) =~= Self::spec_enc(true));
            }
            Some((true, pos + 1))
        } else if byte == 0 {
            proof {
                assert(b@.subrange(pos as int, pos + 1) =~= Self::spec_enc(false));
            }
            Some((false, pos + 1))
        } else {
            None
        }
    }
}

proof fn lemma_le_u32_bytes(x: u32, b0: u8, b1: u8, b2: u8, b3: u8)
    ensures
        ({
            let v = (b0 as u32) | ((b1 as u32) << 8u32) | ((b2 as u32) << 16u32) | ((b3 as u32)
                << 24u32);
            &&& (v & 0xff) as u8 == b0
            &&& ((v >> 8u32) & 0xff) as u8 == b1
            &&& ((v >> 16u32) & 0xff) as u8 == b2
            &&& ((v >> 24u32) & 0xff) as u8 == b3
        }),
        ({
            let c0 = (x & 0xff) as u8;
            let c1 = ((x >> 8u32) & 0xff) as u8;
            let c2 = ((x >> 16u32) & 0xff) as u8;
            let c3 = ((x >> 24u32) & 0xff) as u8;
            x == (c0 as u32) | ((c1 as u32) << 8u32) | ((c2 as u32) << 16u32) | ((c3 as u32)
                << 24u32)
        }),
{
    assert({
        let v = (b0 as u32) | ((b1 as u32) << 8u32) | ((b2 as u32) << 16u32) | ((b3 as u32)
            << 24u32);
        &&& (v & 0xff) as u8 == b0
        &&& ((v >> 8u32) & 0xff) as u8 == b1
        &&& ((v >> 16u32) & 0xff) as u8 == b2
        &&& ((v >> 24u32) & 0xff) as u8 == b3
    }) by (bit_vector);
    assert({
        let c0 = (x & 0xff) as u8;
        let c1 = ((x >> 8u32) & 0xff) as u8;
        let c2 = ((x >> 16u32) & 0xff) as u8;
        let c3 = ((x >> 24u32) & 0xff) as u8;
        x == (c0 as u32) | ((c1 as u32) << 8u32) | ((c2 as u32) << 16u32) | ((c3 as u32) << 24u32)
    }) by (bit_vector);
}

impl Wire for u32 {
    open spec fn spec_enc(v: u32) -> Seq<u8> {
        le_u32(v)
    }

    proof fn lemma_enc_nonempty(v: u32) {
    }

    proof fn lemma_enc_unique(s: Seq<u8>, pos: int, v1: u32, v2: u32) {
        let e1 = le_u32(v1);
        let e2 = le_u32(v2);
        assert(e1.len() == 4 && e2.len() == 4);
        assert(e1 == s.subrange(pos, pos + 4));
        assert(e2 == s.subrange(pos, pos + 4));
        lemma_le_u32_bytes(v1, 0, 0, 0, 0);
        lemma_le_u32_bytes(v2, 0, 0, 0, 0);
    }

    fn write(&self, out: &mut Vec<u8>) {
        let v = *self;
        out.push((v & 0xff) as u8);
        out.push(((v >> 8u32) & 0xff) as u8);
        out.push(((v >> 16u32) & 0xff) as u8);
        out.push(((v >> 24u32) & 0xff) as u8);
        proof {
            assert(out@ =~= old(out)@ + le_u32(v));
        }
    }

    fn read(b: &[u8], pos: usize) -> (r: Option<(u32, usize)>) {
        if b.len() - pos < 4 {
            return None;
        }
        let b0 = b[pos];
        let b1 = b[pos + 1];
        let b2 = b[pos + 2];
        let b3 = b[pos + 3];
        let v = (b0 as u32) | ((b1 as u32) << 8u32) | ((b2 as u32) << 16u32) | ((b3 as u32)
            << 24u32);
        proof {
            lemma_le_u32_bytes(v, b0, b1, b2, b3);
            assert(b@.subrange(pos as int, pos + 4) =~= le_u32(v));
            assert forall|x: u32| #[trigger] bytes_at(b@, pos as int, Self::spec_enc(x)) implies x
                == v by {
                lemma_le_u32_bytes(x, b0, b1, b2, b3);
                assert(b@.subrange(pos as int, pos + 4)[0] == b0);
                assert(b@.subrange(pos as int, pos + 4)[1] == b1);
                assert(b@.subrange(pos as int, pos + 4)[2] == b2);
                assert(b@.subrange(pos as int, pos + 4)[3] == b3);
            }
        }
        Some((v, pos + 4))
    }
}

proof fn lemma_le_u64_bytes(x: u64, b0: u8, b1: u8, b2: u8, b3: u8, b4: u8, b5: u8, b6: u8, b7: u8)
    ensures
        ({
            let v = (b0 as u64) | ((b1 as u64) << 8u64) | ((b2 as u64) << 16u64) | ((b3 as u64)
                << 24u64) | ((b4 as u64) << 32u64) | ((b5 as u64) << 40u64) | ((b6 as u64)
                << 48u64) | ((b7 as u64) << 56u64);
            &&& (v & 0xff) as u8 == b0
            &&& ((v >> 8u64) & 0xff) as u8 == b1
            &&& ((v >> 16u64) & 0xff) as u8 == b2
            &&& ((v >> 24u64) & 0xff) as u8 == b3
            &&& ((v >> 32u64) & 0xff) as u8 == b4
            &&& ((v >> 40u64) & 0xff) as u8 == b5
            &&& ((v >> 48u64) & 0xff) as u8 == b6
            &&& ((v >> 56u64) & 0xff) as u8 == b7
        }),
        ({
            let c0 = (x & 0xff) as u8;
            let c1 = ((x >> 8u64) & 0xff) as u8;
            let c2 = ((x >> 16u64) & 0xff) as u8;
            let c3 = ((x >> 24u64) & 0xff) as u8;
            let c4 = ((x >> 32u64) & 0xff) as u8;
            let c5 = ((x >> 40u64) & 0xff) as u8;
            let c6 = ((x >> 48u64) & 0xff) as u8;
            let c7 = ((x >> 56u64) & 0xff) as u8;
            x == (c0 as u64) | ((c1 as u64) << 8u64) | ((c2 as u64) << 16u64) | ((c3 as u64)
                << 24u64) | ((c4 as u64) << 32u64) | ((c5 as u64) << 40u64) | ((c6 as u64)
                << 48u64) | ((c7 as u64) << 56u64)
        }),
{
    assert({
        let v = (b0 as u64) | ((b1 as u64) << 8u64) | ((b2 as u64) << 16u64) | ((b3 as u64)
            << 24u64) | ((b4 as u64) << 32u64) | ((b5 as u64) << 40u64) | ((b6 as u64) << 48u64)
            | ((b7 as u64) << 56u64);
        &&& (v & 0xff) as u8 == b0
        &&& ((v >> 8u64) & 0xff) as u8 == b1
        &&& ((v >> 16u64) & 0xff) as u8 == b2
        &&& ((v >> 24u64) & 0xff) as u8 == b3
        &&& ((v >> 32u64) & 0xff) as u8 == b4
        &&& ((v >> 40u64) & 0xff) as u8 == b5
        &&& ((v >> 48u64) & 0xff) as u8 == b6
        &&& ((v >> 56u64) & 0xff) as u8 == b7
    }) by (bit_vector);
    assert({
        let c0 = (x & 0xff) as u8;
        let c1 = ((x >> 8u64) & 0xff) as u8;
        let c2 = ((x >> 16u64) & 0xff) as u8;
        let c3 = ((x >> 24u64) & 0xff) as u8;
        let c4 = ((x >> 32u64) & 0xff) as u8;
        let c5 = ((x >> 40u64) & 0xff) as u8;
        let c6 = ((x >> 48u64) & 0xff) as u8;
        let c7 = ((x >> 56u64) & 0xff) as u8;
        x == (c0 as u64) | ((c1 as u64) << 8u64) | ((c2 as u64) << 16u64) | ((c3 as u64)
            << 24u64) | ((c4 as u64) << 32u64) | ((c5 as u64) << 40u64) | ((c6 as u64) << 48u64)
            | ((c7 as u64) << 56u64)
    }) by (bit_vector);
}

impl Wire for u64 {
    open spec fn spec_enc(v: u64) -> Seq<u8> {
        le_u64(v)
    }

    proof fn lemma_enc_nonempty(v: u64) {
    }

    proof fn lemma_enc_unique(s: Seq<u8>, pos: int, v1: u64, v2: u64) {
        let e1 = le_u64(v1);
        let e2 = le_u64(v2);
        assert(bytes_at(s, pos, Self::spec_enc(v1)));
        assert(Self::spec_enc(v1) == e1);
        assert(bytes_at(s, pos, e1));
        assert(bytes_at(s, pos, e2));
        assert(e1.len() == 8 && e2.len() == 8);
        assert(e1 == s.subrange(pos, pos + 8));
        assert(e2 == s.subrange(pos, pos + 8));
        lemma_le_u64_bytes(v1, 0, 0, 0, 0, 0, 0, 0, 0);
        lemma_le_u64_bytes(v2, 0, 0, 0, 0, 0, 0, 0, 0);
    }

    fn write(&self, out: &mut Vec<u8>) {
        let v = *self;
        out.push((v & 0xff) as u8);
        out.push(((v >> 8u64) & 0xff) as u8);
        out.push(((v >> 16u64) & 0xff) as u8);
        out.push(((v >> 24u64) & 0xff) as u8);
        out.push(((v >> 32u64) & 0xff) as u8);
        out.push(((v >> 40u64) & 0xff) as u8);
        out.push(((v >> 48u64) & 0xff) as u8);
        out.push(((v >> 56u64) & 0xff) as u8);
        proof {
            assert(out@ =~= old(out)@ + le_u64(v));
        }
    }

    fn read(b: &[u8], pos: usize) -> (r: Option<(u64, usize)>) {
        if b.len() - pos < 8 {
            return None;
        }
        let b0 = b[pos];
        let b1 = b[pos + 1];
        let b2 = b[pos + 2];
        let b3 = b[pos + 3];
        let b4 = b[pos + 4];
        let b5 = b[pos + 5];
        let b6 = b[pos + 6];
        let b7 = b[pos + 7];
        let v = (b0 as u64) | ((b1 as u64) << 8u64) | ((b2 as u64) << 16u64) | ((b3 as u64)
            << 24u64) | ((b4 as u64) << 32u64) | ((b5 as u64) << 40u64) | ((b6 as u64) << 48u64)
            | ((b7 as u64) << 56u64);
        proof {
            lemma_le_u64_bytes(v, b0, b1, b2, b3, b4, b5, b6, b7);
            assert(b@.subrange(pos as int, pos + 8) =~= le_u64(v));
            assert forall|x: u64| #[trigger] bytes_at(b@, pos as int, Self::spec_enc(x)) implies x
                == v by {
                lemma_le_u64_bytes(x, b0, b1, b2, b3, b4, b5, b6, b7);
                let sub = b@.subrange(pos as int, pos + 8);
                assert(sub[0] == b0 && sub[1] == b1 && sub[2] == b2 && sub[3] == b3);
                assert(sub[4] == b4 && sub[5] == b5 && sub[6] == b6 && sub[7] == b7);
            }
        }
        Some((v, pos + 8))
    }
}


/// Encodings of the elements of `vs`, one after the other.
pub open spec fn enc_items<T: Wire>(vs: Seq<T::V>) -> Seq<u8>
    decreases vs.len(),
{
    if vs.len() == 0 {
        Seq::empty()
    } else {
        enc_items::<T>(vs.drop_last()) + T::spec_enc(vs.last())
    }
}

proof fn lemma_items_step<T: Wire>(vs: Seq<T::V>, i: int)
    requires
        0 <= i < vs.len(),
    ensures
        enc_items::<T>(vs.take(i + 1)) == enc_items::<T>(vs.take(i)) + T::spec_enc(vs[i]),
{
    assert(vs.take(i + 1).drop_last() =~= vs.take(i));
}

proof fn lemma_items_len<T: Wire>(vs: Seq<T::V>)
    ensures
        enc_items::<T>(vs).len() >= vs.len(),
    decreases vs.len(),
{
    if vs.len() > 0 {
        lemma_items_len::<T>(vs.drop_last());
        T::lemma_enc_nonempty(vs.last());
    }
}

proof fn lemma_items_prefix<T: Wire>(vs: Seq<T::V>, i: int)
    requires
        0 <= i <= vs.len(),
    ensures
        enc_items::<T>(vs.take(i)).len() <= enc_items::<T>(vs).len(),
        enc_items::<T>(vs).subrange(0, enc_items::<T>(vs.take(i)).len() as int) == enc_items::<T>(
            vs.take(i),
        ),
    decreases vs.len(),
{
    if i == vs.len() {
        assert(vs.take(i) =~= vs);
        assert(enc_items::<T>(vs).subrange(0, enc_items::<T>(vs).len() as int) =~= enc_items::<T>(
            vs,
        ));
    } else {
        let d = vs.drop_last();
        lemma_items_prefix::<T>(d, i);
        assert(d.take(i) =~= vs.take(i));
        let a = enc_items::<T>(d);
        let k = enc_items::<T>(vs.take(i)).len() as int;
        assert((a + T::spec_enc(vs.last())).subrange(0, k) =~= a.subrange(0, k));
    }
}

proof fn lemma_items_unique<T: Wire>(s: Seq<u8>, start: int, v1: Seq<T::V>, v2: Seq<T::V>, i: int)
    requires
        s.len() <= u64::MAX,
        bytes_at(s, start, enc_items::<T>(v1)),
        bytes_at(s, start, enc_items::<T>(v2)),
        v1.len() == v2.len(),
        0 <= i <= v1.len(),
    ensures
        v1.take(i) == v2.take(i),
    decreases i,
{
    if i == 0 {
        assert(v1.take(0) =~= v2.take(0));
    } else {
        lemma_items_unique::<T>(s, start, v1, v2, i - 1);
        lemma_items_prefix::<T>(v1, i);
        lemma_items_prefix::<T>(v2, i);
        lemma_bytes_at_prefix(s, start, enc_items::<T>(v1), enc_items::<T>(v1.take(i)));
        lemma_bytes_at_prefix(s, start, enc_items::<T>(v2), enc_items::<T>(v2.take(i)));
        lemma_items_step::<T>(v1, i - 1);
        lemma_items_step::<T>(v2, i - 1);
        lemma_bytes_at_concat(s, start, enc_items::<T>(v1.take(i - 1)), T::spec_enc(v1[i - 1]));
        lemma_bytes_at_concat(s, start, enc_items::<T>(v2.take(i - 1)), T::spec_enc(v2[i - 1]));
        T::lemma_enc_unique(
            s,
            start + enc_items::<T>(v1.take(i - 1)).len(),
            v1[i - 1],
            v2[i - 1],
        );
        assert(v1.take(i) =~= v1.take(i - 1).push(v1[i - 1]));
        assert(v2.take(i) =~= v2.take(i - 1).push(v2[i - 1]));
    }
}

impl<T: Wire> Wire for Vec<T> {
    open spec fn spec_enc(v: Seq<T::V>) -> Seq<u8> {
        le_u64(v.len() as u64) + enc_items::<T>(v)
    }

    proof fn lemma_enc_nonempty(v: Seq<T::V>) {
    }

    proof fn lemma_enc_unique(s: Seq<u8>, pos: int, v1: Seq<T::V>, v2: Seq<T::V>) {
        lemma_bytes_at_concat(s, pos, le_u64(v1.len() as u64), enc_items::<T>(v1));
        lemma_bytes_at_concat(s, pos, le_u64(v2.len() as u64), enc_items::<T>(v2));
        u64::lemma_enc_unique(s, pos, v1.len() as u64, v2.len() as u64);
        lemma_items_len::<T>(v1);
        lemma_items_len::<T>(v2);
        lemma_items_unique::<T>(s, pos + 8, v1, v2, v1.len() as int);
        assert(v1.take(v1.len() as int) =~= v1);
        assert(v2.take(v2.len() as int) =~= v2);
    }

    fn write(&self, out: &mut Vec<u8>) {
        let n = self.len() as u64;
        n.write(out);
        let mut i: usize = 0;
        while i < self.len()
            invariant
                i <= self@.len(),
                n == self@.len(),
                out@ == old(out)@ + le_u64(n) + enc_items::<T>(self.deep_view().take(i as int)),
            decreases self@.len() - i,
        {
            self[i].write(out);
            proof {
                lemma_items_step::<T>(self.deep_view(), i as int);
                assert(out@ =~= old(out)@ + le_u64(n) + enc_items::<T>(
                    self.deep_view().take(i + 1),
                ));
            }
            i = i + 1;
        }
        proof {
            assert(self.deep_view().take(i as int) =~= self.deep_view());
            assert(out@ =~= old(out)@ + (le_u64(n) + enc_items::<T>(self.deep_view())));
        }
    }

    fn read(b: &[u8], pos: usize) -> (r: Option<(Vec<T>, usize)>) {
        let total = b.len();
        proof {
            assert(b@.len() == total);
            assert(b@.len() <= u64::MAX);
        }
        let (n, start) = match u64::read(b, pos) {
            Some(x) => x,
            None => {
                proof {
                    assert forall|vs: Seq<T::V>| !bytes_at(
                        b@,
                        pos as int,
                        #[trigger] Self::spec_enc(vs),
                    ) by {
                        lemma_bytes_at_concat(
                            b@,
                            pos as int,
                            le_u64(vs.len() as u64),
                            enc_items::<T>(vs),
                        );
                        assert(!bytes_at(b@, pos as int, u64::spec_enc(vs.len() as u64)));
                    }
                }
                return None;
            },
        };
        let mut out: Vec<T> = Vec::new();
        let mut p = start;
        let mut i: u64 = 0;
        proof {
            assert(out.deep_view() =~= Seq::<T::V>::empty());
            assert(b@.subrange(start as int, start as int) =~= Seq::<u8>::empty());
            assert forall|vs: Seq<T::V>| #[trigger]
                bytes_at(b@, pos as int, Self::spec_enc(vs)) implies vs.len() == n
                && bytes_at(b@, start as int, enc_items::<T>(vs)) by {
                lemma_bytes_at_concat(b@, pos as int, le_u64(vs.len() as u64), enc_items::<T>(vs));
                lemma_items_len::<T>(vs);
                assert(bytes_at(b@, pos as int, u64::spec_enc(vs.len() as u64)));
            }
        }
        while i < n
            invariant
                pos <= b@.len(),
                b@.len() <= u64::MAX,
                start == pos + 8,
                start <= p <= b@.len(),
                i <= n,
                out@.len() == i,
                bytes_at(b@, pos as int, le_u64(n)),
                bytes_at(b@, start as int, enc_items::<T>(out.deep_view())),
                p == start + enc_items::<T>(out.deep_view()).len(),
                forall|vs: Seq<T::V>| #[trigger]
                    bytes_at(b@, pos as int, Self::spec_enc(vs)) ==> vs.len() == n && bytes_at(
                        b@,
                        start as int,
                        enc_items::<T>(vs),
                    ),
                forall|vs: Seq<T::V>| #[trigger]
                    bytes_at(b@, pos as int, Self::spec_enc(vs)) ==> out.deep_view() == vs.take(
                        i as int,
                    ),
            decreases n - i,
        {
            let ghost old_view = out.deep_view();
            let (v, q) = match T::read(b, p) {
                Some(x) => x,
                None => {
                    proof {
                        assert forall|vs: Seq<T::V>| !bytes_at(
                            b@,
                            pos as int,
                            #[trigger] Self::spec_enc(vs),
                        ) by {
                            if bytes_at(b@, pos as int, Self::spec_enc(vs)) {
                                lemma_items_prefix::<T>(vs, i + 1);
                                lemma_bytes_at_prefix(
                                    b@,
                                    start as int,
                                    enc_items::<T>(vs),
                                    enc_items::<T>(vs.take(i + 1)),
                                );
                                lemma_items_step::<T>(vs, i as int);
                                lemma_bytes_at_concat(
                                    b@,
                                    start as int,
                                    enc_items::<T>(vs.take(i as int)),
                                    T::spec_enc(vs[i as int]),
                                );
                            }
                        }
                    }
                    return None;
                },
            };
            out.push(v);
            proof {
                assert(out.deep_view() =~= old_view.push(v.deep_view()));
                assert(out.deep_view().drop_last() =~= old_view);
                lemma_bytes_at_concat(b@, start as int, enc_items::<T>(old_view), T::spec_enc(v.deep_view()));
                assert forall|vs: Seq<T::V>| #[trigger]
                    bytes_at(b@, pos as int, Self::spec_enc(vs)) implies out.deep_view() == vs.take(
                    i + 1,
                ) by {
                    lemma_items_prefix::<T>(vs, i + 1);
                    lemma_bytes_at_prefix(
                        b@,
                        start as int,
                        enc_items::<T>(vs),
                        enc_items::<T>(vs.take(i + 1)),
                    );
                    lemma_items_step::<T>(vs, i as int);
                    lemma_bytes_at_concat(
                        b@,
                        start as int,
                        enc_items::<T>(vs.take(i as int)),
                        T::spec_enc(vs[i as int]),
                    );
                    assert(vs.take(i + 1) =~= vs.take(i as int).push(vs[i as int]));
                }
            }
            p = q;
            i = i + 1;
        }
        proof {
            lemma_bytes_at_concat(b@, pos as int, le_u64(n), enc_items::<T>(out.deep_view()));
            assert forall|vs: Seq<T::V>| #[trigger]
                bytes_at(b@, pos as int, Self::spec_enc(vs)) implies out.deep_view() == vs by {
                assert(vs.take(vs.len() as int) =~= vs);
            }
        }
        Some((out, p))
    }
}

impl<A: Wire, B: Wire> Wire for (A, B) {
    open spec fn spec_enc(v: (A::V, B::V)) -> Seq<u8> {
        A::spec_enc(v.0) + B::spec_enc(v.1)
    }

    proof fn lemma_enc_nonempty(v: (A::V, B::V)) {
        A::lemma_enc_nonempty(v.0);
    }

    proof fn lemma_enc_unique(s: Seq<u8>, pos: int, v1: (A::V, B::V), v2: (A::V, B::V)) {
        lemma_bytes_at_concat(s, pos, A::spec_enc(v1.0), B::spec_enc(v1.1));
        lemma_bytes_at_concat(s, pos, A::spec_enc(v2.0), B::spec_enc(v2.1));
        A::lemma_enc_unique(s, pos, v1.0, v2.0);
        B::lemma_enc_unique(s, pos + A::spec_enc(v1.0).len(), v1.1, v2.1);
    }

    fn write(&self, out: &mut Vec<u8>) {
        self.0.write(out);
        self.1.write(out);
        proof {
            assert(out@ =~= old(out)@ + Self::spec_enc(self.deep_view()));
        }
    }

    fn read(b: &[u8], pos: usize) -> (r: Option<((A, B), usize)>) {
        let (a, p) = match A::read(b, pos) {
            Some(x) => x,
            None => {
                proof {
                    assert forall|v: (A::V, B::V)| !bytes_at(b@, pos as int, #[trigger] Self::spec_enc(v)) by {
                        lemma_bytes_at_concat(b@, pos as int, A::spec_enc(v.0), B::spec_enc(v.1));
                    }
                }
                return None;
            },
        };
        let (c, q) = match B::read(b, p) {
            Some(x) => x,
            None => {
                proof {
                    assert forall|v: (A::V, B::V)| !bytes_at(b@, pos as int, #[trigger] Self::spec_enc(v)) by {
                        lemma_bytes_at_concat(b@, pos as int, A::spec_enc(v.0), B::spec_enc(v.1));
                    }
                }
                return None;
            },
        };
        proof {
            lemma_bytes_at_concat(b@, pos as int, A::spec_enc(a.deep_view()), B::spec_enc(c.deep_view()));
            assert forall|v: (A::V, B::V)| #[trigger] bytes_at(b@, pos as int, Self::spec_enc(v)) implies
                a.deep_view() == v.0 && c.deep_view() == v.1 by {
                lemma_bytes_at_concat(b@, pos as int, A::spec_enc(v.0), B::spec_enc(v.1));
            }
        }
        Some(((a, c), q))
    }
}


/// Appends the bytes of `bytes` one by one.
fn push_all(out: &mut Vec<u8>, bytes: &[u8])
    ensures
        final(out)@ == old(out)@ + bytes@,
{
    let mut i: usize = 0;
    while i < bytes.len()
        invariant
            i <= bytes@.len(),
            out@ == old(out)@ + bytes@.take(i as int),
        decreases bytes@.len() - i,
    {
        out.push(bytes[i]);
        proof {
            assert(bytes@.take(i + 1) =~= bytes@.take(i as int).push(bytes@[i as int]));
        }
        i = i + 1;
    }
    proof {
        assert(bytes@.take(i as int) =~= bytes@);
    }
}

/// Relies on `String::from_utf8`: it accepts exactly the well-formed UTF-8
/// byte strings, and the text it returns is the one those bytes spell.
#[verifier::external_body]
fn string_from_utf8(bytes: Vec<u8>) -> (r: Option<String>)
    ensures
        r matches Some(s) ==> valid_utf8(bytes@) && s@ == decode_utf8(bytes@),
        r is None ==> !valid_utf8(bytes@),
{
    String::from_utf8(bytes).ok()
}

impl Wire for String {
    open spec fn spec_enc(v: Seq<char>) -> Seq<u8> {
        le_u64(encode_utf8(v).len() as u64) + encode_utf8(v)
    }

    proof fn lemma_enc_nonempty(v: Seq<char>) {
    }

    proof fn lemma_enc_unique(s: Seq<u8>, pos: int, v1: Seq<char>, v2: Seq<char>) {
        let e1 = encode_utf8(v1);
        let e2 = encode_utf8(v2);
        lemma_bytes_at_concat(s, pos, le_u64(e1.len() as u64), e1);
        lemma_bytes_at_concat(s, pos, le_u64(e2.len() as u64), e2);
        u64::lemma_enc_unique(s, pos, e1.len() as u64, e2.len() as u64);
        assert(e1 == e2);
        encode_utf8_decode_utf8(v1);
        encode_utf8_decode_utf8(v2);
    }

    fn write(&self, out: &mut Vec<u8>) {
        let bytes = self.as_str().as_bytes();
        let n = bytes.len() as u64;
        n.write(out);
        push_all(out, bytes);
        proof {
            assert(out@ =~= old(out)@ + Self::spec_enc(self.deep_view()));
        }
    }

    fn read(b: &[u8], pos: usize) -> (r: Option<(String, usize)>) {
        let total = b.len();
        proof {
            assert(b@.len() == total);
        }
        let (n, start) = match u64::read(b, pos) {
            Some(x) => x,
            None => {
                proof {
                    assert forall|v: Seq<char>| !bytes_at(b@, pos as int, #[trigger] Self::spec_enc(v)) by {
                        let e = encode_utf8(v);
                        lemma_bytes_at_concat(b@, pos as int, le_u64(e.len() as u64), e);
                        assert(!bytes_at(b@, pos as int, u64::spec_enc(e.len() as u64)));
                    }
                }
                return None;
            },
        };
        if n > (total - start) as u64 {
            proof {
                assert forall|v: Seq<char>| !bytes_at(b@, pos as int, #[trigger] Self::spec_enc(v)) by {
                    let e = encode_utf8(v);
                    if bytes_at(b@, pos as int, Self::spec_enc(v)) {
                        lemma_bytes_at_concat(b@, pos as int, le_u64(e.len() as u64), e);
                        assert(bytes_at(b@, pos as int, u64::spec_enc(e.len() as u64)));
                    }
                }
            }
            return None;
        }
        let end = start + n as usize;
        let bytes = slice_to_vec(slice_subrange(b, start, end));
        let ghost bv = bytes@;
        proof {
            assert forall|v: Seq<char>| #[trigger] bytes_at(b@, pos as int, Self::spec_enc(v)) implies
                encode_utf8(v) == bv by {
                let e = encode_utf8(v);
                lemma_bytes_at_concat(b@, pos as int, le_u64(e.len() as u64), e);
                assert(bytes_at(b@, pos as int, u64::spec_enc(e.len() as u64)));
            }
        }
        match string_from_utf8(bytes) {
            Some(text) => {
                proof {
                    decode_utf8_encode_utf8(bv);
                    assert(encode_utf8(text@) == bv);
                    lemma_bytes_at_concat(b@, pos as int, le_u64(n), bv);
                    assert(b@.subrange(pos as int, pos + 8) == le_u64(n));
                    assert forall|v: Seq<char>| #[trigger] bytes_at(b@, pos as int, Self::spec_enc(v)) implies
                        text@ == v by {
                        encode_utf8_decode_utf8(v);
                    }
                }
                Some((text, end))
            },
            None => {
                proof {
                    assert forall|v: Seq<char>| !bytes_at(b@, pos as int, #[trigger] Self::spec_enc(v)) by {
                        encode_utf8_valid_utf8(v);
                    }
                }
                None
            },
        }
    }
}


/// No two values share an encoding, so a decoder that returns some value whose
/// encoding is the input returns, on the encoding of `v`, `v` itself.
pub proof fn lemma_enc_injective<T: Wire>(v1: T::V, v2: T::V)
    requires
        T::spec_enc(v1) == T::spec_enc(v2),
        T::spec_enc(v1).len() <= u64::MAX,
    ensures
        v1 == v2,
{
    let b = T::spec_enc(v1);
    assert(b.subrange(0, b.len() as int) =~= b);
    T::lemma_enc_unique(b, 0, v1, v2);
}

/// The encoding of `v` as a byte string of its own.
pub fn encode_all<T: Wire>(v: &T) -> (r: Vec<u8>)
    ensures
        r@ == T::spec_enc(v.deep_view()),
{
    let mut out: Vec<u8> = Vec::new();
    v.write(&mut out);
    proof {
        assert(out@ =~= T::spec_enc(v.deep_view()));
    }
    out
}

/// Decodes a byte string that must hold exactly one encoded value.
pub fn decode_all<T: Wire>(b: &[u8]) -> (r: Option<T>)
    ensures
        match r {
            Some(w) => T::spec_enc(w.deep_view()) == b@,
            None => forall|v: T::V| T::spec_enc(v) != b@,
        },
{
    let total = b.len();
    proof {
        assert(b@.len() == total);
        assert(b@.subrange(0, b@.len() as int) =~= b@);
        assert forall|v: T::V| T::spec_enc(v) == b@ implies #[trigger] bytes_at(b@, 0, T::spec_enc(v)) by {
        }
    }
    match T::read(b, 0) {
        Some((w, q)) => {
            if q == total {
                proof {
                    assert(bytes_at(b@, 0, T::spec_enc(w.deep_view())));
                    assert(b@.subrange(0, T::spec_enc(w.deep_view()).len() as int) == b@);
                    assert(T::spec_enc(w.deep_view()) == b@);
                }
                Some(w)
            } else {
                proof {
                    assert forall|v: T::V| T::spec_enc(v) != b@ by {
                        if T::spec_enc(v) == b@ {
                            assert(bytes_at(b@, 0, T::spec_enc(v)));
                        }
                    }
                }
                None
            }
        },
        None => {
            proof {
                assert forall|v: T::V| T::spec_enc(v) != b@ by {
                    if T::spec_enc(v) == b@ {
                        assert(bytes_at(b@, 0, T::spec_enc(v)));
                    }
                }
            }
            None
        },
    }
}

} // verus!
