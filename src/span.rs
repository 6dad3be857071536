//! A rope of byte fragments: owned bytes, pooled memory, or offsets into a
//! scratch buffer that is bound later.
use crate::ebml::{append_bytes, slice_range};
use crate::memory::Memory;
use bytes::Bytes;
use std::sync::Arc;
use vstd::prelude::*;

verus! {

/// Relies on `Arc::clone`: another handle on the same value.
#[verifier::external_body]
pub(crate) fn share<T>(a: &Arc<T>) -> (r: Arc<T>)
    ensures
        r == *a,
{
    Arc::clone(a)
}

#[verifier::external_type_specification]
#[verifier::external_body]
pub struct ExBytes(Bytes);

/// The bytes that a `Bytes` buffer holds.
pub uninterp spec fn bytes_view(b: Bytes) -> Seq<u8>;

/// Relies on `From<Vec<u8>> for Bytes`: the buffer holds the vector's bytes.
#[verifier::external_body]
fn bytes_from_vec(v: Vec<u8>) -> (b: Bytes)
    ensures
        bytes_view(b) == v@,
{
    Bytes::from(v)
}

/// Relies on `Bytes::slice`: a buffer sharing the bytes `start..end`, which panics
/// unless `start <= end <= len`.
#[verifier::external_body]
fn bytes_slice(b: &Bytes, start: usize, end: usize) -> (r: Bytes)
    requires
        start <= end <= bytes_view(*b).len(),
    ensures
        bytes_view(r) == bytes_view(*b).subrange(start as int, end as int),
{
    b.slice(start..end)
}

/// Relies on `Deref for Bytes`: the buffer's bytes as a slice.
#[verifier::external_body]
fn bytes_as_slice(b: &Bytes) -> (r: &[u8])
    ensures
        r@ == bytes_view(*b),
{
    b
}

/// One contiguous fragment of a span.
pub enum SpanPart {
    /// Shared immutable bytes.
    Single(Bytes),
    /// The bytes `start..end` of a scratch buffer that is not bound yet.
    NonRealizedMemory { start: usize, end: usize },
    /// The bytes `start..end` of a shared pool buffer.
    RefCounted { memory: Arc<Memory>, start: usize, end: usize },
}

/// The bytes of a fragment, where `scratch` is the buffer that unbound offsets name.
pub open spec fn part_bytes(p: SpanPart, scratch: Seq<u8>) -> Seq<u8> {
    match p {
        SpanPart::Single(b) => bytes_view(b),
        SpanPart::NonRealizedMemory { start, end } => scratch.subrange(start as int, end as int),
        SpanPart::RefCounted { memory, start, end } => memory@.subrange(start as int, end as int),
    }
}

/// The number of bytes of a fragment.
pub open spec fn part_len(p: SpanPart) -> nat {
    match p {
        SpanPart::Single(b) => bytes_view(b).len(),
        SpanPart::NonRealizedMemory { start, end } => (end - start) as nat,
        SpanPart::RefCounted { start, end, .. } => (end - start) as nat,
    }
}

/// The end offset of an unbound fragment; zero for the others.
pub open spec fn nr_end(p: SpanPart) -> nat {
    match p {
        SpanPart::NonRealizedMemory { end, .. } => end as nat,
        _ => 0,
    }
}

/// A fragment's offsets are ordered and lie within its pool buffer.
pub open spec fn part_wf(p: SpanPart) -> bool {
    match p {
        SpanPart::Single(_) => true,
        SpanPart::NonRealizedMemory { start, end } => start <= end,
        SpanPart::RefCounted { memory, start, end } => start <= end <= memory@.len(),
    }
}

/// The concatenated bytes of fragments.
pub open spec fn parts_bytes(ps: Seq<SpanPart>, scratch: Seq<u8>) -> Seq<u8>
    decreases ps.len(),
{
    if ps.len() == 0 {
        Seq::empty()
    } else {
        parts_bytes(ps.drop_last(), scratch) + part_bytes(ps.last(), scratch)
    }
}

/// The total length of fragments.
pub open spec fn parts_len(ps: Seq<SpanPart>) -> nat
    decreases ps.len(),
{
    if ps.len() == 0 {
        0
    } else {
        parts_len(ps.drop_last()) + part_len(ps.last())
    }
}

/// A byte rope: fragments in order.
pub struct Span {
    parts: Vec<SpanPart>,
}

impl Span {
    /// The fragments.
    pub closed spec fn parts(&self) -> Seq<SpanPart> {
        self.parts@
    }

    /// The span's bytes, unbound offsets read from `scratch`.
    pub open spec fn bytes_in(&self, scratch: Seq<u8>) -> Seq<u8> {
        parts_bytes(self.parts(), scratch)
    }

    /// The number of bytes.
    pub open spec fn spec_len(&self) -> nat {
        parts_len(self.parts())
    }

    /// Every fragment well formed, and the length fits a `usize`.
    pub open spec fn wf(&self) -> bool {
        &&& forall|i: int| 0 <= i < self.parts().len() ==> part_wf(#[trigger] self.parts()[i])
        &&& self.spec_len() <= usize::MAX
    }

    /// No fragment names an unbound scratch buffer.
    pub open spec fn is_realized(&self) -> bool {
        forall|i: int|
            0 <= i < self.parts().len() ==> !(#[trigger] self.parts()[i] is NonRealizedMemory)
    }

    /// Every unbound offset lies within a scratch buffer of `n` bytes.
    pub open spec fn fits(&self, n: nat) -> bool {
        forall|i: int| 0 <= i < self.parts().len() ==> nr_end(#[trigger] self.parts()[i]) <= n
    }

    /// The empty span.
    pub fn new() -> (s: Span)
        ensures
            s.parts().len() == 0,
            s.wf(),
            s.is_realized(),
    {
        Span { parts: Vec::new() }
    }

    /// A span of owned bytes.
    pub fn from_vec(bytes: Vec<u8>) -> (s: Span)
        ensures
            s.wf(),
            s.is_realized(),
            forall|scratch: Seq<u8>| #[trigger] s.bytes_in(scratch) == bytes@,
            s.spec_len() == bytes@.len(),
    {
        let ghost b = bytes@;
        // the length of a vector fits a usize
        let _len = bytes.len();
        let mut parts: Vec<SpanPart> = Vec::new();
        let shared = bytes_from_vec(bytes);
        let ghost p = SpanPart::Single(shared);
        parts.push(SpanPart::Single(shared));
        let s = Span { parts };
        proof {
            assert(s.parts().last() == p);
            assert(parts_len(s.parts().drop_last()) == 0);
            assert(s.spec_len() == b.len());
            assert forall|scratch: Seq<u8>| #[trigger] s.bytes_in(scratch) == b by {
                assert(s.parts().drop_last() =~= Seq::<SpanPart>::empty());
                assert(parts_bytes(s.parts().drop_last(), scratch) =~= Seq::<u8>::empty());
                assert(s.bytes_in(scratch) =~= b);
            }
            assert(s.parts().drop_last() =~= Seq::<SpanPart>::empty());
        }
        s
    }

    /// A span of shared bytes.
    pub fn from_bytes(bytes: Bytes) -> (s: Span)
        ensures
            s.wf(),
            s.is_realized(),
            forall|scratch: Seq<u8>| #[trigger] s.bytes_in(scratch) == bytes_view(bytes),
            s.spec_len() == bytes_view(bytes).len(),
    {
        let _len = bytes_as_slice(&bytes).len();
        let mut parts: Vec<SpanPart> = Vec::new();
        let ghost p = SpanPart::Single(bytes);
        parts.push(SpanPart::Single(bytes));
        let s = Span { parts };
        proof {
            assert(s.parts().last() == p);
            assert(s.parts().drop_last() =~= Seq::<SpanPart>::empty());
            assert(parts_len(s.parts().drop_last()) == 0);
            assert forall|scratch: Seq<u8>| #[trigger] s.bytes_in(scratch) == bytes_view(bytes) by {
                assert(parts_bytes(s.parts().drop_last(), scratch) =~= Seq::<u8>::empty());
                assert(s.bytes_in(scratch) =~= bytes_view(bytes));
            }
        }
        s
    }

    /// A span of the unbound scratch bytes `start..end`.
    pub fn non_realized(start: usize, end: usize) -> (s: Span)
        requires
            start <= end,
        ensures
            s.wf(),
            s.fits(end as nat),
            forall|scratch: Seq<u8>|
                #[trigger] s.bytes_in(scratch) == scratch.subrange(start as int, end as int),
            s.spec_len() == end - start,
    {
        let mut parts: Vec<SpanPart> = Vec::new();
        parts.push(SpanPart::NonRealizedMemory { start, end });
        let s = Span { parts };
        proof {
            let p = SpanPart::NonRealizedMemory { start, end };
            assert(s.parts().last() == p);
            assert(s.parts().drop_last() =~= Seq::<SpanPart>::empty());
            assert(parts_len(s.parts().drop_last()) == 0);
            assert(s.spec_len() == end - start);
            assert forall|scratch: Seq<u8>|
                #[trigger] s.bytes_in(scratch) == scratch.subrange(start as int, end as int) by {
                assert(s.parts().drop_last() =~= Seq::<SpanPart>::empty());
                assert(parts_bytes(s.parts().drop_last(), scratch) == Seq::<u8>::empty());
                assert(s.bytes_in(scratch) == Seq::<u8>::empty() + part_bytes(p, scratch));
                assert(Seq::<u8>::empty() + part_bytes(p, scratch) =~= part_bytes(p, scratch));
            }
        }
        s
    }

    /// Appends the fragments of `other`.
    pub fn append(&mut self, other: Span)
        requires
            old(self).wf(),
            other.wf(),
            old(self).spec_len() + other.spec_len() <= usize::MAX,
        ensures
            final(self).wf(),
            final(self).spec_len() == old(self).spec_len() + other.spec_len(),
            forall|scratch: Seq<u8>|
                #[trigger] final(self).bytes_in(scratch) == old(self).bytes_in(scratch)
                    + other.bytes_in(scratch),
            old(self).is_realized() && other.is_realized() ==> final(self).is_realized(),
            forall|n: nat| old(self).fits(n) && other.fits(n) ==> #[trigger] final(self).fits(n),
    {
        let ghost start = self.parts@;
        let ghost op = other.parts@;
        let mut rest = other.parts;
        // move the parts over in order: reversed once, then popped onto `self`
        let mut rev: Vec<SpanPart> = Vec::new();
        while rest.len() > 0
            invariant
                rest@ + rev@.reverse() == op,
            decreases rest@.len(),
        {
            let p = rest.pop().unwrap();
            proof {
                assert(rest@.push(p) + rev@.reverse() == op);
            }
            let ghost r0 = rev@;
            rev.push(p);
            proof {
                assert(rev@.reverse() =~= seq![p] + r0.reverse());
                assert(rest@ + rev@.reverse() =~= op);
            }
        }
        while rev.len() > 0
            invariant
                self.parts@ + rev@.reverse() == start + op,
                self.parts@.len() >= start.len(),
                self.parts@.subrange(0, start.len() as int) == start,
            decreases rev@.len(),
        {
            let p = rev.pop().unwrap();
            let ghost before = self.parts@;
            proof {
                assert(rev@.push(p).reverse() =~= seq![p] + rev@.reverse());
            }
            self.parts.push(p);
            proof {
                assert(self.parts@ + rev@.reverse() =~= before + (seq![p] + rev@.reverse()));
                assert(self.parts@.subrange(0, start.len() as int) =~= before.subrange(0, start.len() as int));
            }
        }
        proof {
            assert(self.parts@ =~= start + op);
            lemma_parts_concat(start, op);
        }
    }

    /// The number of bytes.
    pub fn len(&self) -> (n: usize)
        requires
            self.wf(),
        ensures
            n == self.spec_len(),
    {
        let mut total: usize = 0;
        let mut i: usize = 0;
        while i < self.parts.len()
            invariant
                self.wf(),
                i <= self.parts@.len(),
                total == parts_len(self.parts@.take(i as int)),
            decreases self.parts@.len() - i,
        {
            proof {
                assert(self.parts@.take(i as int + 1).drop_last() =~= self.parts@.take(i as int));
                lemma_parts_len_prefix(self.parts@, i as int + 1);
            }
            total = total + part_length(&self.parts[i]);
            i = i + 1;
        }
        proof {
            assert(self.parts@.take(i as int) =~= self.parts@);
        }
        total
    }

    /// Whether the span holds no bytes.
    pub fn is_empty(&self) -> (b: bool)
        requires
            self.wf(),
        ensures
            b == (self.spec_len() == 0),
    {
        self.len() == 0
    }
}

/// The number of bytes of a fragment.
fn part_length(p: &SpanPart) -> (n: usize)
    requires
        part_wf(*p),
    ensures
        n == part_len(*p),
{
    match p {
        SpanPart::Single(b) => bytes_as_slice(b).len(),
        SpanPart::NonRealizedMemory { start, end } => *end - *start,
        SpanPart::RefCounted { start, end, .. } => *end - *start,
    }
}

pub proof fn lemma_parts_len_prefix(ps: Seq<SpanPart>, k: int)
    requires
        0 <= k <= ps.len(),
    ensures
        parts_len(ps.take(k)) <= parts_len(ps),
    decreases ps.len() - k,
{
    if k < ps.len() {
        lemma_parts_len_prefix(ps, k + 1);
        assert(ps.take(k + 1).drop_last() =~= ps.take(k));
    } else {
        assert(ps.take(k) =~= ps);
    }
}

/// Bytes, length and well-formedness of two runs of fragments put together.
pub proof fn lemma_parts_concat(a: Seq<SpanPart>, b: Seq<SpanPart>)
    ensures
        parts_len(a + b) == parts_len(a) + parts_len(b),
        forall|scratch: Seq<u8>|
            #[trigger] parts_bytes(a + b, scratch) == parts_bytes(a, scratch) + parts_bytes(b, scratch),
    decreases b.len(),
{
    if b.len() == 0 {
        assert(a + b =~= a);
        assert forall|scratch: Seq<u8>|
            #[trigger] parts_bytes(a + b, scratch) == parts_bytes(a, scratch) + parts_bytes(b, scratch) by {
            assert(parts_bytes(a, scratch) + parts_bytes(b, scratch) =~= parts_bytes(a, scratch));
        }
    } else {
        lemma_parts_concat(a, b.drop_last());
        assert((a + b).drop_last() =~= a + b.drop_last());
        assert((a + b).last() == b.last());
        assert forall|scratch: Seq<u8>|
            #[trigger] parts_bytes(a + b, scratch) == parts_bytes(a, scratch) + parts_bytes(b, scratch) by {
            assert(parts_bytes(a + b.drop_last(), scratch) == parts_bytes(a, scratch) + parts_bytes(
                b.drop_last(),
                scratch,
            ));
            assert(parts_bytes(a + b, scratch) == parts_bytes((a + b).drop_last(), scratch)
                + part_bytes((a + b).last(), scratch));
            assert(parts_bytes(b, scratch) == parts_bytes(b.drop_last(), scratch) + part_bytes(
                b.last(),
                scratch,
            ));
            assert(parts_bytes(a + b, scratch) =~= parts_bytes(a, scratch) + parts_bytes(b, scratch));
        }
    }
}


/// A fragment's bytes have its length, given a scratch buffer that holds its offsets.
pub proof fn lemma_part_bytes_len(p: SpanPart, scratch: Seq<u8>)
    requires
        part_wf(p),
        nr_end(p) <= scratch.len(),
    ensures
        part_bytes(p, scratch).len() == part_len(p),
{
}

/// The fragments' bytes have their total length.
pub proof fn lemma_parts_bytes_len(ps: Seq<SpanPart>, scratch: Seq<u8>)
    requires
        forall|i: int| 0 <= i < ps.len() ==> part_wf(#[trigger] ps[i]),
        forall|i: int| 0 <= i < ps.len() ==> nr_end(#[trigger] ps[i]) <= scratch.len(),
    ensures
        parts_bytes(ps, scratch).len() == parts_len(ps),
    decreases ps.len(),
{
    if ps.len() > 0 {
        let q = ps.drop_last();
        assert forall|i: int| 0 <= i < q.len() implies part_wf(#[trigger] q[i]) by {
            assert(q[i] == ps[i]);
        }
        assert forall|i: int| 0 <= i < q.len() implies nr_end(#[trigger] q[i]) <= scratch.len() by {
            assert(q[i] == ps[i]);
        }
        lemma_parts_bytes_len(q, scratch);
        lemma_part_bytes_len(ps.last(), scratch);
    }
}

/// A window of two runs put together is the window of each.
pub proof fn lemma_subrange_concat(x: Seq<u8>, y: Seq<u8>, a: int, b: int)
    requires
        0 <= a <= b <= x.len() + y.len(),
    ensures
        (x + y).subrange(a, b) == x.subrange(clamp(a, x.len() as int), clamp(b, x.len() as int))
            + y.subrange(clamp(a - x.len(), y.len() as int), clamp(b - x.len(), y.len() as int)),
{
    assert((x + y).subrange(a, b) =~= x.subrange(clamp(a, x.len() as int), clamp(b, x.len() as int))
        + y.subrange(clamp(a - x.len(), y.len() as int), clamp(b - x.len(), y.len() as int)));
}

/// `v` limited to `[0, hi]`.
pub open spec fn clamp(v: int, hi: int) -> int {
    if v < 0 {
        0
    } else if v > hi {
        hi
    } else {
        v
    }
}

/// Copies `src` into a new vector.
pub fn copy_bytes(src: &[u8]) -> (v: Vec<u8>)
    ensures
        v@ == src@,
{
    let mut v: Vec<u8> = Vec::new();
    append_bytes(&mut v, src);
    proof {
        assert(v@ =~= src@);
    }
    v
}

/// The bytes `s..e` of a fragment, as a fragment.
fn slice_part(p: &SpanPart, s: usize, e: usize) -> (r: SpanPart)
    requires
        part_wf(*p),
        s <= e <= part_len(*p),
    ensures
        part_wf(r),
        part_len(r) == e - s,
        forall|scratch: Seq<u8>|
            nr_end(*p) <= scratch.len() ==> (#[trigger] part_bytes(r, scratch) == part_bytes(
                *p,
                scratch,
            ).subrange(s as int, e as int)),
        p is NonRealizedMemory <==> r is NonRealizedMemory,
        nr_end(r) <= nr_end(*p),
{
    match p {
        SpanPart::Single(b) => SpanPart::Single(bytes_slice(b, s, e)),
        SpanPart::NonRealizedMemory { start, end } => {
            let r = SpanPart::NonRealizedMemory { start: *start + s, end: *start + e };
            proof {
                assert forall|scratch: Seq<u8>|
                    nr_end(*p) <= scratch.len() implies (#[trigger] part_bytes(r, scratch) == part_bytes(*p, scratch).subrange(
                        s as int,
                        e as int,
                    )) by {
                    assert(part_bytes(r, scratch) =~= part_bytes(*p, scratch).subrange(s as int, e as int));
                }
            }
            r
        },
        SpanPart::RefCounted { memory, start, end } => {
            let r = SpanPart::RefCounted { memory: share(memory), start: *start + s, end: *start + e };
            proof {
                assert forall|scratch: Seq<u8>|
                    nr_end(*p) <= scratch.len() implies (#[trigger] part_bytes(r, scratch) == part_bytes(*p, scratch).subrange(
                        s as int,
                        e as int,
                    )) by {
                    assert(part_bytes(r, scratch) =~= part_bytes(*p, scratch).subrange(s as int, e as int));
                }
            }
            r
        },
    }
}

impl Span {
    /// The bytes `start..end` of the span, as a new span that shares pooled
    /// fragments; the span itself is unchanged.
    pub fn slice(&self, start: usize, end: usize) -> (r: Span)
        requires
            self.wf(),
            start <= end <= self.spec_len(),
        ensures
            r.wf(),
            r.spec_len() == end - start,
            forall|scratch: Seq<u8>|
                self.fits(scratch.len()) ==> #[trigger] r.bytes_in(scratch) == self.bytes_in(
                    scratch,
                ).subrange(start as int, end as int),
            self.is_realized() ==> r.is_realized(),
            forall|n: nat| self.fits(n) ==> #[trigger] r.fits(n),
    {
        let ghost ps = self.parts@;
        let mut out: Vec<SpanPart> = Vec::new();
        let mut off: usize = 0;
        let mut i: usize = 0;
        while i < self.parts.len()
            invariant
                self.wf(),
                ps == self.parts@,
                start <= end <= self.spec_len(),
                i <= ps.len(),
                off == parts_len(ps.take(i as int)),
                off <= self.spec_len(),
                forall|k: int| 0 <= k < out@.len() ==> part_wf(#[trigger] out@[k]),
                parts_len(out@) == clamp(end as int, off as int) - clamp(start as int, off as int),
                forall|scratch: Seq<u8>|
                    self.fits(scratch.len()) ==> #[trigger] parts_bytes(out@, scratch) == parts_bytes(
                        ps.take(i as int),
                        scratch,
                    ).subrange(clamp(start as int, off as int), clamp(end as int, off as int)),
                self.is_realized() ==> forall|k: int|
                    0 <= k < out@.len() ==> !(#[trigger] out@[k] is NonRealizedMemory),
                forall|k: int|
                    0 <= k < out@.len() ==> #[trigger] nr_end(out@[k]) <= max_nr_end(ps),
            decreases ps.len() - i,
        {
            let p = &self.parts[i];
            proof {
                assert(part_wf(ps[i as int]));
                assert(ps.take(i as int + 1).drop_last() =~= ps.take(i as int));
                assert(ps.take(i as int + 1).last() == ps[i as int]);
                lemma_parts_len_prefix(ps, i as int + 1);
            }
            let len = part_length(p);
            let lo = if start > off {
                start
            } else {
                off
            };
            let hi = if end < off + len {
                end
            } else {
                off + len
            };
            let ghost before = out@;
            if lo < hi {
                let q = slice_part(p, lo - off, hi - off);
                out.push(q);
                proof {
                    assert(out@.drop_last() == before);
                    assert(out@.last() == q);
                }
            }
            proof {
                let np = off + len;
                assert forall|scratch: Seq<u8>|
                    self.fits(scratch.len()) implies #[trigger] parts_bytes(out@, scratch) == parts_bytes(
                        ps.take(i as int + 1),
                        scratch,
                    ).subrange(clamp(start as int, np as int), clamp(end as int, np as int)) by {
                    let x = parts_bytes(ps.take(i as int), scratch);
                    let y = part_bytes(ps[i as int], scratch);
                    assert forall|k: int| 0 <= k < ps.take(i as int).len() implies part_wf(
                        #[trigger] ps.take(i as int)[k],
                    ) by {
                        assert(ps.take(i as int)[k] == ps[k]);
                    }
                    assert forall|k: int| 0 <= k < ps.take(i as int).len() implies nr_end(
                        #[trigger] ps.take(i as int)[k],
                    ) <= scratch.len() by {
                        assert(ps.take(i as int)[k] == ps[k]);
                    }
                    lemma_parts_bytes_len(ps.take(i as int), scratch);
                    lemma_part_bytes_len(ps[i as int], scratch);
                    assert(parts_bytes(ps.take(i as int + 1), scratch) == x + y);
                    let a = clamp(start as int, np as int);
                    let b = clamp(end as int, np as int);
                    lemma_subrange_concat(x, y, a, b);
                    assert(clamp(a, off as int) == clamp(start as int, off as int));
                    assert(clamp(b, off as int) == clamp(end as int, off as int));
                    if lo < hi {
                        assert(parts_bytes(out@, scratch) == parts_bytes(before, scratch) + part_bytes(
                            out@.last(),
                            scratch,
                        ));
                    } else {
                        assert(y.subrange(clamp(a - off, len as int), clamp(b - off, len as int))
                            =~= Seq::<u8>::empty());
                        assert(parts_bytes(out@, scratch) =~= parts_bytes(before, scratch) + Seq::<
                            u8,
                        >::empty());
                    }
                }
                assert forall|k: int| 0 <= k < out@.len() implies #[trigger] nr_end(out@[k]) <= max_nr_end(
                    ps,
                ) by {
                    if k < before.len() {
                        assert(out@[k] == before[k]);
                    } else {
                        lemma_max_nr_end(ps, i as int);
                    }
                }
                if self.is_realized() {
                    assert forall|k: int| 0 <= k < out@.len() implies !(
                    #[trigger] out@[k] is NonRealizedMemory) by {
                        if k < before.len() {
                            assert(out@[k] == before[k]);
                        } else {
                            assert(ps[i as int] == self.parts()[i as int]);
                        }
                    }
                }
                assert forall|k: int| 0 <= k < out@.len() implies part_wf(#[trigger] out@[k]) by {
                    if k < before.len() {
                        assert(out@[k] == before[k]);
                    }
                }
            }
            off = off + len;
            i = i + 1;
        }
        let r = Span { parts: out };
        proof {
            assert(ps.take(i as int) =~= ps);
            assert forall|n: nat| self.fits(n) implies #[trigger] r.fits(n) by {
                lemma_max_nr_end_fits(ps, n);
            }
        }
        r
    }

    /// A copy of the span; pooled fragments are shared, owned bytes copied.
    pub fn copy(&self) -> (r: Span)
        requires
            self.wf(),
        ensures
            r.wf(),
            r.spec_len() == self.spec_len(),
            forall|scratch: Seq<u8>|
                self.fits(scratch.len()) ==> #[trigger] r.bytes_in(scratch) == self.bytes_in(scratch),
            self.is_realized() ==> r.is_realized(),
            forall|n: nat| self.fits(n) ==> #[trigger] r.fits(n),
    {
        let n = self.len();
        let r = self.slice(0, n);
        proof {
            assert forall|scratch: Seq<u8>|
                self.fits(scratch.len()) implies #[trigger] r.bytes_in(scratch) == self.bytes_in(scratch) by {
                lemma_parts_bytes_len(self.parts(), scratch);
                assert(self.bytes_in(scratch).subrange(0, n as int) =~= self.bytes_in(scratch));
            }
        }
        r
    }

    /// The bytes of the `i`th fragment of a realized span, for vectored output.
    pub fn fragment(&self, i: usize) -> (b: &[u8])
        requires
            self.wf(),
            self.is_realized(),
            i < self.parts().len(),
        ensures
            b@ == part_bytes(self.parts()[i as int], Seq::empty()),
    {
        let p = &self.parts[i];
        assert(part_wf(self.parts()[i as int]));
        assert(!(self.parts()[i as int] is NonRealizedMemory));
        match p {
            SpanPart::Single(b) => bytes_as_slice(b),
            SpanPart::RefCounted { memory, start, end } => slice_range(
                memory.as_slice(),
                *start,
                *end,
            ),
            SpanPart::NonRealizedMemory { .. } => {
                proof {
                    assert(false);
                }
                &[]
            },
        }
    }

    /// The number of fragments.
    pub fn fragment_count(&self) -> (n: usize)
        ensures
            n == self.parts().len(),
    {
        self.parts.len()
    }

    /// The bytes of a realized span in one contiguous vector.
    pub fn to_bytes(&self) -> (v: Vec<u8>)
        requires
            self.wf(),
            self.is_realized(),
        ensures
            v@ == self.bytes_in(Seq::empty()),
    {
        let mut v: Vec<u8> = Vec::new();
        let mut i: usize = 0;
        while i < self.parts.len()
            invariant
                self.wf(),
                self.is_realized(),
                i <= self.parts@.len(),
                v@ == parts_bytes(self.parts@.take(i as int), Seq::empty()),
            decreases self.parts@.len() - i,
        {
            let b = self.fragment(i);
            append_bytes(&mut v, b);
            proof {
                assert(self.parts@.take(i as int + 1).drop_last() =~= self.parts@.take(i as int));
                assert(self.parts@.take(i as int + 1).last() == self.parts@[i as int]);
            }
            i = i + 1;
        }
        proof {
            assert(self.parts@.take(i as int) =~= self.parts@);
        }
        v
    }

    /// Binds every unbound fragment to `memory`, which is shared from then on.
    pub fn realize_with_memory(&mut self, memory: Memory)
        requires
            old(self).wf(),
            old(self).fits(memory@.len()),
        ensures
            final(self).wf(),
            final(self).is_realized(),
            final(self).spec_len() == old(self).spec_len(),
            final(self).bytes_in(Seq::empty()) == old(self).bytes_in(memory@),
            final(self).parts().len() == old(self).parts().len(),
            forall|i: int|
                0 <= i < old(self).parts().len() ==> realized_from(
                    #[trigger] final(self).parts()[i],
                    old(self).parts()[i],
                    memory@,
                ),
    {
        let ghost mem = memory@;
        let shared = Arc::new(memory);
        let ghost ps = self.parts@;
        let mut rev: Vec<SpanPart> = Vec::new();
        while self.parts.len() > 0
            invariant
                self.parts@ + rev@.reverse() == ps,
            decreases self.parts@.len(),
        {
            let p = self.parts.pop().unwrap();
            let ghost r0 = rev@;
            rev.push(p);
            proof {
                assert(rev@.reverse() =~= seq![p] + r0.reverse());
                assert(self.parts@ + rev@.reverse() =~= ps);
            }
        }
        proof {
            assert(rev@.reverse() =~= ps);
        }
        while rev.len() > 0
            invariant
                shared@ == mem,
                forall|i: int| 0 <= i < ps.len() ==> part_wf(#[trigger] ps[i]),
                forall|i: int| 0 <= i < ps.len() ==> nr_end(#[trigger] ps[i]) <= mem.len(),
                self.parts@.len() + rev@.len() == ps.len(),
                rev@.reverse() == ps.subrange(self.parts@.len() as int, ps.len() as int),
                forall|i: int| 0 <= i < self.parts@.len() ==> part_wf(#[trigger] self.parts@[i]),
                forall|i: int|
                    0 <= i < self.parts@.len() ==> !(#[trigger] self.parts@[i] is NonRealizedMemory),
                parts_len(self.parts@) == parts_len(ps.take(self.parts@.len() as int)),
                parts_bytes(self.parts@, Seq::empty()) == parts_bytes(
                    ps.take(self.parts@.len() as int),
                    mem,
                ),
                forall|i: int|
                    0 <= i < self.parts@.len() ==> realized_from(#[trigger] self.parts@[i], ps[i], mem),
            decreases rev@.len(),
        {
            let k = self.parts.len();
            let ghost old_rev = rev@;
            let p = rev.pop().unwrap();
            proof {
                assert(old_rev == rev@.push(p));
                assert(old_rev.reverse() =~= seq![p] + rev@.reverse());
                assert(ps.subrange(k as int, ps.len() as int)[0] == ps[k as int]);
                assert(p == ps[k as int]);
                let t = seq![p] + rev@.reverse();
                assert(rev@.reverse() =~= t.subrange(1, t.len() as int));
                assert(t.subrange(1, t.len() as int) =~= ps.subrange(k as int + 1, ps.len() as int));
            }
            let q = match p {
                SpanPart::NonRealizedMemory { start, end } => SpanPart::RefCounted {
                    memory: share(&shared),
                    start,
                    end,
                },
                other => other,
            };
            let ghost before = self.parts@;
            self.parts.push(q);
            proof {
                assert(self.parts@.drop_last() == before);
                assert(ps.take(k as int + 1).drop_last() =~= ps.take(k as int));
                assert(ps.take(k as int + 1).last() == ps[k as int]);
                assert(part_bytes(q, Seq::empty()) =~= part_bytes(ps[k as int], mem));
                assert(rev@.reverse() =~= ps.subrange(self.parts@.len() as int, ps.len() as int));
                assert forall|i: int| 0 <= i < self.parts@.len() implies part_wf(#[trigger] self.parts@[i]) by {
                    if i < before.len() {
                        assert(self.parts@[i] == before[i]);
                    }
                }
                assert forall|i: int| 0 <= i < self.parts@.len() implies realized_from(
                    #[trigger] self.parts@[i],
                    ps[i],
                    mem,
                ) by {
                    if i < before.len() {
                        assert(self.parts@[i] == before[i]);
                    }
                }
                assert forall|i: int| 0 <= i < self.parts@.len() implies !(
                #[trigger] self.parts@[i] is NonRealizedMemory) by {
                    if i < before.len() {
                        assert(self.parts@[i] == before[i]);
                    }
                }
            }
        }
        proof {
            assert(ps.take(ps.len() as int) =~= ps);
        }
    }
}

/// Binding to a buffer: an unbound fragment becomes a shared reference to a buffer
/// with bytes `mem` at the same offsets; any other fragment stays as it was.
pub open spec fn realized_from(q: SpanPart, p: SpanPart, mem: Seq<u8>) -> bool {
    match p {
        SpanPart::NonRealizedMemory { start, end } => q matches SpanPart::RefCounted {
            memory,
            start: s2,
            end: e2,
        } && s2 == start && e2 == end && memory@ == mem,
        _ => q == p,
    }
}

/// Span slicing: the bytes of a slice are the window of the span's bytes.
pub proof fn lemma_span_slice(s: Span, r: Span, start: nat, end: nat, scratch: Seq<u8>)
    requires
        s.wf(),
        start <= end <= s.spec_len(),
        s.fits(scratch.len()),
        forall|sc: Seq<u8>|
            s.fits(sc.len()) ==> #[trigger] r.bytes_in(sc) == s.bytes_in(sc).subrange(
                start as int,
                end as int,
            ),
    ensures
        r.bytes_in(scratch) == s.bytes_in(scratch).subrange(start as int, end as int),
        s.bytes_in(scratch).len() == s.spec_len(),
{
    lemma_parts_bytes_len(s.parts(), scratch);
}


/// The largest end offset of the unbound fragments.
pub open spec fn max_nr_end(ps: Seq<SpanPart>) -> nat
    decreases ps.len(),
{
    if ps.len() == 0 {
        0
    } else {
        let m = max_nr_end(ps.drop_last());
        if nr_end(ps.last()) > m {
            nr_end(ps.last())
        } else {
            m
        }
    }
}

pub proof fn lemma_max_nr_end(ps: Seq<SpanPart>, i: int)
    requires
        0 <= i < ps.len(),
    ensures
        nr_end(ps[i]) <= max_nr_end(ps),
    decreases ps.len(),
{
    if i < ps.len() - 1 {
        lemma_max_nr_end(ps.drop_last(), i);
        assert(ps.drop_last()[i] == ps[i]);
    }
}

pub proof fn lemma_max_nr_end_fits(ps: Seq<SpanPart>, n: nat)
    requires
        forall|i: int| 0 <= i < ps.len() ==> nr_end(#[trigger] ps[i]) <= n,
    ensures
        max_nr_end(ps) <= n,
    decreases ps.len(),
{
    if ps.len() > 0 {
        let q = ps.drop_last();
        assert forall|i: int| 0 <= i < q.len() implies nr_end(#[trigger] q[i]) <= n by {
            assert(q[i] == ps[i]);
        }
        lemma_max_nr_end_fits(q, n);
        assert(nr_end(ps[ps.len() - 1]) <= n);
    }
}


/// Fragments with no unbound offset read the same whatever the scratch buffer.
pub proof fn lemma_realized_bytes(ps: Seq<SpanPart>, a: Seq<u8>, b: Seq<u8>)
    requires
        forall|i: int| 0 <= i < ps.len() ==> !(#[trigger] ps[i] is NonRealizedMemory),
    ensures
        parts_bytes(ps, a) == parts_bytes(ps, b),
    decreases ps.len(),
{
    if ps.len() > 0 {
        let q = ps.drop_last();
        assert forall|i: int| 0 <= i < q.len() implies !(#[trigger] q[i] is NonRealizedMemory) by {
            assert(q[i] == ps[i]);
        }
        lemma_realized_bytes(q, a, b);
        assert(!(ps[ps.len() - 1] is NonRealizedMemory));
    }
}


impl Span {
    /// Whether no fragment names an unbound scratch buffer.
    pub fn realized(&self) -> (b: bool)
        ensures
            b == self.is_realized(),
    {
        let mut i: usize = 0;
        while i < self.parts.len()
            invariant
                i <= self.parts@.len(),
                forall|k: int| 0 <= k < i ==> !(#[trigger] self.parts@[k] is NonRealizedMemory),
            decreases self.parts@.len() - i,
        {
            if let SpanPart::NonRealizedMemory { .. } = &self.parts[i] {
                return false;
            }
            i = i + 1;
        }
        true
    }

    /// Whether every unbound offset lies within a buffer of `n` bytes.
    pub fn fits_within(&self, n: usize) -> (b: bool)
        ensures
            b == self.fits(n as nat),
    {
        let mut i: usize = 0;
        while i < self.parts.len()
            invariant
                i <= self.parts@.len(),
                forall|k: int| 0 <= k < i ==> nr_end(#[trigger] self.parts@[k]) <= n,
            decreases self.parts@.len() - i,
        {
            if let SpanPart::NonRealizedMemory { end, .. } = &self.parts[i] {
                if *end > n {
                    proof {
                        assert(nr_end(self.parts()[i as int]) > n);
                    }
                    return false;
                }
            }
            i = i + 1;
        }
        true
    }
}

} // verus!
