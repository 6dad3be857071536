//! A pool of reusable byte buffers that come back to it when dropped.
use std::sync::mpsc::{Receiver, Sender};
use vstd::prelude::*;

verus! {

#[verifier::external_type_specification]
#[verifier::external_body]
#[verifier::reject_recursive_types(T)]
pub struct ExSender<T>(Sender<T>);

#[verifier::external_type_specification]
#[verifier::external_body]
#[verifier::reject_recursive_types(T)]
pub struct ExReceiver<T>(Receiver<T>);

/// Relies on `Sender::clone`: another sender on the same channel.
pub assume_specification<T>[ <Sender<T> as Clone>::clone ](s: &Sender<T>) -> Sender<T>;

/// Relies on `std::sync::mpsc::channel`: a connected sender and receiver.
#[verifier::external_body]
fn open_channel() -> (r: (Sender<Vec<u8>>, Receiver<Vec<u8>>)) {
    std::sync::mpsc::channel()
}

/// Relies on `Sender::send`, which never blocks; a closed receiver drops the buffer.
/// The buffer is moved out of `buf`, which is left empty.
#[verifier::external_body]
fn send_back(send: &Sender<Vec<u8>>, buf: &mut Vec<u8>)
    opens_invariants none
    no_unwind
{
    let _ = send.send(std::mem::take(buf));
}

/// Relies on `Receiver::try_recv`: a buffer that was sent and not yet received, if any.
#[verifier::external_body]
fn try_receive(recv: &Receiver<Vec<u8>>) -> (r: Option<Vec<u8>>) {
    recv.try_recv().ok()
}

/// Relies on `Receiver::recv`: waits for a buffer to be sent back; `None` only when
/// every sender is gone.
#[verifier::external_body]
fn receive(recv: &Receiver<Vec<u8>>) -> (r: Option<Vec<u8>>) {
    recv.recv().ok()
}

/// A buffer taken from a pool; dropping it sends it back.
pub struct Memory {
    memory: Vec<u8>,
    send: Sender<Vec<u8>>,
}

impl View for Memory {
    type V = Seq<u8>;

    closed spec fn view(&self) -> Seq<u8> {
        self.memory@
    }
}

impl Drop for Memory {
    fn drop(&mut self)
        opens_invariants none
        no_unwind
    {
        send_back(&self.send, &mut self.memory);
    }
}

impl Memory {
    /// The buffer's size in bytes.
    pub fn len(&self) -> (n: usize)
        ensures
            n == self@.len(),
    {
        self.memory.len()
    }

    /// The buffer's bytes.
    pub fn as_slice(&self) -> (s: &[u8])
        ensures
            s@ == self@,
    {
        self.memory.as_slice()
    }

    /// Overwrites the bytes from `offset` on with `src`.
    pub fn write_at(&mut self, offset: usize, src: &[u8])
        requires
            offset + src@.len() <= old(self)@.len(),
        ensures
            final(self)@ == old(self)@.subrange(0, offset as int) + src@ + old(self)@.subrange(
                offset + src@.len(),
                old(self)@.len() as int,
            ),
    {
        let mut i: usize = 0;
        while i < src.len()
            invariant
                i <= src@.len(),
                offset + src@.len() <= old(self)@.len(),
                self.memory@.len() == old(self)@.len(),
                self.memory@ == old(self)@.subrange(0, offset as int) + src@.subrange(0, i as int)
                    + old(self)@.subrange(offset + i, old(self)@.len() as int),
            decreases src@.len() - i,
        {
            let n = self.memory.len();
            assert(offset + i < n);
            self.memory.set(offset + i, src[i]);
            i = i + 1;
            proof {
                assert(self.memory@ =~= old(self)@.subrange(0, offset as int) + src@.subrange(0, i as int)
                    + old(self)@.subrange(offset + i, old(self)@.len() as int));
            }
        }
        proof {
            assert(src@.subrange(0, i as int) =~= src@);
        }
    }
}

/// How a pool allocates.
pub struct MemoryPoolConfig {
    /// The most buffers the pool creates; `None` for no bound.
    pub max_capacity: Option<usize>,
    /// The least size of a newly created buffer.
    pub default_memory_capacity: usize,
}

/// Where an allocation comes from, given the free buffers `free`.
pub enum Pick {
    /// The free buffer at this index, taken as it is.
    Reuse(int),
    /// A new buffer of this many zero bytes.
    Create(nat),
    /// The free buffer at this index, grown with zeros to the requested size.
    Grow(int),
    /// Nothing can be handed out now.
    Exhausted,
}

/// Whether `k` indexes a smallest free buffer of at least `size` bytes, the first
/// of equals.
pub open spec fn is_smallest_fit(free: Seq<Seq<u8>>, size: nat, k: int) -> bool {
    &&& 0 <= k < free.len()
    &&& free[k].len() >= size
    &&& forall|j: int| 0 <= j < free.len() && free[j].len() >= size ==> free[j].len() >= free[k].len()
    &&& forall|j: int| 0 <= j < k && free[j].len() >= size ==> free[j].len() > free[k].len()
}

/// Index of the smallest free buffer of at least `size` bytes (the first of equals),
/// if any.
pub open spec fn smallest_fit(free: Seq<Seq<u8>>, size: nat) -> Option<int> {
    if exists|i: int| #[trigger] is_smallest_fit(free, size, i) {
        Some(choose|i: int| #[trigger] is_smallest_fit(free, size, i))
    } else {
        None
    }
}

/// Index of the smallest free buffer (the first of equals), if any.
pub open spec fn smallest(free: Seq<Seq<u8>>) -> Option<int> {
    smallest_fit(free, 0)
}

/// The allocation rule: the smallest free buffer that fits; else a new buffer of
/// `max(size, default)` bytes while the bound allows; else the smallest free buffer
/// grown to `size`; else nothing.
pub open spec fn spec_pick(
    free: Seq<Seq<u8>>,
    size: nat,
    max: Option<usize>,
    count: nat,
    default: nat,
) -> Pick {
    match smallest_fit(free, size) {
        Some(i) => Pick::Reuse(i),
        None => if max is None || count < max->0 {
            Pick::Create(if size > default {
                size
            } else {
                default
            })
        } else {
            match smallest(free) {
                Some(i) => Pick::Grow(i),
                None => Pick::Exhausted,
            }
        },
    }
}

/// What `take_free` does, by the allocation rule.
pub open spec fn take_free_post(
    pre: MemoryPoolImpl,
    post: MemoryPoolImpl,
    size: nat,
    r: Option<Seq<u8>>,
) -> bool {
    let free = pre.free();
    match spec_pick(free, size, pre.max_capacity(), pre.count(), pre.default_capacity()) {
        Pick::Reuse(i) => {
            &&& r is Some
            &&& r->0 == free[i]
            &&& post.free() == free.update(i, free.last()).drop_last()
            &&& post.count() == pre.count()
        },
        Pick::Create(n) => {
            &&& r is Some
            &&& r->0 == Seq::new(n, |k: int| 0u8)
            &&& post.free() == free
            &&& post.count() == if pre.count() < usize::MAX {
                pre.count() + 1
            } else {
                pre.count()
            }
        },
        Pick::Grow(i) => {
            &&& r is Some
            &&& r->0 == free[i] + Seq::new((size - free[i].len()) as nat, |k: int| 0u8)
            &&& post.free() == free.update(i, free.last()).drop_last()
            &&& post.count() == pre.count()
        },
        Pick::Exhausted => {
            &&& r is None
            &&& post.free() == free
            &&& post.count() == pre.count()
        },
    }
}

/// The bytes of an optional buffer.
pub open spec fn opt_bytes(r: Option<Vec<u8>>) -> Option<Seq<u8>> {
    match r {
        Some(v) => Some(v@),
        None => None,
    }
}

/// The bytes of an optional pool buffer.
pub open spec fn opt_memory(r: Option<Memory>) -> Option<Seq<u8>> {
    match r {
        Some(m) => Some(m@),
        None => None,
    }
}

/// Pool recycling: once a buffer is back in an otherwise empty pool, a request of at
/// most its size gets that very buffer, with no new allocation.
pub proof fn lemma_pool_recycling(
    m: Seq<u8>,
    size: nat,
    max: Option<usize>,
    count: nat,
    default: nat,
)
    requires
        size <= m.len(),
    ensures
        spec_pick(seq![m], size, max, count, default) == Pick::Reuse(0),
{
    let free = seq![m];
    assert(is_smallest_fit(free, size, 0));
    let c = choose|k: int| #[trigger] is_smallest_fit(free, size, k);
    assert(is_smallest_fit(free, size, c));
}

/// The bound on created buffers is not reached.
pub open spec fn under_cap(p: MemoryPoolImpl) -> bool {
    p.max_capacity() is None || p.count() < p.max_capacity()->0
}

/// `mid` is the pool after returned buffers were made free, and the allocation rule
/// applied to it gave `post` and `m`.
pub open spec fn alloc_mid(
    pre: MemoryPoolImpl,
    mid: MemoryPoolImpl,
    post: MemoryPoolImpl,
    size: nat,
    m: Option<Seq<u8>>,
) -> bool {
    &&& pre.free().is_prefix_of(mid.free())
    &&& mid.count() == pre.count()
    &&& mid.max_capacity() == pre.max_capacity()
    &&& mid.default_capacity() == pre.default_capacity()
    &&& take_free_post(mid, post, size, m)
}

/// An allocation follows the allocation rule on the free buffers, after those that
/// came back were added to them.
pub open spec fn alloc_post(pre: MemoryPoolImpl, post: MemoryPoolImpl, size: nat, m: Option<Seq<u8>>) -> bool {
    exists|mid: MemoryPoolImpl| #[trigger] alloc_mid(pre, mid, post, size, m)
}

pub proof fn lemma_prefix_trans(a: Seq<Seq<u8>>, b: Seq<Seq<u8>>, c: Seq<Seq<u8>>)
    requires
        a.is_prefix_of(b),
        b.is_prefix_of(c),
    ensures
        a.is_prefix_of(c),
{
    assert forall|i: int| 0 <= i < a.len() implies a[i] == c[i] by {
        assert(a[i] == b[i]);
    }
}

/// The pool's state: free buffers, configuration, and a channel on which dropped
/// buffers come back.
pub struct MemoryPoolImpl {
    pool: Vec<Vec<u8>>,
    config: MemoryPoolConfig,
    alloc_count: usize,
    recv: Receiver<Vec<u8>>,
    send: Sender<Vec<u8>>,
}

impl MemoryPoolImpl {
    /// The free buffers.
    pub closed spec fn free(&self) -> Seq<Seq<u8>> {
        self.pool@.map_values(|v: Vec<u8>| v@)
    }

    /// The number of buffers created so far.
    pub closed spec fn count(&self) -> nat {
        self.alloc_count as nat
    }

    pub closed spec fn max_capacity(&self) -> Option<usize> {
        self.config.max_capacity
    }

    pub closed spec fn default_capacity(&self) -> nat {
        self.config.default_memory_capacity as nat
    }

    /// Well-formed: the count of created buffers stays within the bound.
    pub closed spec fn wf(&self) -> bool {
        self.config.max_capacity is Some ==> self.alloc_count <= self.config.max_capacity->0
    }

    /// An empty pool.
    pub fn new(config: MemoryPoolConfig) -> (p: Self)
        ensures
            p.wf(),
            p.free().len() == 0,
            p.count() == 0,
            p.max_capacity() == config.max_capacity,
            p.default_capacity() == config.default_memory_capacity,
    {
        let (send, recv) = open_channel();
        let p = MemoryPoolImpl { pool: Vec::new(), config, alloc_count: 0, recv, send };
        proof {
            assert(p.free() =~= Seq::<Seq<u8>>::empty());
        }
        p
    }

    /// Takes a buffer of at least `size` bytes, waiting for one to come back when the
    /// bound is reached and none is free.
    pub fn alloc_wait(&mut self, size: usize) -> (m: Option<Memory>)
        requires
            old(self).wf(),
        ensures
            final(self).wf(),
            m matches Some(mem) ==> mem@.len() >= size,
            final(self).max_capacity() == old(self).max_capacity(),
            final(self).default_capacity() == old(self).default_capacity(),
            under_cap(*old(self)) ==> m is Some,
            alloc_post(*old(self), *final(self), size as nat, opt_memory(m)),
    {
        let ghost s0 = *self;
        let first = self.try_alloc(size);
        if first.is_some() {
            return first;
        }
        let ghost s1 = *self;
        proof {
            let mid1 = choose|mid: MemoryPoolImpl| #[trigger] alloc_mid(s0, mid, *self, size as nat, None);
            assert(alloc_mid(s0, mid1, *self, size as nat, None));
        }
        match receive(&self.recv) {
            Some(buf) => {
                self.pool.push(buf);
                proof {
                    assert(self.free() =~= s1.free().push(buf@));
                    let mid1 = choose|mid: MemoryPoolImpl| #[trigger] alloc_mid(s0, mid, s1, size as nat, None);
                    assert(s1.free() == mid1.free());
                    lemma_prefix_trans(s0.free(), s1.free(), self.free());
                }
                let ghost s2 = *self;
                let second = self.try_alloc(size);
                proof {
                    let mid2 = choose|mid: MemoryPoolImpl|
                        #[trigger] alloc_mid(s2, mid, *self, size as nat, opt_memory(second));
                    lemma_prefix_trans(s0.free(), s2.free(), mid2.free());
                    assert(alloc_mid(s0, mid2, *self, size as nat, opt_memory(second)));
                }
                second
            },
            None => None,
        }
    }

    /// Takes a buffer of at least `size` bytes without waiting: first the buffers
    /// that came back are made free, then the allocation rule picks.
    pub fn try_alloc(&mut self, size: usize) -> (m: Option<Memory>)
        requires
            old(self).wf(),
        ensures
            final(self).wf(),
            m matches Some(mem) ==> mem@.len() >= size,
            final(self).max_capacity() == old(self).max_capacity(),
            final(self).default_capacity() == old(self).default_capacity(),
            under_cap(*old(self)) ==> m is Some,
            alloc_post(*old(self), *final(self), size as nat, opt_memory(m)),
    {
        self.reclaim();
        let ghost mid = *self;
        let r = match self.take_free(size) {
            Some(buf) => Some(self.create_memory(buf)),
            None => None,
        };
        proof {
            assert(alloc_mid(*old(self), mid, *self, size as nat, opt_memory(r)));
        }
        r
    }

    /// Makes free every buffer that came back.
    fn reclaim(&mut self)
        requires
            old(self).wf(),
        ensures
            final(self).wf(),
            final(self).count() == old(self).count(),
            final(self).max_capacity() == old(self).max_capacity(),
            final(self).default_capacity() == old(self).default_capacity(),
            old(self).free().is_prefix_of(final(self).free()),
    {
        let ghost start = self.free();
        let mut more = try_receive(&self.recv);
        let mut rounds: usize = 0;
        while more.is_some() && rounds < usize::MAX
            invariant
                self.wf(),
                self.alloc_count == old(self).alloc_count,
                self.config.max_capacity == old(self).config.max_capacity,
                self.config.default_memory_capacity == old(self).config.default_memory_capacity,
                start == old(self).free(),
                start.is_prefix_of(self.free()),
            decreases usize::MAX - rounds,
        {
            match more {
                Some(buf) => {
                    let ghost before = self.free();
                    self.pool.push(buf);
                    proof {
                        assert(self.free() =~= before.push(buf@));
                        assert(start.is_prefix_of(self.free())) by {
                            assert forall|i: int| 0 <= i < start.len() implies start[i] == self.free()[i] by {
                                assert(before[i] == start[i]);
                            }
                        }
                    }
                },
                None => {},
            }
            more = try_receive(&self.recv);
            rounds = rounds + 1;
        }
    }

    fn create_memory(&self, memory: Vec<u8>) -> (m: Memory)
        ensures
            m@ == memory@,
    {
        Memory { memory, send: self.send.clone() }
    }

    /// Applies the allocation rule to the free buffers.
    pub fn take_free(&mut self, size: usize) -> (r: Option<Vec<u8>>)
        requires
            old(self).wf(),
        ensures
            final(self).wf(),
            final(self).max_capacity() == old(self).max_capacity(),
            final(self).default_capacity() == old(self).default_capacity(),
            take_free_post(*old(self), *final(self), size as nat, opt_bytes(r)),
    {
        let ghost free = self.free();
        if let Some(i) = self.find_best_alloc(size) {
            let b = self.pool.swap_remove(i);
            proof {
                assert(self.free() =~= free.update(i as int, free.last()).drop_last());
                assert(free[i as int] == b@);
            }
            return Some(b);
        }
        let capped = match self.config.max_capacity {
            Some(max) => self.alloc_count >= max,
            None => false,
        };
        if !capped {
            let n = if size > self.config.default_memory_capacity {
                size
            } else {
                self.config.default_memory_capacity
            };
            if self.alloc_count < usize::MAX {
                self.alloc_count = self.alloc_count + 1;
            }
            return Some(zeroed(n));
        }
        if let Some(i) = self.find_best_alloc(0) {
            let mut b = self.pool.swap_remove(i);
            proof {
                assert(self.free() =~= free.update(i as int, free.last()).drop_last());
                assert(free[i as int] == b@);
            }
            grow_to(&mut b, size);
            return Some(b);
        }
        None
    }

    /// The index that `smallest_fit` names, found by a scan.
    fn find_best_alloc(&self, size: usize) -> (r: Option<usize>)
        ensures
            r matches Some(i) ==> smallest_fit(self.free(), size as nat) == Some(i as int) && i
                < self.pool@.len(),
            r is None ==> smallest_fit(self.free(), size as nat) is None,
            r is None ==> forall|j: int| 0 <= j < self.free().len() ==> self.free()[j].len() < size,
    {
        let ghost free = self.free();
        let mut best: Option<usize> = None;
        let mut i: usize = 0;
        while i < self.pool.len()
            invariant
                free == self.free(),
                free.len() == self.pool@.len(),
                i <= free.len(),
                best is None ==> forall|j: int| 0 <= j < i ==> free[j].len() < size,
                best matches Some(b) ==> b < i && free[b as int].len() >= size && (forall|j: int|
                    0 <= j < i && free[j].len() >= size ==> free[j].len() >= free[b as int].len())
                    && (forall|j: int|
                    0 <= j < b && free[j].len() >= size ==> free[j].len() > free[b as int].len()),
            decreases self.pool@.len() - i,
        {
            let len = self.pool[i].len();
            proof {
                assert(free[i as int] == self.pool@[i as int]@);
            }
            if len >= size {
                match best {
                    Some(b) => {
                        if len < self.pool[b].len() {
                            best = Some(i);
                        }
                    },
                    None => {
                        best = Some(i);
                    },
                }
            }
            i = i + 1;
        }
        match best {
            Some(b) => {
                proof {
                    assert(is_smallest_fit(free, size as nat, b as int));
                    let c = choose|k: int| #[trigger] is_smallest_fit(free, size as nat, k);
                    assert(is_smallest_fit(free, size as nat, c));
                    if c < b {
                        assert(free[c].len() > free[b as int].len());
                    } else if c > b {
                        assert(free[b as int].len() > free[c].len());
                    }
                }
                Some(b)
            },
            None => {
                proof {
                    assert forall|k: int| !is_smallest_fit(free, size as nat, k) by {
                        if 0 <= k < free.len() {
                            assert(free[k].len() < size);
                        }
                    }
                }
                None
            },
        }
    }
}

/// A buffer of `n` zero bytes.
fn zeroed(n: usize) -> (v: Vec<u8>)
    ensures
        v@ == Seq::new(n as nat, |k: int| 0u8),
{
    let mut v: Vec<u8> = Vec::new();
    grow_to(&mut v, n);
    proof {
        assert(v@ =~= Seq::new(n as nat, |k: int| 0u8));
    }
    v
}

/// Appends zeros until the buffer holds `size` bytes.
fn grow_to(v: &mut Vec<u8>, size: usize)
    ensures
        old(v)@.len() >= size ==> final(v)@ == old(v)@,
        old(v)@.len() < size ==> final(v)@ == old(v)@ + Seq::new(
            (size - old(v)@.len()) as nat,
            |k: int| 0u8,
        ),
{
    let ghost start = v@;
    while v.len() < size
        invariant
            start == old(v)@,
            v@.len() >= start.len(),
            v@.len() <= size || v@ == start,
            v@ == start + Seq::new((v@.len() - start.len()) as nat, |k: int| 0u8),
        decreases size - v@.len(),
    {
        v.push(0);
        proof {
            assert(v@ =~= start + Seq::new((v@.len() - start.len()) as nat, |k: int| 0u8));
        }
    }
    proof {
        if start.len() >= size {
            assert(v@ =~= start);
        }
    }
}


/// A pool of reusable buffers.
pub struct MemoryPool {
    internal: MemoryPoolImpl,
}

impl MemoryPool {
    /// The pool's state.
    pub closed spec fn state(&self) -> MemoryPoolImpl {
        self.internal
    }

    pub open spec fn wf(&self) -> bool {
        self.state().wf()
    }

    /// An empty pool.
    pub fn new(config: MemoryPoolConfig) -> (p: Self)
        ensures
            p.wf(),
            p.state().free().len() == 0,
            p.state().count() == 0,
            p.state().max_capacity() == config.max_capacity,
            p.state().default_capacity() == config.default_memory_capacity,
    {
        MemoryPool { internal: MemoryPoolImpl::new(config) }
    }

    /// Takes a buffer of at least `size` bytes, waiting for one to come back when the
    /// bound is reached and none is free.
    pub fn alloc_wait(&mut self, size: usize) -> (m: Option<Memory>)
        requires
            old(self).wf(),
        ensures
            final(self).wf(),
            m matches Some(mem) ==> mem@.len() >= size,
            under_cap(old(self).state()) ==> m is Some,
            alloc_post(old(self).state(), final(self).state(), size as nat, opt_memory(m)),
    {
        self.internal.alloc_wait(size)
    }

    /// Takes a buffer of at least `size` bytes without waiting, by the allocation rule
    /// applied after the returned buffers are made free.
    pub fn try_alloc(&mut self, size: usize) -> (m: Option<Memory>)
        requires
            old(self).wf(),
        ensures
            final(self).wf(),
            m matches Some(mem) ==> mem@.len() >= size,
            under_cap(old(self).state()) ==> m is Some,
            alloc_post(old(self).state(), final(self).state(), size as nat, opt_memory(m)),
    {
        self.internal.try_alloc(size)
    }
}

} // verus!
