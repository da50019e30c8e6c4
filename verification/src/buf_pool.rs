//! A bounded pool of reusable byte buffers.
use vstd::prelude::*;
use crossbeam_queue::ArrayQueue;

verus! {

/// `crossbeam_queue::ArrayQueue`, a bounded queue.
#[verifier::external_type_specification]
#[verifier::external_body]
#[verifier::reject_recursive_types(T)]
pub struct ExArrayQueue<T>(ArrayQueue<T>);

/// The buffers a queue holds, oldest first.
pub uninterp spec fn queue_items(q: ArrayQueue<Vec<u8>>) -> Seq<Seq<u8>>;

/// The capacity a queue was made with.
pub uninterp spec fn queue_capacity(q: ArrayQueue<Vec<u8>>) -> nat;

/// `ArrayQueue::new`: an empty queue holding at most `cap` items. It panics
/// for a zero capacity, and for one it cannot allocate.
#[verifier::external_body]
fn queue_new(cap: usize) -> (q: ArrayQueue<Vec<u8>>)
    requires
        0 < cap <= isize::MAX / 64,
    ensures
        queue_items(q) == Seq::<Seq<u8>>::empty(),
        queue_capacity(q) == cap,
{
    ArrayQueue::new(cap)
}

/// `ArrayQueue::pop`: takes the oldest item, if any.
#[verifier::external_body]
fn queue_pop(q: &mut ArrayQueue<Vec<u8>>) -> (item: Option<Vec<u8>>)
    ensures
        queue_capacity(*final(q)) == queue_capacity(*old(q)),
        queue_items(*old(q)).len() == 0 ==> item is None && queue_items(*final(q)) == queue_items(*old(q)),
        queue_items(*old(q)).len() > 0 ==> (item matches Some(v) && v@ == queue_items(*old(q))[0])
            && queue_items(*final(q)) == queue_items(*old(q)).drop_first(),
{
    q.pop()
}

/// `ArrayQueue::push`: adds `item` at the back unless the queue is full, in
/// which case the item is given back (and dropped here). Says whether it
/// was added.
#[verifier::external_body]
fn queue_push(q: &mut ArrayQueue<Vec<u8>>, item: Vec<u8>) -> (added: bool)
    ensures
        queue_capacity(*final(q)) == queue_capacity(*old(q)),
        added == (queue_items(*old(q)).len() < queue_capacity(*old(q))),
        added ==> queue_items(*final(q)) == queue_items(*old(q)).push(item@),
        !added ==> queue_items(*final(q)) == queue_items(*old(q)),
{
    q.push(item).is_ok()
}

/// `ArrayQueue::len`: the number of items.
#[verifier::external_body]
fn queue_len(q: &ArrayQueue<Vec<u8>>) -> (n: usize)
    ensures
        n == queue_items(*q).len(),
{
    q.len()
}

/// `n` zero bytes.
pub open spec fn zeros(n: nat) -> Seq<u8> {
    Seq::new(n, |i: int| 0u8)
}

/// `v` cut or padded with zeros to `n` bytes.
pub open spec fn resized(v: Seq<u8>, n: nat) -> Seq<u8> {
    if n <= v.len() {
        v.subrange(0, n as int)
    } else {
        v + zeros((n - v.len()) as nat)
    }
}

/// A pool of byte buffers of one size, keeping at most a fixed number of
/// idle buffers for reuse.
pub struct BufPool {
    queue: ArrayQueue<Vec<u8>>,
    buf_size: usize,
}

impl BufPool {
    /// The idle buffers, oldest first.
    pub closed spec fn idle(&self) -> Seq<Seq<u8>> {
        queue_items(self.queue)
    }

    /// The most idle buffers kept.
    pub closed spec fn capacity(&self) -> nat {
        queue_capacity(self.queue)
    }

    /// The size of the buffers handed out.
    pub closed spec fn size(&self) -> usize {
        self.buf_size
    }

    /// A pool never keeps more idle buffers than its capacity.
    pub open spec fn well_formed(&self) -> bool {
        self.idle().len() <= self.capacity()
    }

    /// A pool of `buf_size`-byte buffers keeping at most `capacity` idle.
    pub fn new(buf_size: usize, capacity: usize) -> (p: BufPool)
        requires
            0 < capacity <= isize::MAX / 64,
        ensures
            p.idle() == Seq::<Seq<u8>>::empty(),
            p.well_formed(),
            p.capacity() == capacity,
            p.size() == buf_size,
    {
        BufPool { queue: queue_new(capacity), buf_size }
    }

    /// A buffer of the pool's size: the oldest idle one, resized, or a new
    /// zero-filled one when none is idle.
    pub fn get(&mut self) -> (buf: Vec<u8>)
        requires
            old(self).well_formed(),
        ensures
            final(self).well_formed(),
            buf@.len() == old(self).size(),
            buf@ == if old(self).idle().len() > 0 {
                resized(old(self).idle()[0], old(self).size() as nat)
            } else {
                zeros(old(self).size() as nat)
            },
            final(self).idle() == if old(self).idle().len() > 0 {
                old(self).idle().drop_first()
            } else {
                old(self).idle()
            },
            final(self).capacity() == old(self).capacity(),
            final(self).size() == old(self).size(),
    {
        let mut buf = match queue_pop(&mut self.queue) {
            Some(b) => b,
            None => vec![0u8; self.buf_size],
        };
        let ghost before = buf@;
        buf.resize(self.buf_size, 0);
        proof {
            let n = self.buf_size as nat;
            if n > before.len() {
                assert(buf@ =~= before + zeros((n - before.len()) as nat)) by {
                    assert forall|i: int| before.len() <= i < n implies buf@[i] == 0u8 by {
                        assert(cloned::<u8>(0u8, buf@[i]));
                    }
                    assert(buf@.subrange(0, before.len() as int) == before);
                }
            }
            if old(self).idle().len() == 0 {
                assert(before.len() == n);
                assert forall|i: int| 0 <= i < n implies before[i] == 0u8 by {
                    assert(cloned::<u8>(0u8, before[i]));
                }
                assert(buf@ =~= zeros(n));
            }
        }
        buf
    }

    /// Gives a buffer back: it is emptied and kept when fewer than the
    /// capacity are idle, dropped otherwise.
    pub fn put(&mut self, buf: Vec<u8>)
        requires
            old(self).well_formed(),
        ensures
            final(self).well_formed(),
            final(self).idle() == if old(self).idle().len() < old(self).capacity() {
                old(self).idle().push(Seq::<u8>::empty())
            } else {
                old(self).idle()
            },
            final(self).capacity() == old(self).capacity(),
            final(self).size() == old(self).size(),
    {
        let mut buf = buf;
        buf.clear();
        let _ = queue_push(&mut self.queue, buf);
    }

    /// The number of idle buffers.
    pub fn available(&self) -> (n: usize)
        ensures
            n == self.idle().len(),
    {
        queue_len(&self.queue)
    }

    /// The size of the buffers handed out.
    pub fn buf_size(&self) -> (n: usize)
        ensures
            n == self.size(),
    {
        self.buf_size
    }
}

} // verus!
