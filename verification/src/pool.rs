//! A pool of buffers that connections take and give back.
//!
//! The queue behind it is changed through an exclusive reference only, so no other thread can be
//! inside it while one of these functions runs.
use crossbeam::queue::SegQueue;
use vstd::prelude::*;

verus! {

/// The unbounded queue of the `crossbeam` crate.
#[verifier::external_type_specification]
#[verifier::external_body]
#[verifier::reject_recursive_types(T)]
pub struct ExSegQueue<T>(SegQueue<T>);

/// The buffers that a queue holds, by their bytes, from the first to the last.
pub uninterp spec fn queued(queue: SegQueue<Vec<u8>>) -> Seq<Seq<u8>>;

/// Trusted: `SegQueue::new` makes an empty queue.
#[verifier::external_body]
fn new_queue() -> (queue: SegQueue<Vec<u8>>)
    ensures
        (queued(queue) == Seq::<Seq<u8>>::empty()),
{
    SegQueue::new()
}

/// Trusted: `SegQueue::push` puts a buffer behind the others.
#[verifier::external_body]
fn enqueue(queue: &mut SegQueue<Vec<u8>>, buffer: Vec<u8>)
    ensures
        queued(*final(queue)) == queued(*old(queue)).push(buffer@),
{
    queue.push(buffer)
}

/// Trusted: `SegQueue::pop` takes out the first buffer, if there is one.
#[verifier::external_body]
fn dequeue(queue: &mut SegQueue<Vec<u8>>) -> (buffer: Option<Vec<u8>>)
    ensures
        buffer is Some <==> queued(*old(queue)).len() > 0,
        buffer is Some ==> buffer.unwrap()@ == queued(*old(queue))[0],
        buffer is Some ==> queued(*final(queue)) == queued(*old(queue)).skip(1),
        buffer is None ==> queued(*final(queue)) == queued(*old(queue)),
{
    queue.pop()
}

/// Trusted: `SegQueue::len` is the number of buffers.
#[verifier::external_body]
fn queue_len(queue: &SegQueue<Vec<u8>>) -> (len: usize)
    ensures
        len == queued(*queue).len(),
{
    queue.len()
}

/// Trusted: `Vec::capacity` is the number of bytes that the buffer has room for, those that it
/// holds included. Nothing is said of how many more there is room for.
#[verifier::external_body]
fn room_in(buffer: &Vec<u8>) -> (capacity: usize)
    ensures
        capacity >= buffer@.len(),
{
    buffer.capacity()
}

/// Empty buffers of about the same size.
pub struct BufferPool {
    queue: SegQueue<Vec<u8>>,
    buffer_size: usize,
    pool_size: usize,
}

/// Whether a buffer of some capacity is kept: a buffer of up to twice the usual size is; one of up
/// to four times that size is as long as the pool holds less than a quarter of its buffers.
pub open spec fn kept(capacity: usize, buffer_size: usize, held: nat, pool_size: usize) -> bool {
    ||| capacity <= buffer_size * 2
    ||| capacity <= buffer_size * 4 && held < pool_size / 4
}

/// A buffer of up to twice the usual size is always kept, and one of more than four times that size
/// never; one in between is kept by a pool that could hold four times the buffers it would hold
/// then, and no other.
pub proof fn law_large_buffers_are_let_go(
    capacity: usize,
    buffer_size: usize,
    held: nat,
    pool_size: usize,
)
    ensures
        capacity <= buffer_size + buffer_size ==> kept(capacity, buffer_size, held, pool_size),
        capacity > 4 * buffer_size ==> !kept(capacity, buffer_size, held, pool_size),
        buffer_size + buffer_size < capacity <= 4 * buffer_size ==> kept(
            capacity,
            buffer_size,
            held,
            pool_size,
        ) == (4 * (held + 1) <= pool_size),
{
}

/// Whether a buffer of some capacity is kept.
pub fn keeps_buffer(capacity: usize, buffer_size: usize, held: usize, pool_size: usize) -> (keeps:
    bool)
    ensures
        keeps == kept(capacity, buffer_size, held as nat, pool_size),
{
    let size: u128 = buffer_size as u128;
    capacity as u128 <= size * 2 || (capacity as u128 <= size * 4 && held < pool_size / 4)
}

impl BufferPool {
    /// How many buffers the pool holds.
    pub closed spec fn held(self) -> nat {
        queued(self.queue).len()
    }

    /// The size with which buffers are made.
    pub closed spec fn buffer_size(self) -> usize {
        self.buffer_size
    }

    /// The number of buffers with which the pool started.
    pub closed spec fn pool_size(self) -> usize {
        self.pool_size
    }

    /// The buffers in the pool are empty.
    pub closed spec fn wf(self) -> bool {
        &&& self.buffer_size <= isize::MAX
        &&& forall|i: int|
            0 <= i < queued(self.queue).len() ==> (#[trigger] queued(self.queue)[i]).len() == 0
    }

    /// A pool of `pool_size` buffers with room for `buffer_size` bytes each.
    pub fn new(pool_size: usize, buffer_size: usize) -> (pool: BufferPool)
        requires
            buffer_size <= isize::MAX,
        ensures
            pool.wf(),
            pool.held() == pool_size,
            pool.buffer_size() == buffer_size,
            pool.pool_size() == pool_size,
    {
        let mut queue = new_queue();
        let mut i: usize = 0;
        while i < pool_size
            invariant
                i <= pool_size,
                queued(queue).len() == i,
                forall|j: int| 0 <= j < i ==> (#[trigger] queued(queue)[j]).len() == 0,
            decreases pool_size - i,
        {
            enqueue(&mut queue, Vec::with_capacity(buffer_size));
            i += 1;
        }
        BufferPool { queue, buffer_size, pool_size }
    }

    /// How many buffers the pool holds.
    pub fn len(&self) -> (held: usize)
        ensures
            held == self.held(),
    {
        queue_len(&self.queue)
    }
}

/// A buffer was taken from the pool, or made where it held none.
pub open spec fn lends(before: BufferPool, after: BufferPool) -> bool {
    &&& after.held() == (if before.held() > 0 {
        (before.held() - 1) as nat
    } else {
        0
    })
    &&& after.buffer_size() == before.buffer_size()
    &&& after.pool_size() == before.pool_size()
}

/// A buffer with room for `capacity` bytes was given back, and kept or not.
pub open spec fn takes_back(before: BufferPool, capacity: usize, after: BufferPool) -> bool {
    &&& after.buffer_size() == before.buffer_size()
    &&& after.pool_size() == before.pool_size()
    &&& after.held() == before.held() + (if kept(
        capacity,
        before.buffer_size(),
        before.held(),
        before.pool_size(),
    ) {
        1nat
    } else {
        0nat
    })
}

/// A buffer of the usual size that is taken from a pool and given back leaves it with as many as
/// before, or with one more than none.
pub proof fn law_buffers_come_back(
    before: BufferPool,
    lent: BufferPool,
    capacity: usize,
    after: BufferPool,
)
    requires
        lends(before, lent),
        takes_back(lent, capacity, after),
        capacity <= 2 * before.buffer_size(),
    ensures
        before.held() > 0 ==> lent.held() + 1 == before.held() && after.held() == before.held(),
        before.held() == 0 ==> lent.held() == 0 && after.held() == 1,
        after.buffer_size() == before.buffer_size(),
        after.pool_size() == before.pool_size(),
{
}

/// Takes a buffer from the pool, or a new one where the pool holds none. It is empty.
pub fn get_buffer(pool: &mut BufferPool) -> (buffer: Vec<u8>)
    requires
        old(pool).wf(),
    ensures
        final(pool).wf(),
        buffer@ == Seq::<u8>::empty(),
        lends(*old(pool), *final(pool)),
{
    match dequeue(&mut pool.queue) {
        Some(buffer) => {
            assert(buffer@ =~= Seq::<u8>::empty());
            buffer
        },
        None => Vec::with_capacity(pool.buffer_size),
    }
}

/// Gives back a buffer that has room for `capacity` bytes. It is emptied and kept, unless it has
/// grown too large.
pub fn return_sized(pool: &mut BufferPool, buffer: Vec<u8>, capacity: usize)
    requires
        old(pool).wf(),
    ensures
        final(pool).wf(),
        takes_back(*old(pool), capacity, *final(pool)),
{
    let held: usize = queue_len(&pool.queue);
    let mut buffer = buffer;
    buffer.clear();
    if keeps_buffer(capacity, pool.buffer_size, held, pool.pool_size) {
        enqueue(&mut pool.queue, buffer);
    }
}

/// Gives a buffer back, with the room that it has. How much that is beyond the bytes that it holds
/// is the allocator's choice.
pub fn return_buffer(pool: &mut BufferPool, buffer: Vec<u8>)
    requires
        old(pool).wf(),
    ensures
        final(pool).wf(),
        exists|capacity: usize|
            capacity >= buffer@.len() && #[trigger] takes_back(*old(pool), capacity, *final(pool)),
{
    let capacity: usize = room_in(&buffer);
    return_sized(pool, buffer, capacity);
}

} // verus!
