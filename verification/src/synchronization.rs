use vstd::prelude::*;
use std::collections::VecDeque;

verus! {

/// Mutex simulation (binary semaphore).
#[derive(Clone, Debug)]
pub struct Mutex {
    pub locked: bool,
    /// The thread that holds the lock.
    pub owner: Option<usize>,
    pub wait_queue: VecDeque<usize>,
}

/// The abstract state of a mutex.
pub struct MutexState {
    pub locked: bool,
    pub owner: Option<usize>,
    pub waiting: Seq<usize>,
}

/// A lock request: granted at once when free, else the thread joins the wait queue.
pub open spec fn mutex_lock(m: MutexState, thread_id: usize) -> (MutexState, bool) {
    if m.locked {
        (MutexState { waiting: m.waiting.push(thread_id), ..m }, false)
    } else {
        (MutexState { locked: true, owner: Some(thread_id), ..m }, true)
    }
}

/// An unlock: only the owner may unlock; the lock passes to the first waiter, or is released.
pub open spec fn mutex_unlock(m: MutexState, thread_id: usize) -> (MutexState, Option<usize>) {
    if m.owner == Some(thread_id) {
        if m.waiting.len() > 0 {
            (MutexState { owner: Some(m.waiting[0]), waiting: m.waiting.drop_first(), ..m }, Some(m.waiting[0]))
        } else {
            (MutexState { locked: false, owner: None, ..m }, None)
        }
    } else {
        (m, None)
    }
}

impl Mutex {
    pub open spec fn state(&self) -> MutexState {
        MutexState { locked: self.locked, owner: self.owner, waiting: self.wait_queue@ }
    }

    pub fn new() -> (r: Self)
        ensures
            r.state() == (MutexState { locked: false, owner: None, waiting: Seq::empty() }),
    {
        Mutex { locked: false, owner: None, wait_queue: VecDeque::new() }
    }

    /// Try to lock. Returns true if acquired immediately.
    pub fn lock(&mut self, thread_id: usize) -> (acquired: bool)
        ensures
            (final(self).state(), acquired) == mutex_lock(old(self).state(), thread_id),
    {
        if self.locked {
            self.wait_queue.push_back(thread_id);
            false
        } else {
            self.locked = true;
            self.owner = Some(thread_id);
            true
        }
    }

    /// Unlock. Returns the next thread to wake (if any).
    pub fn unlock(&mut self, thread_id: usize) -> (woken: Option<usize>)
        ensures
            (final(self).state(), woken) == mutex_unlock(old(self).state(), thread_id),
    {
        let is_owner = match self.owner {
            Some(o) => o == thread_id,
            None => false,
        };
        if is_owner {
            match self.wait_queue.pop_front() {
                Some(next) => {
                    self.owner = Some(next);
                    proof {
                        assert(self.wait_queue@ =~= old(self).wait_queue@.drop_first());
                    }
                    Some(next)
                },
                None => {
                    self.locked = false;
                    self.owner = None;
                    None
                },
            }
        } else {
            None
        }
    }

    pub fn is_locked(&self) -> (r: bool)
        ensures
            r == self.locked,
    {
        self.locked
    }

    pub fn waiting_count(&self) -> (r: usize)
        ensures
            r == self.wait_queue@.len(),
    {
        self.wait_queue.len()
    }
}

/// The mutex is held exactly when it has an owner, and only a held mutex has waiters.
pub open spec fn mutex_consistent(m: MutexState) -> bool {
    &&& m.locked <==> m.owner is Some
    &&& !m.locked ==> m.waiting.len() == 0
}

/// Locking and unlocking keep a mutex consistent; a fresh mutex is consistent.
pub proof fn lemma_mutex_consistent(m: MutexState, thread_id: usize)
    requires
        mutex_consistent(m),
    ensures
        mutex_consistent(mutex_lock(m, thread_id).0),
        mutex_consistent(mutex_unlock(m, thread_id).0),
        mutex_consistent(MutexState { locked: false, owner: None, waiting: Seq::empty() }),
{
}

/// A free mutex is acquired by the first locker; a second locker waits, and it is
/// the one that gets the mutex when the owner unlocks.
pub proof fn lemma_mutex_handoff(m: MutexState, a: usize, b: usize)
    requires
        mutex_consistent(m),
        !m.locked,
    ensures
        ({
            let (m1, got_a) = mutex_lock(m, a);
            let (m2, got_b) = mutex_lock(m1, b);
            let (m3, woken) = mutex_unlock(m2, a);
            &&& got_a
            &&& !got_b
            &&& woken == Some(b)
            &&& m3.owner == Some(b)
            &&& m3.locked
        }),
{
}

/// Counting semaphore simulation.
#[derive(Clone, Debug)]
pub struct Semaphore {
    pub value: isize,
    pub wait_queue: VecDeque<usize>,
}

/// The abstract state of a semaphore.
pub struct SemaphoreState {
    pub value: int,
    pub waiting: Seq<usize>,
}

/// P: decrement; block (join the wait queue) when the value goes negative.
pub open spec fn sem_wait(s: SemaphoreState, thread_id: usize) -> (SemaphoreState, bool) {
    let v = s.value - 1;
    if v < 0 {
        (SemaphoreState { value: v, waiting: s.waiting.push(thread_id) }, false)
    } else {
        (SemaphoreState { value: v, waiting: s.waiting }, true)
    }
}

/// V: increment; wake the first waiter when the value is still not positive.
pub open spec fn sem_signal(s: SemaphoreState) -> (SemaphoreState, Option<usize>) {
    let v = s.value + 1;
    if v <= 0 && s.waiting.len() > 0 {
        (SemaphoreState { value: v, waiting: s.waiting.drop_first() }, Some(s.waiting[0]))
    } else {
        (SemaphoreState { value: v, waiting: s.waiting }, None)
    }
}

impl Semaphore {
    pub open spec fn state(&self) -> SemaphoreState {
        SemaphoreState { value: self.value as int, waiting: self.wait_queue@ }
    }

    pub fn new(initial: isize) -> (r: Self)
        ensures
            r.state() == (SemaphoreState { value: initial as int, waiting: Seq::empty() }),
    {
        Semaphore { value: initial, wait_queue: VecDeque::new() }
    }

    /// Wait (P operation). Returns true if no blocking needed.
    pub fn wait(&mut self, thread_id: usize) -> (r: bool)
        requires
            old(self).value > isize::MIN,
        ensures
            (final(self).state(), r) == sem_wait(old(self).state(), thread_id),
    {
        self.value = self.value - 1;
        if self.value < 0 {
            self.wait_queue.push_back(thread_id);
            false
        } else {
            true
        }
    }

    /// Signal (V operation). Returns the thread to wake (if any).
    pub fn signal(&mut self) -> (r: Option<usize>)
        requires
            old(self).value < isize::MAX,
        ensures
            (final(self).state(), r) == sem_signal(old(self).state()),
    {
        self.value = self.value + 1;
        if self.value <= 0 {
            let r = self.wait_queue.pop_front();
            proof {
                if r is Some {
                    assert(self.wait_queue@ =~= old(self).wait_queue@.drop_first());
                }
            }
            r
        } else {
            None
        }
    }

    pub fn available(&self) -> (r: isize)
        ensures
            r == if self.value > 0 { self.value } else { 0 },
    {
        if self.value > 0 {
            self.value
        } else {
            0
        }
    }

    pub fn waiting_count(&self) -> (r: usize)
        ensures
            r == self.wait_queue@.len(),
    {
        self.wait_queue.len()
    }
}

/// A signal after a wait restores the count; a thread that blocked in the wait on
/// an otherwise empty queue is the one woken.
pub proof fn lemma_wait_signal(s: SemaphoreState, thread_id: usize)
    requires
        s.waiting.len() == 0,
    ensures
        ({
            let (s1, passed) = sem_wait(s, thread_id);
            let (s2, woken) = sem_signal(s1);
            &&& s2.value == s.value
            &&& s2.waiting == s.waiting
            &&& (passed ==> woken is None)
            &&& (!passed ==> woken == Some(thread_id))
        }),
{
    let (s1, passed) = sem_wait(s, thread_id);
    if !passed {
        assert(s1.waiting.drop_first() =~= s.waiting);
    }
}

/// The wait queue holds exactly as many threads as the value is below zero.
pub open spec fn sem_balanced(s: SemaphoreState) -> bool {
    s.waiting.len() == if s.value < 0 { -s.value } else { 0 }
}

/// A semaphore created with a non-negative value is balanced, and waits and signals keep
/// it so: the number of waiting threads is always the negative part of the value. On a
/// balanced semaphore a signal wakes the first waiter exactly when the value was negative.
pub proof fn lemma_sem_balanced(s: SemaphoreState, initial: int, thread_id: usize)
    requires
        sem_balanced(s),
    ensures
        initial >= 0 ==> sem_balanced(SemaphoreState { value: initial, waiting: Seq::empty() }),
        sem_balanced(sem_wait(s, thread_id).0),
        sem_balanced(sem_signal(s).0),
        sem_signal(s).1 == if s.value < 0 { Some(s.waiting[0]) } else { None::<usize> },
{
}

/// Producer-Consumer simulation using semaphores.
#[derive(Clone, Debug)]
pub struct ProducerConsumer {
    pub buffer: VecDeque<i64>,
    pub capacity: usize,
    pub mutex: Semaphore,
    pub items: Semaphore,
    pub spaces: Semaphore,
}

/// The abstract state of a producer-consumer buffer.
pub struct BufferState {
    pub buffer: Seq<i64>,
    pub capacity: int,
    pub mutex: SemaphoreState,
    pub items: SemaphoreState,
    pub spaces: SemaphoreState,
}

/// A produce: wait for a space, then for the buffer mutex, append, release the
/// mutex and signal an item. Fails (without undoing its waits) when either wait blocks.
pub open spec fn pc_produce(b: BufferState, thread_id: usize, item: i64) -> (BufferState, bool) {
    let (spaces, ok) = sem_wait(b.spaces, thread_id);
    if ok {
        let (mutex, ok2) = sem_wait(b.mutex, thread_id);
        if ok2 {
            let (mutex2, _w) = sem_signal(mutex);
            let (items, _w2) = sem_signal(b.items);
            (BufferState { buffer: b.buffer.push(item), mutex: mutex2, items, spaces, ..b }, true)
        } else {
            (BufferState { mutex, spaces, ..b }, false)
        }
    } else {
        (BufferState { spaces, ..b }, false)
    }
}

/// A consume: wait for an item, then for the buffer mutex, take the front item,
/// release the mutex and signal a space. Fails when either wait blocks.
pub open spec fn pc_consume(b: BufferState, thread_id: usize) -> (BufferState, Option<i64>) {
    let (items, ok) = sem_wait(b.items, thread_id);
    if ok {
        let (mutex, ok2) = sem_wait(b.mutex, thread_id);
        if ok2 {
            let (mutex2, _w) = sem_signal(mutex);
            let (spaces, _w2) = sem_signal(b.spaces);
            if b.buffer.len() > 0 {
                (BufferState { buffer: b.buffer.drop_first(), mutex: mutex2, items, spaces, ..b }, Some(b.buffer[0]))
            } else {
                (BufferState { mutex: mutex2, items, spaces, ..b }, None)
            }
        } else {
            (BufferState { mutex, items, ..b }, None)
        }
    } else {
        (BufferState { items, ..b }, None)
    }
}

/// The semaphore values stay in range for one more operation.
pub open spec fn pc_in_range(b: BufferState) -> bool {
    &&& isize::MIN < b.mutex.value < isize::MAX
    &&& isize::MIN < b.items.value < isize::MAX
    &&& isize::MIN < b.spaces.value < isize::MAX
}

impl ProducerConsumer {
    pub open spec fn state(&self) -> BufferState {
        BufferState {
            buffer: self.buffer@,
            capacity: self.capacity as int,
            mutex: self.mutex.state(),
            items: self.items.state(),
            spaces: self.spaces.state(),
        }
    }

    pub fn new(capacity: usize) -> (r: Self)
        requires
            capacity <= isize::MAX,
        ensures
            r.state() == (BufferState {
                buffer: Seq::empty(),
                capacity: capacity as int,
                mutex: SemaphoreState { value: 1, waiting: Seq::empty() },
                items: SemaphoreState { value: 0, waiting: Seq::empty() },
                spaces: SemaphoreState { value: capacity as int, waiting: Seq::empty() },
            }),
    {
        ProducerConsumer {
            buffer: VecDeque::new(),
            capacity,
            mutex: Semaphore::new(1),
            items: Semaphore::new(0),
            spaces: Semaphore::new(capacity as isize),
        }
    }

    /// Produce an item. Returns true if successful (non-blocking).
    pub fn produce(&mut self, thread_id: usize, item: i64) -> (r: bool)
        requires
            pc_in_range(old(self).state()),
        ensures
            (final(self).state(), r) == pc_produce(old(self).state(), thread_id, item),
    {
        if self.spaces.wait(thread_id) {
            if self.mutex.wait(thread_id) {
                self.buffer.push_back(item);
                self.mutex.signal();
                self.items.signal();
                return true;
            }
        }
        false
    }

    /// Consume an item. Returns Some(item) if successful.
    pub fn consume(&mut self, thread_id: usize) -> (r: Option<i64>)
        requires
            pc_in_range(old(self).state()),
        ensures
            (final(self).state(), r) == pc_consume(old(self).state(), thread_id),
    {
        if self.items.wait(thread_id) {
            if self.mutex.wait(thread_id) {
                let item = self.buffer.pop_front();
                proof {
                    if item is Some {
                        assert(self.buffer@ =~= old(self).buffer@.drop_first());
                    }
                }
                self.mutex.signal();
                self.spaces.signal();
                return item;
            }
        }
        None
    }

    pub fn len(&self) -> (r: usize)
        ensures
            r == self.buffer@.len(),
    {
        self.buffer.len()
    }
}

/// The buffer bookkeeping: the mutex is free between operations, there are at least
/// as many buffered items as the items semaphore counts, buffered items plus free
/// spaces never exceed the capacity, and neither do the buffered items.
pub open spec fn pc_consistent(b: BufferState) -> bool {
    &&& b.mutex.value == 1
    &&& b.mutex.waiting.len() == 0
    &&& b.items.value <= b.buffer.len()
    &&& b.buffer.len() + b.spaces.value <= b.capacity
    &&& b.buffer.len() <= b.capacity
}

/// Producing and consuming keep the bookkeeping; so the buffer never holds more than
/// its capacity, a consume that gets past the items semaphore always gets an item,
/// and items come out in the order they went in.
pub proof fn lemma_pc_consistent(b: BufferState, thread_id: usize, item: i64)
    requires
        pc_consistent(b),
    ensures
        pc_consistent(pc_produce(b, thread_id, item).0),
        pc_consistent(pc_consume(b, thread_id).0),
        pc_produce(b, thread_id, item).1 ==> pc_produce(b, thread_id, item).0.buffer == b.buffer.push(item)
            && b.buffer.len() + 1 <= b.capacity,
        sem_wait(b.items, thread_id).1 ==> pc_consume(b, thread_id).1 == Some(b.buffer[0])
            && pc_consume(b, thread_id).0.buffer == b.buffer.drop_first(),
{
}

/// A fresh buffer satisfies the bookkeeping.
pub proof fn lemma_pc_fresh(capacity: int)
    requires
        capacity >= 0,
    ensures
        pc_consistent(BufferState {
            buffer: Seq::empty(),
            capacity,
            mutex: SemaphoreState { value: 1, waiting: Seq::empty() },
            items: SemaphoreState { value: 0, waiting: Seq::empty() },
            spaces: SemaphoreState { value: capacity, waiting: Seq::empty() },
        }),
{
}

/// No thread is blocked and the counts are exact: the free slots (`spaces`) and the
/// available items (`items`) add up with the buffered items to what they stand for.
pub open spec fn pc_balanced(b: BufferState) -> bool {
    &&& pc_consistent(b)
    &&& b.buffer.len() + b.spaces.value == b.capacity
    &&& b.items.value == b.buffer.len()
    &&& b.spaces.waiting.len() == 0
    &&& b.items.waiting.len() == 0
}

/// A successful consume frees a slot: the `spaces` count goes up by one and the buffer
/// holds one item less. On a balanced buffer a produce succeeds exactly when there is a
/// free slot, a consume succeeds exactly when there is an item, both keep the buffer
/// balanced, and so a produce right after a successful consume always succeeds.
pub proof fn lemma_pc_slots(b: BufferState, producer: usize, consumer: usize, item: i64)
    requires
        pc_consistent(b),
    ensures
        pc_consume(b, consumer).1 is Some ==> {
            &&& pc_consume(b, consumer).0.spaces.value == b.spaces.value + 1
            &&& pc_consume(b, consumer).0.buffer.len() == b.buffer.len() - 1
        },
        pc_balanced(b) ==> {
            &&& pc_produce(b, producer, item).1 == (b.buffer.len() < b.capacity)
            &&& pc_consume(b, consumer).1 == if b.buffer.len() > 0 { Some(b.buffer[0]) } else { None::<i64> }
            &&& pc_produce(b, producer, item).1 ==> pc_balanced(pc_produce(b, producer, item).0)
            &&& pc_consume(b, consumer).1 is Some ==> pc_balanced(pc_consume(b, consumer).0)
            &&& pc_consume(b, consumer).1 is Some ==> pc_produce(pc_consume(b, consumer).0, producer, item).1
        },
{
}

/// A fresh buffer is balanced.
pub proof fn lemma_pc_fresh_balanced(capacity: int)
    requires
        capacity >= 0,
    ensures
        pc_balanced(BufferState {
            buffer: Seq::empty(),
            capacity,
            mutex: SemaphoreState { value: 1, waiting: Seq::empty() },
            items: SemaphoreState { value: 0, waiting: Seq::empty() },
            spaces: SemaphoreState { value: capacity, waiting: Seq::empty() },
        }),
{
}

} // verus!
