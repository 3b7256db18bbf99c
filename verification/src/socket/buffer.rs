use managed::Managed;
use vstd::prelude::*;

verus! {

/// The outside type `managed::Managed`: octets that are either owned or exclusively borrowed.
#[verifier::external_type_specification]
#[verifier::external_body]
#[verifier::reject_recursive_types(T)]
pub struct ExManaged<'a, T: 'a + ?Sized>(managed::Managed<'a, T>);

/// The octets that a managed slice gives access to.
pub uninterp spec fn managed_octets(storage: Managed<[u8]>) -> Seq<u8>;

/// Calls `managed::Managed::deref`, which hands out the slice that is owned or borrowed.
#[verifier::external_body]
fn octets<'b>(storage: &'b Managed<'_, [u8]>) -> (slice: &'b [u8])
    ensures
        slice@ == managed_octets(*storage),
{
    storage
}

/// Calls `managed::Managed::deref_mut`, which hands out the slice that is owned or borrowed.
/// Whatever is written to the slice is what the storage holds afterwards; neither the slice nor
/// the storage changes its length.
#[verifier::external_body]
fn octets_mut<'b>(storage: &'b mut Managed<'_, [u8]>) -> (slice: &'b mut [u8])
    ensures
        slice@ == managed_octets(*old(storage)),
        final(slice)@ == managed_octets(*final(storage)),
        managed_octets(*final(storage)).len() == managed_octets(*old(storage)).len(),
{
    storage
}

/// Calls `managed::Managed::from` on a vector, which hands over the octets of the vector.
#[verifier::external_body]
fn managed_vec<'a>(octets: Vec<u8>) -> (storage: Managed<'a, [u8]>)
    ensures
        managed_octets(storage) == octets@,
{
    Managed::from(octets)
}

/// Calls `managed::Managed::from` on an exclusive borrow, which lends the octets of the slice. What
/// the slice holds once the borrow ends is not said.
#[verifier::external_body]
fn managed_slice<'a>(octets: &'a mut [u8]) -> (storage: Managed<'a, [u8]>)
    ensures
        managed_octets(storage) == old(octets)@,
{
    Managed::from(octets)
}

/// The smaller of two numbers.
pub open spec fn min(a: int, b: int) -> int {
    if a <= b {
        a
    } else {
        b
    }
}

/// What a ring buffer holds: the whole storage, where its oldest octet stands, and how many octets
/// are queued.
#[verifier::ext_equal]
pub struct BufferView {
    pub storage: Seq<u8>,
    pub read_at: int,
    pub length: int,
}

impl BufferView {
    /// A buffer over the given storage in which nothing is queued.
    pub open spec fn over(storage: Seq<u8>) -> BufferView {
        BufferView { storage, read_at: 0, length: 0 }
    }

    /// The queued octets fit, and the oldest one stands inside the storage.
    pub open spec fn wf(self) -> bool {
        &&& 0 <= self.length <= self.capacity()
        &&& 0 <= self.read_at
        &&& self.read_at < self.capacity() || self.read_at == 0 == self.capacity()
    }

    pub open spec fn capacity(self) -> int {
        self.storage.len() as int
    }

    /// How many more octets fit.
    pub open spec fn window(self) -> int {
        self.capacity() - self.length
    }

    /// The place in the storage that lies `i` octets past the oldest one, going round the end.
    pub open spec fn slot(self, i: int) -> int {
        if self.read_at + i < self.capacity() {
            self.read_at + i
        } else {
            self.read_at + i - self.capacity()
        }
    }

    /// The queued octets, the oldest first.
    pub open spec fn contents(self) -> Seq<u8> {
        Seq::new(self.length as nat, |i: int| self.storage[self.slot(i)])
    }

    /// How many places past the first free one the place `p` lies, going round the end.
    pub open spec fn past_end(self, p: int) -> int {
        if p >= self.slot(self.length) {
            p - self.slot(self.length)
        } else {
            p - self.slot(self.length) + self.capacity()
        }
    }

    /// How many octets a request for `size` can write without going round the end.
    pub open spec fn writable(self, size: int) -> int {
        min(min(size, self.window()), self.capacity() - self.slot(self.length))
    }

    /// How many of the queued octets a request for `size`, made `offset` octets past the oldest one,
    /// can read without going round the end.
    pub open spec fn readable(self, offset: int, size: int) -> int {
        min(min(size, self.length - offset), self.capacity() - self.slot(offset))
    }

    /// The octets that such a request reads.
    pub open spec fn window_at(self, offset: int, size: int) -> Seq<u8> {
        self.storage.subrange(self.slot(offset), self.slot(offset) + self.readable(offset, size))
    }

    /// How many of `count` octets can be queued.
    pub open spec fn accepted(self, count: int) -> int {
        min(count, self.window())
    }

    /// The buffer once as much of `data` as fits has been queued behind what is there.
    pub open spec fn appended(self, data: Seq<u8>) -> BufferView {
        let count = self.accepted(data.len() as int);
        BufferView {
            storage: Seq::new(
                self.storage.len(),
                |p: int|
                    if self.past_end(p) < count {
                        data[self.past_end(p)]
                    } else {
                        self.storage[p]
                    },
            ),
            read_at: self.read_at,
            length: self.length + count,
        }
    }

    /// The buffer once its `count` oldest octets have been given up.
    pub open spec fn advanced(self, count: int) -> BufferView {
        BufferView {
            storage: self.storage,
            read_at: self.slot(count),
            length: self.length - count,
        }
    }
}

/// A TCP stream ring buffer.
#[derive(Debug)]
pub struct SocketBuffer<'a> {
    pub storage: Managed<'a, [u8]>,
    pub read_at: usize,
    pub length: usize,
}

impl<'a> View for SocketBuffer<'a> {
    type V = BufferView;

    open spec fn view(&self) -> BufferView {
        BufferView {
            storage: managed_octets(self.storage),
            read_at: self.read_at as int,
            length: self.length as int,
        }
    }
}

impl<'a> SocketBuffer<'a> {
    /// Create a packet buffer with the given storage.
    pub fn new<T>(storage: T) -> (buffer: SocketBuffer<'a>) where T: Into<Managed<'a, [u8]>>
        ensures
            call_ensures(T::into, (storage,), buffer.storage),
            buffer@.read_at == 0,
            buffer@.length == 0,
            buffer@.wf(),
            buffer@.contents() == Seq::<u8>::empty(),
    {
        let buffer = SocketBuffer { storage: storage.into(), read_at: 0, length: 0 };
        assert(buffer@.contents() =~= Seq::<u8>::empty());
        buffer
    }

    /// Create a packet buffer that owns its storage.
    pub fn owned(octets: Vec<u8>) -> (buffer: SocketBuffer<'a>)
        ensures
            buffer@ == BufferView::over(octets@),
            buffer@.wf(),
    {
        SocketBuffer::from(managed_vec(octets))
    }

    /// Create a packet buffer that borrows its storage.
    pub fn borrowed(octets: &'a mut [u8]) -> (buffer: SocketBuffer<'a>)
        ensures
            buffer@ == BufferView::over(old(octets)@),
            buffer@.wf(),
    {
        SocketBuffer::from(managed_slice(octets))
    }

    pub fn capacity(&self) -> (capacity: usize)
        ensures
            capacity == self@.capacity(),
    {
        octets(&self.storage).len()
    }

    pub fn len(&self) -> (len: usize)
        ensures
            len == self@.length,
    {
        self.length
    }

    pub fn window(&self) -> (window: usize)
        requires
            self@.wf(),
        ensures
            window == self@.window(),
    {
        self.capacity() - self.len()
    }

    fn place(&self, offset: usize) -> (place: usize)
        requires
            self@.wf(),
            self@.capacity() > 0,
            offset <= self@.capacity(),
        ensures
            place == self@.slot(offset as int),
            place < self@.capacity(),
    {
        let until_end: usize = self.capacity() - self.read_at;
        if offset < until_end {
            self.read_at + offset
        } else {
            offset - until_end
        }
    }

    /// Where the next octet goes, and how many of `size` octets can be written from there on.
    pub fn clamp_writer(&self, size: usize) -> (clamped: (usize, usize))
        requires
            self@.wf(),
            self@.capacity() > 0,
        ensures
            clamped.0 == self@.slot(self@.length),
            clamped.1 == self@.writable(size as int),
            clamped.0 + clamped.1 <= self@.capacity() <= usize::MAX,
    {
        let mut size: usize = size;
        let write_at: usize = self.place(self.length);
        // We can't enqueue more than there is free space.
        let free: usize = self.window();
        if size > free {
            size = free;
        }
        // We can't contiguously enqueue past the beginning of the storage.
        let until_end: usize = self.capacity() - write_at;
        if size > until_end {
            size = until_end;
        }
        (write_at, size)
    }

    /// Queue up to `size` octets, as many as can be written contiguously, and return the place
    /// where the caller writes them.
    pub fn enqueue(&mut self, size: usize) -> (dest: &mut [u8])
        requires
            old(self)@.wf(),
            old(self)@.capacity() > 0,
        ensures
            dest@.len() == old(self)@.writable(size as int),
            dest@ == old(self)@.storage.subrange(
                old(self)@.slot(old(self)@.length),
                old(self)@.slot(old(self)@.length) + old(self)@.writable(size as int),
            ),
            final(dest)@.len() == dest@.len(),
            final(self)@ == old(self)@.appended(final(dest)@),
            final(self)@.wf(),
    {
        let (write_at, size) = self.clamp_writer(size);
        self.length = self.length + size;
        let all = octets_mut(&mut self.storage);
        let (front, _) = all.split_at_mut(write_at + size);
        let (_, dest) = front.split_at_mut(write_at);
        dest
    }

    /// Queue as much of `data` as fits.
    pub fn enqueue_slice(&mut self, data: &[u8])
        requires
            old(self)@.wf(),
            old(self)@.capacity() > 0,
        ensures
            final(self)@ == old(self)@.appended(data@),
            final(self)@.wf(),
            final(self)@.contents() == old(self)@.contents() + data@.take(
                old(self)@.accepted(data@.len() as int),
            ),
    {
        let ghost before = self@;
        let ghost all = data@;
        let dest = self.enqueue(data.len());
        let (data, rest) = data.split_at(dest.len());
        copy(dest, data);
        let ghost middle = self@;
        assert(middle == before.appended(data@));
        // Retry, in case we had a wraparound.
        let dest = self.enqueue(rest.len());
        let (data, _) = rest.split_at(dest.len());
        copy(dest, data);
        proof {
            assert(self@ == middle.appended(data@));
            assert(self@ =~= before.appended(all));
            lemma_appended_contents(before, all);
        }
    }

    /// Where the octet `offset` octets past the oldest one stands, and how many of `size` octets
    /// can be read from there on.
    pub fn clamp_reader(&self, offset: usize, size: usize) -> (clamped: (usize, usize))
        requires
            self@.wf(),
            self@.capacity() > 0,
            offset <= self@.length,
        ensures
            clamped.0 == self@.slot(offset as int),
            clamped.1 == self@.readable(offset as int, size as int),
            clamped.0 + clamped.1 <= self@.capacity() <= usize::MAX,
    {
        let mut size: usize = size;
        let read_at: usize = self.place(offset);
        // We can't dequeue more than was queued.
        let queued: usize = self.length - offset;
        if size > queued {
            size = queued;
        }
        // We can't contiguously dequeue past the end of the storage.
        let until_end: usize = self.capacity() - read_at;
        if size > until_end {
            size = until_end;
        }
        (read_at, size)
    }

    /// Give up to `size` of the oldest octets, as many as can be read contiguously.
    pub fn dequeue(&mut self, size: usize) -> (data: &[u8])
        requires
            old(self)@.wf(),
            old(self)@.capacity() > 0,
        ensures
            data@.len() == old(self)@.readable(0, size as int),
            data@ == old(self)@.contents().take(old(self)@.readable(0, size as int)),
            final(self)@ == old(self)@.advanced(old(self)@.readable(0, size as int)),
            final(self)@.wf(),
            final(self)@.contents() == old(self)@.contents().skip(
                old(self)@.readable(0, size as int),
            ),
    {
        let ghost before = self@;
        let (read_at, size) = self.clamp_reader(0, size);
        self.read_at = self.place(size);
        self.length = self.length - size;
        proof {
            assert(self@ == before.advanced(size as int));
            lemma_advanced_contents(before, size as int);
        }
        let data = vstd::slice::slice_subrange(octets(&self.storage), read_at, read_at + size);
        assert(data@ =~= before.contents().take(size as int));
        data
    }

    /// Look at up to `size` of the queued octets that stand `offset` octets past the oldest one, as many as can
    /// be read contiguously.
    pub fn peek(&self, offset: usize, size: usize) -> (data: &[u8])
        requires
            self@.wf(),
            self@.capacity() > 0,
            offset <= self@.length,
        ensures
            data@ == self@.window_at(offset as int, size as int),
            data@ == self@.contents().subrange(
                offset as int,
                offset + self@.readable(offset as int, size as int),
            ),
    {
        let (read_at, size) = self.clamp_reader(offset, size);
        let data = vstd::slice::slice_subrange(octets(&self.storage), read_at, read_at + size);
        assert(data@ =~= self@.contents().subrange(offset as int, offset + size));
        data
    }

    /// Give up the `size` oldest octets.
    pub fn advance(&mut self, size: usize)
        requires
            old(self)@.wf(),
            old(self)@.capacity() > 0,
            size <= old(self)@.length,
        ensures
            final(self)@ == old(self)@.advanced(size as int),
            final(self)@.wf(),
            final(self)@.contents() == old(self)@.contents().skip(size as int),
    {
        let ghost before = self@;
        self.read_at = self.place(size);
        self.length = self.length - size;
        proof {
            assert(self@ == before.advanced(size as int));
            lemma_advanced_contents(before, size as int);
        }
    }
}

impl<'a> From<Managed<'a, [u8]>> for SocketBuffer<'a> {
    fn from(storage: Managed<'a, [u8]>) -> (buffer: SocketBuffer<'a>)
        ensures
            buffer.storage == storage,
            buffer.read_at == 0,
            buffer.length == 0,
    {
        SocketBuffer { storage, read_at: 0, length: 0 }
    }
}

impl<'a> vstd::std_specs::convert::FromSpecImpl<Managed<'a, [u8]>> for SocketBuffer<'a> {
    open spec fn obeys_from_spec() -> bool {
        true
    }

    open spec fn from_spec(storage: Managed<'a, [u8]>) -> SocketBuffer<'a> {
        SocketBuffer { storage, read_at: 0, length: 0 }
    }
}

/// Queueing puts the octets that fit behind those that are there, and leaves those as they are.
pub proof fn lemma_appended_contents(buffer: BufferView, data: Seq<u8>)
    requires
        buffer.wf(),
    ensures
        buffer.appended(data).wf(),
        buffer.appended(data).contents() == buffer.contents() + data.take(
            buffer.accepted(data.len() as int),
        ),
{
    let after = buffer.appended(data);
    let count = buffer.accepted(data.len() as int);
    assert forall|i: int| 0 <= i < after.length implies after.contents()[i] == (buffer.contents()
        + data.take(count))[i] by {
        if i < buffer.length {
            assert(buffer.past_end(buffer.slot(i)) >= count);
        } else {
            assert(buffer.past_end(buffer.slot(i)) == i - buffer.length);
        }
    }
    assert(after.contents() =~= buffer.contents() + data.take(count));
}

/// Giving up the oldest octets leaves the others, in order.
pub proof fn lemma_advanced_contents(buffer: BufferView, count: int)
    requires
        buffer.wf(),
        0 <= count <= buffer.length,
    ensures
        buffer.advanced(count).wf(),
        buffer.advanced(count).contents() == buffer.contents().skip(count),
{
    assert(buffer.advanced(count).contents() =~= buffer.contents().skip(count));
}

/// Overwrite a slice with another one of the same length.
pub fn copy(dest: &mut [u8], data: &[u8])
    requires
        old(dest)@.len() == data@.len(),
    ensures
        final(dest)@ == data@,
{
    let mut i: usize = 0;
    while i < data.len()
        invariant
            i <= data@.len(),
            dest@.len() == data@.len(),
            forall|j: int| 0 <= j < i ==> dest@[j] == data@[j],
        decreases data@.len() - i,
    {
        dest[i] = data[i];
        i += 1;
    }
    assert(dest@ =~= data@);
}

} // verus!
