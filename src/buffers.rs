//! The buffer store: every exchange buffer of one invocation, addressed by
//! 32-bit handles. Guests only ever hold handles; all copying is bounds-checked
//! here, and misuse degrades to empty results or the sentinel handle.
use vstd::prelude::*;
use vstd::utf8::{decode_utf8, valid_utf8};
use crate::bytes::append_bytes;
use crate::codec::{encode_headers, encodable, encoding};
use crate::entries::{pairs_view, Pair};
use crate::error::HostError;
use crate::text::string_from_utf8;

verus! {

/// The reserved handle value that signals failure.
pub const INVALID_HANDLE: u32 = 0xFFFF_FFFF;

/// A buffer as plain values.
pub struct BufferView {
    pub payload: Seq<u8>,
    pub headers: Seq<Pair>,
}

/// A byte payload and its ordered header entries (name, value).
pub struct ExchangeBuffer {
    pub payload: Vec<u8>,
    pub headers: Vec<(Vec<u8>, Vec<u8>)>,
}

impl View for ExchangeBuffer {
    type V = BufferView;

    open spec fn view(&self) -> BufferView {
        BufferView { payload: self.payload@, headers: pairs_view(self.headers@) }
    }
}

/// The live buffers. A handle is the index of its slot; slots of freed
/// buffers stay empty, so a handle is never given out twice by one store.
pub struct BufferStore {
    slots: Vec<Option<ExchangeBuffer>>,
}

/// The buffer view with no payload and no headers.
pub open spec fn empty_buffer() -> BufferView {
    BufferView { payload: Seq::empty(), headers: Seq::empty() }
}

/// The payload of `h`, empty where `h` is not live.
pub open spec fn payload_of(m: Map<u32, BufferView>, h: u32) -> Seq<u8> {
    if m.contains_key(h) {
        m[h].payload
    } else {
        Seq::empty()
    }
}

/// What a copying read leaves: the count copied (the least of the payload
/// length, the requested length and the destination's room), and the
/// destination with that many leading bytes replaced by the payload's.
pub open spec fn copy_result(payload: Seq<u8>, dest: Seq<u8>, dest_len: u32) -> (u32, Seq<u8>) {
    let n = if payload.len() <= dest_len && payload.len() <= dest.len() {
        payload.len()
    } else if dest_len <= dest.len() {
        dest_len as nat
    } else {
        dest.len()
    };
    (n as u32, payload.subrange(0, n as int) + dest.subrange(n as int, dest.len() as int))
}

impl View for BufferStore {
    type V = Map<u32, BufferView>;

    closed spec fn view(&self) -> Map<u32, BufferView> {
        Map::new(
            |h: u32| (h as int) < self.slots@.len() && self.slots@[h as int] is Some,
            |h: u32| self.slots@[h as int]->0@,
        )
    }
}

impl BufferStore {
    /// The handle that the next created buffer gets.
    pub closed spec fn next_handle(&self) -> nat {
        self.slots@.len()
    }

    /// Handles stay below the sentinel and payload sizes fit in 32 bits.
    pub closed spec fn wf(&self) -> bool {
        &&& self.slots@.len() <= INVALID_HANDLE
        &&& forall|i: int| 0 <= i < self.slots@.len() && self.slots@[i] is Some
            ==> #[trigger] self.slots@[i]->0.payload@.len() <= u32::MAX
    }

    /// The handle that the next created buffer gets.
    pub fn peek_next_handle(&self) -> (r: usize)
        ensures
            r == self.next_handle(),
    {
        self.slots.len()
    }

    pub fn new() -> (r: BufferStore)
        ensures
            r.wf(),
            r@ == Map::<u32, BufferView>::empty(),
            r.next_handle() == 0,
    {
        let r = BufferStore { slots: Vec::new() };
        assert(r@ =~= Map::<u32, BufferView>::empty());
        r
    }

    /// Stores `buf` under a fresh handle; the sentinel when every handle has
    /// been given out.
    pub fn create_with(&mut self, buf: ExchangeBuffer) -> (r: u32)
        requires
            old(self).wf(),
            buf.payload@.len() <= u32::MAX,
        ensures
            final(self).wf(),
            old(self).next_handle() < INVALID_HANDLE ==> {
                &&& r == old(self).next_handle()
                &&& !old(self)@.contains_key(r)
                &&& final(self)@ == old(self)@.insert(r, buf@)
                &&& final(self).next_handle() == old(self).next_handle() + 1
            },
            old(self).next_handle() >= INVALID_HANDLE ==> r == INVALID_HANDLE && *final(self) == *old(self),
    {
        if self.slots.len() >= 0xFFFF_FFFF {
            return INVALID_HANDLE;
        }
        let h = self.slots.len() as u32;
        self.slots.push(Some(buf));
        assert(self@ =~= old(self)@.insert(h, buf@));
        h
    }

    /// Takes the buffer `h` out of the store, freeing its handle; `None`
    /// where `h` is not live.
    pub fn take(&mut self, h: u32) -> (r: Option<ExchangeBuffer>)
        requires
            old(self).wf(),
        ensures
            final(self).wf(),
            final(self)@ == old(self)@.remove(h),
            final(self).next_handle() == old(self).next_handle(),
            r is Some <==> old(self)@.contains_key(h),
            r matches Some(b) ==> b@ == old(self)@[h] && b.payload@.len() <= u32::MAX,
    {
        if (h as usize) < self.slots.len() {
            let mut slot: Option<ExchangeBuffer> = None;
            self.slots.set_and_swap(h as usize, &mut slot);
            assert(self@ =~= old(self)@.remove(h));
            slot
        } else {
            assert(self@ =~= old(self)@.remove(h));
            None
        }
    }

    /// Frees `h`. Freeing a handle that is not live, or no longer live, does
    /// nothing and is no error.
    pub fn free(&mut self, h: u32)
        requires
            old(self).wf(),
        ensures
            final(self).wf(),
            final(self)@ == old(self)@.remove(h),
            final(self).next_handle() == old(self).next_handle(),
    {
        let _ = self.take(h);
    }

    /// Replaces the payload of `h`.
    pub fn write(&mut self, h: u32, bytes: &[u8]) -> (r: Result<(), HostError>)
        requires
            old(self).wf(),
            bytes@.len() <= u32::MAX,
        ensures
            final(self).wf(),
            final(self).next_handle() == old(self).next_handle(),
            r is Ok <==> old(self)@.contains_key(h),
            r is Ok ==> final(self)@ == old(self)@.insert(
                h,
                BufferView { payload: bytes@, headers: old(self)@[h].headers },
            ),
            r is Err ==> r == Err::<(), HostError>(HostError::UnknownBuffer) && final(self)@ == old(self)@,
    {
        match self.take(h) {
            None => Err(HostError::UnknownBuffer),
            Some(buf) => {
                let mut payload: Vec<u8> = Vec::new();
                append_bytes(&mut payload, bytes);
                let nb = ExchangeBuffer { payload, headers: buf.headers };
                assert((h as int) < self.slots@.len());
                let ghost mid = self@;
                let ghost mid_slots = self.slots@;
                self.slots.set(h as usize, Some(nb));
                assert forall|k: u32| k != h && #[trigger] self@.contains_key(k) implies self@[k] == old(self)@[k] by {
                    assert(self.slots@[k as int] == mid_slots[k as int]);
                    assert(mid.contains_key(k));
                    assert(mid[k] == old(self)@.remove(h)[k]);
                }
                assert forall|k: u32| #[trigger] self@.contains_key(k) == old(self)@.insert(h, nb@).contains_key(k)
                    by {
                    if k != h {
                        assert(old(self)@.remove(h).contains_key(k) == old(self)@.contains_key(k));
                    }
                }
                assert(self@ =~= old(self)@.insert(h, nb@));
                Ok(())
            },
        }
    }

    /// Appends the header entry (`name`, `value`) to `h`; earlier entries
    /// with the same name stay.
    pub fn write_header(&mut self, h: u32, name: &[u8], value: &[u8]) -> (r: Result<(), HostError>)
        requires
            old(self).wf(),
        ensures
            final(self).wf(),
            final(self).next_handle() == old(self).next_handle(),
            r is Ok <==> old(self)@.contains_key(h),
            r is Ok ==> final(self)@ == old(self)@.insert(
                h,
                BufferView {
                    payload: old(self)@[h].payload,
                    headers: old(self)@[h].headers.push((name@, value@)),
                },
            ),
            r is Err ==> r == Err::<(), HostError>(HostError::UnknownBuffer) && final(self)@ == old(self)@,
    {
        match self.take(h) {
            None => Err(HostError::UnknownBuffer),
            Some(buf) => {
                let mut n: Vec<u8> = Vec::new();
                append_bytes(&mut n, name);
                let mut v: Vec<u8> = Vec::new();
                append_bytes(&mut v, value);
                let mut headers = buf.headers;
                let ghost before = headers@;
                headers.push((n, v));
                assert(pairs_view(headers@) =~= pairs_view(before).push((name@, value@)));
                let nb = ExchangeBuffer { payload: buf.payload, headers };
                assert((h as int) < self.slots@.len());
                let ghost mid = self@;
                let ghost mid_slots = self.slots@;
                self.slots.set(h as usize, Some(nb));
                assert forall|k: u32| k != h && #[trigger] self@.contains_key(k) implies self@[k] == old(self)@[k] by {
                    assert(self.slots@[k as int] == mid_slots[k as int]);
                    assert(mid.contains_key(k));
                    assert(mid[k] == old(self)@.remove(h)[k]);
                }
                assert forall|k: u32| #[trigger] self@.contains_key(k) == old(self)@.insert(h, nb@).contains_key(k)
                    by {
                    if k != h {
                        assert(old(self)@.remove(h).contains_key(k) == old(self)@.contains_key(k));
                    }
                }
                assert(self@ =~= old(self)@.insert(h, nb@));
                Ok(())
            },
        }
    }

    /// The payload length of `h`; 0 where `h` is not live.
    pub fn size(&self, h: u32) -> (r: u32)
        requires
            self.wf(),
        ensures
            r == payload_of(self@, h).len(),
    {
        if (h as usize) < self.slots.len() {
            match &self.slots[h as usize] {
                Some(b) => b.payload.len() as u32,
                None => 0,
            }
        } else {
            0
        }
    }

    /// Two-phase read. With no destination, returns the payload length of
    /// `h` (0 where `h` is not live). With one, copies as many leading bytes
    /// of the payload as `dest_len` and the destination's own length allow,
    /// and returns how many it copied.
    pub fn read(&self, h: u32, dest: Option<&mut Vec<u8>>, dest_len: u32) -> (r: u32)
        requires
            self.wf(),
        ensures
            dest is None ==> r == payload_of(self@, h).len(),
            dest matches Some(d) ==> (r, final(d)@) == copy_result(payload_of(self@, h), (*d)@, dest_len),
    {
        match dest {
            None => self.size(h),
            Some(d) => {
                let ghost payload = payload_of(self@, h);
                let ghost d0 = d@;
                let size = self.size(h);
                let mut n: usize = size as usize;
                if (dest_len as usize) < n {
                    n = dest_len as usize;
                }
                if d.len() < n {
                    n = d.len();
                }
                assert(n == copy_result(payload, d0, dest_len).0);
                if n > 0 {
                    match &self.slots[h as usize] {
                        Some(b) => {
                            let mut i: usize = 0;
                            while i < n
                                invariant
                                    i <= n,
                                    n <= b.payload@.len(),
                                    n <= d0.len(),
                                    d@.len() == d0.len(),
                                    b.payload@ == payload,
                                    d@ == payload.subrange(0, i as int) + d0.subrange(i as int, d0.len() as int),
                                decreases n - i,
                            {
                                d.set(i, b.payload[i]);
                                i = i + 1;
                                assert(d@ =~= payload.subrange(0, i as int) + d0.subrange(i as int, d0.len() as int));
                            }
                        },
                        None => {},
                    }
                }
                assert(d@ =~= copy_result(payload, d0, dest_len).1);
                n as u32
            },
        }
    }

    /// The buffer `h`, where it is live.
    pub fn get(&self, h: u32) -> (r: Option<&ExchangeBuffer>)
        ensures
            r is Some <==> self@.contains_key(h),
            r matches Some(b) ==> b@ == self@[h],
    {
        if (h as usize) < self.slots.len() {
            match &self.slots[h as usize] {
                Some(b) => Some(b),
                None => None,
            }
        } else {
            None
        }
    }

    /// A copy of the payload of `h`; empty where `h` is not live.
    pub fn read_all(&self, h: u32) -> (r: Vec<u8>)
        requires
            self.wf(),
        ensures
            r@ == payload_of(self@, h),
    {
        let mut out: Vec<u8> = Vec::new();
        if (h as usize) < self.slots.len() {
            match &self.slots[h as usize] {
                Some(b) => append_bytes(&mut out, b.payload.as_slice()),
                None => {},
            }
        }
        assert(out@ =~= payload_of(self@, h));
        out
    }

    /// The payload of `h` as text; `None` where it is not valid UTF-8. A
    /// handle that is not live reads as the empty string.
    pub fn read_buffer_as_string(&self, buffer_id: u32) -> (r: Option<String>)
        requires
            self.wf(),
        ensures
            r is Some <==> valid_utf8(payload_of(self@, buffer_id)),
            r matches Some(s) ==> s@ == decode_utf8(payload_of(self@, buffer_id)),
    {
        string_from_utf8(self.read_all(buffer_id))
    }

    /// Writes the header entries of `h` in wire form into a new buffer and
    /// returns its handle; the sentinel where `h` is not live, the entries do
    /// not fit the format, or no handle is left.
    pub fn read_headers(&mut self, h: u32) -> (r: u32)
        requires
            old(self).wf(),
        ensures
            final(self).wf(),
            r != INVALID_HANDLE <==> {
                &&& old(self)@.contains_key(h)
                &&& encodable(old(self)@[h].headers)
                &&& encoding(old(self)@[h].headers).len() <= u32::MAX
                &&& old(self).next_handle() < INVALID_HANDLE
            },
            r != INVALID_HANDLE ==> {
                &&& r == old(self).next_handle()
                &&& !old(self)@.contains_key(r)
                &&& final(self)@ == old(self)@.insert(
                    r,
                    BufferView { payload: encoding(old(self)@[h].headers), headers: Seq::empty() },
                )
                &&& final(self).next_handle() == old(self).next_handle() + 1
            },
            r == INVALID_HANDLE ==> *final(self) == *old(self),
    {
        if h as usize >= self.slots.len() || self.slots.len() >= 0xFFFF_FFFF {
            return INVALID_HANDLE;
        }
        let encoded = match &self.slots[h as usize] {
            None => return INVALID_HANDLE,
            Some(b) => encode_headers(&b.headers),
        };
        match encoded {
            None => INVALID_HANDLE,
            Some(payload) => {
                if payload.len() > 0xFFFF_FFFF {
                    return INVALID_HANDLE;
                }
                let buf = ExchangeBuffer { payload, headers: Vec::new() };
                assert(buf@.headers =~= Seq::<Pair>::empty());
                self.create_with(buf)
            },
        }
    }

    /// Allocates an empty buffer.
    pub fn create(&mut self) -> (r: u32)
        requires
            old(self).wf(),
        ensures
            final(self).wf(),
            old(self).next_handle() < INVALID_HANDLE ==> {
                &&& r == old(self).next_handle()
                &&& !old(self)@.contains_key(r)
                &&& final(self)@ == old(self)@.insert(r, empty_buffer())
                &&& final(self).next_handle() == old(self).next_handle() + 1
            },
            old(self).next_handle() >= INVALID_HANDLE ==> r == INVALID_HANDLE && *final(self) == *old(self),
    {
        let buf = ExchangeBuffer { payload: Vec::new(), headers: Vec::new() };
        assert(buf@ == empty_buffer()) by {
            assert(buf@.payload =~= Seq::<u8>::empty());
            assert(buf@.headers =~= Seq::<Pair>::empty());
        }
        self.create_with(buf)
    }
}

/// Two-phase read: the size query gives the payload length `n`; a copying read
/// into a destination of `n` bytes, asking for `n`, then copies exactly `n`
/// bytes, and the destination equals the payload.
pub proof fn lemma_two_phase_read(store: BufferStore, h: u32, dest: Seq<u8>)
    requires
        store.wf(),
        dest.len() == payload_of(store@, h).len(),
    ensures
        ({
            let payload = payload_of(store@, h);
            copy_result(payload, dest, payload.len() as u32) == (payload.len() as u32, payload)
        }),
{
    let payload = payload_of(store@, h);
    if store@.contains_key(h) {
        assert(store.slots@[h as int]->0.payload@.len() <= u32::MAX);
    }
    let r = copy_result(payload, dest, payload.len() as u32);
    assert(r.1 =~= payload);
}

/// Freeing is idempotent: freeing a handle a second time leaves the store as
/// the first free left it, and neither free changes any other buffer.
pub proof fn lemma_free_idempotent(m: Map<u32, BufferView>, h: u32)
    ensures
        m.remove(h).remove(h) == m.remove(h),
        forall|k: u32| k != h ==> (#[trigger] m.remove(h).contains_key(k) <==> m.contains_key(k)),
        forall|k: u32| k != h && m.contains_key(k) ==> #[trigger] m.remove(h)[k] == m[k],
{
    assert(m.remove(h).remove(h) =~= m.remove(h));
}

} // verus!
