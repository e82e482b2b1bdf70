//! The runtime context: one object that owns the buffer store, the route
//! table, the persistence facade and the blob registry, with the operations
//! that a guest module reaches through handles, and the dispatcher that turns
//! a request into a guest invocation.
use vstd::prelude::*;
use vstd::string::StringSliceAdditionalSpecFns;
use vstd::utf8::{decode_utf8, valid_utf8};
use crate::base64::{base64_decode, base64_decoding, base64_encode, base64_encoding};
use crate::blobs::{last_named, BlobRegistry, BlobView};
use crate::buffers::{
    empty_buffer, lemma_two_phase_read, payload_of, BufferStore, BufferView,
    ExchangeBuffer, INVALID_HANDLE,
};
use crate::codec::{decode_headers, encodable, encode_headers, encoding, lemma_header_round_trip};
use crate::entries::{pairs_to_map, pairs_view, unique_keys, Pair};
use crate::dispatch::Phase;
use crate::error::HostError;
use crate::persistence::{keys_with_prefix, PersistenceStore};
use crate::routes::{plugged, split_path, unplugged, Handler, RouteTable};
use crate::text::decimal;

verus! {

/// Everything one host process holds for its guests.
pub struct Runtime {
    pub buffers: BufferStore,
    pub routes: RouteTable,
    pub persistence: PersistenceStore,
    pub blobs: BlobRegistry,
    /// The current invocation's input buffer.
    pub input: u32,
    /// The current invocation's output buffer.
    pub output: u32,
    /// Where the current invocation stands; `Completed` when none is under way.
    pub phase: Phase,
}

/// `b` holds the same routes, stored entries, blobs, current buffers and
/// phase as `a`.
pub open spec fn keeps_tables(a: Runtime, b: Runtime) -> bool {
    &&& a.routes == b.routes
    &&& a.persistence == b.persistence
    &&& a.blobs == b.blobs
    &&& a.input == b.input
    &&& a.output == b.output
    &&& a.phase == b.phase
}

/// `b` holds the same stored entries, current buffers and phase as `a`.
pub open spec fn keeps_invocation(a: Runtime, b: Runtime) -> bool {
    &&& a.persistence == b.persistence
    &&& a.input == b.input
    &&& a.output == b.output
    &&& a.phase == b.phase
}

impl Runtime {
    pub open spec fn wf(&self) -> bool {
        &&& self.buffers.wf()
        &&& self.routes.wf()
        &&& self.persistence.wf()
    }

    pub fn new() -> (r: Runtime)
        ensures
            r.buffers.next_handle() == 0,
            r.wf(),
            r.buffers@ == Map::<u32, BufferView>::empty(),
            r.routes@ == Seq::<crate::routes::RouteView>::empty(),
            r.persistence@ == Map::<Seq<u8>, Seq<u8>>::empty(),
            r.blobs@ == Seq::<BlobView>::empty(),
            r.input == INVALID_HANDLE,
            r.output == INVALID_HANDLE,
            r.phase == Phase::Completed,
    {
        Runtime {
            buffers: BufferStore::new(),
            routes: RouteTable::new(),
            persistence: PersistenceStore::new(),
            blobs: BlobRegistry::new(),
            input: INVALID_HANDLE,
            output: INVALID_HANDLE,
            phase: Phase::Completed,
        }
    }

    pub fn get_input_buffer_id(&self) -> (r: u32)
        ensures
            r == self.input,
    {
        self.input
    }

    pub fn get_output_buffer_id(&self) -> (r: u32)
        ensures
            r == self.output,
    {
        self.output
    }

    /// Allocates an empty buffer; the sentinel when no handle is left.
    pub fn create_exchange_buffer(&mut self) -> (r: u32)
        requires
            old(self).wf(),
        ensures
            old(self).buffers.next_handle() < INVALID_HANDLE ==> final(self).buffers.next_handle() == old(self).buffers.next_handle() + 1,
            keeps_tables(*old(self), *final(self)),
            final(self).wf(),
            final(self).routes == old(self).routes,
            final(self).persistence == old(self).persistence,
            old(self).buffers.next_handle() < INVALID_HANDLE ==> {
                &&& r == old(self).buffers.next_handle()
                &&& !old(self).buffers@.contains_key(r)
                &&& final(self).buffers@ == old(self).buffers@.insert(r, empty_buffer())
            },
            old(self).buffers.next_handle() >= INVALID_HANDLE ==> r == INVALID_HANDLE
                && final(self).buffers@ == old(self).buffers@,
    {
        self.buffers.create()
    }

    /// Replaces the payload of a buffer.
    pub fn write_exchange_buffer(&mut self, buffer_id: u32, content: &[u8]) -> (r: Result<(), HostError>)
        requires
            old(self).wf(),
            content@.len() <= u32::MAX,
        ensures
            final(self).buffers.next_handle() == old(self).buffers.next_handle(),
            keeps_tables(*old(self), *final(self)),
            final(self).wf(),
            r is Ok <==> old(self).buffers@.contains_key(buffer_id),
            r is Ok ==> final(self).buffers@ == old(self).buffers@.insert(
                buffer_id,
                BufferView { payload: content@, headers: old(self).buffers@[buffer_id].headers },
            ),
            r is Err ==> r == Err::<(), HostError>(HostError::UnknownBuffer)
                && final(self).buffers@ == old(self).buffers@,
    {
        self.buffers.write(buffer_id, content)
    }

    /// Appends a header entry to a buffer.
    pub fn write_exchange_buffer_header(&mut self, buffer_id: u32, name: &str, value: &str) -> (r: Result<
        (),
        HostError,
    >)
        requires
            old(self).wf(),
        ensures
            final(self).buffers.next_handle() == old(self).buffers.next_handle(),
            keeps_tables(*old(self), *final(self)),
            final(self).wf(),
            r is Ok <==> old(self).buffers@.contains_key(buffer_id),
            r is Ok ==> final(self).buffers@ == old(self).buffers@.insert(
                buffer_id,
                BufferView {
                    payload: old(self).buffers@[buffer_id].payload,
                    headers: old(self).buffers@[buffer_id].headers.push((name.spec_bytes(), value.spec_bytes())),
                },
            ),
            r is Err ==> r == Err::<(), HostError>(HostError::UnknownBuffer)
                && final(self).buffers@ == old(self).buffers@,
    {
        self.buffers.write_header(buffer_id, name.as_bytes(), value.as_bytes())
    }

    /// The payload length of a buffer; 0 for a handle that is not live.
    pub fn get_exchange_buffer_size(&self, buffer_id: u32) -> (r: u32)
        requires
            self.wf(),
        ensures
            r == payload_of(self.buffers@, buffer_id).len(),
    {
        self.buffers.size(buffer_id)
    }

    /// The payload of a buffer, read in two phases: the size first, then the
    /// bytes into a destination of that size. Empty for a handle that is not live.
    pub fn read_exchange_buffer(&self, buffer_id: u32) -> (r: Vec<u8>)
        requires
            self.wf(),
        ensures
            r@ == payload_of(self.buffers@, buffer_id),
    {
        let size = self.buffers.read(buffer_id, None, 0);
        let mut dest: Vec<u8> = Vec::new();
        let mut i: u32 = 0;
        while i < size
            invariant
                i <= size,
                dest@.len() == i,
            decreases size - i,
        {
            dest.push(0);
            i = i + 1;
        }
        proof {
            lemma_two_phase_read(self.buffers, buffer_id, dest@);
        }
        let _ = self.buffers.read(buffer_id, Some(&mut dest), size);
        dest
    }

    /// The payload of a buffer as text; `None` where it is not valid UTF-8.
    pub fn read_buffer_as_string(&self, buffer_id: u32) -> (r: Option<String>)
        requires
            self.wf(),
        ensures
            r is Some <==> valid_utf8(payload_of(self.buffers@, buffer_id)),
            r matches Some(s) ==> s@ == decode_utf8(payload_of(self.buffers@, buffer_id)),
    {
        self.buffers.read_buffer_as_string(buffer_id)
    }

    /// The header entries of a buffer, fetched the way a guest does: the
    /// host writes them in wire form into a fresh buffer, which is read,
    /// freed and decoded. `None` where the host answers with the sentinel.
    pub fn read_exchange_buffer_headers(&mut self, buffer_id: u32) -> (r: Option<Vec<(Vec<u8>, Vec<u8>)>>)
        requires
            old(self).wf(),
        ensures
            r is Some ==> final(self).buffers.next_handle() == old(self).buffers.next_handle() + 1,
            r is None ==> final(self).buffers.next_handle() == old(self).buffers.next_handle(),
            keeps_tables(*old(self), *final(self)),
            final(self).wf(),
            final(self).buffers@ == old(self).buffers@,
            r is Some <==> {
                &&& old(self).buffers@.contains_key(buffer_id)
                &&& encodable(old(self).buffers@[buffer_id].headers)
                &&& encoding(old(self).buffers@[buffer_id].headers).len() <= u32::MAX
                &&& old(self).buffers.next_handle() < INVALID_HANDLE
            },
            r matches Some(v) ==> pairs_view(v@) == old(self).buffers@[buffer_id].headers,
    {
        let h = self.buffers.read_headers(buffer_id);
        if h == INVALID_HANDLE {
            return None;
        }
        let wire = self.read_exchange_buffer(h);
        self.buffers.free(h);
        assert(self.buffers@ =~= old(self).buffers@);
        let ghost headers = old(self).buffers@[buffer_id].headers;
        proof {
            lemma_header_round_trip(headers);
        }
        decode_headers(wire.as_slice())
    }

    /// Frees a buffer; freeing a handle that is not live is no error.
    pub fn free_buffer(&mut self, buffer_id: u32)
        requires
            old(self).wf(),
        ensures
            final(self).buffers.next_handle() == old(self).buffers.next_handle(),
            keeps_tables(*old(self), *final(self)),
            final(self).wf(),
            final(self).buffers@ == old(self).buffers@.remove(buffer_id),
    {
        self.buffers.free(buffer_id)
    }

    /// Stores `value` under `key`.
    pub fn persistence_set(&mut self, key: &[u8], value: &[u8])
        requires
            old(self).wf(),
        ensures
            final(self).routes == old(self).routes,
            final(self).blobs == old(self).blobs,
            final(self).input == old(self).input,
            final(self).output == old(self).output,
            final(self).phase == old(self).phase,
            final(self).wf(),
            final(self).persistence@ == old(self).persistence@.insert(key@, value@),
            final(self).buffers == old(self).buffers,
    {
        self.persistence.set(key, value)
    }

    /// A fresh buffer holding the value stored under `key`; the sentinel where
    /// there is none, it is too long for a buffer, or no handle is left.
    pub fn persistence_get(&mut self, key: &[u8]) -> (r: u32)
        requires
            old(self).wf(),
        ensures
            r != INVALID_HANDLE ==> final(self).buffers.next_handle() == old(self).buffers.next_handle() + 1,
            keeps_tables(*old(self), *final(self)),
            final(self).wf(),
            final(self).persistence == old(self).persistence,
            r != INVALID_HANDLE <==> {
                &&& old(self).persistence@.contains_key(key@)
                &&& old(self).persistence@[key@].len() <= u32::MAX
                &&& old(self).buffers.next_handle() < INVALID_HANDLE
            },
            r != INVALID_HANDLE ==> {
                &&& !old(self).buffers@.contains_key(r)
                &&& final(self).buffers@ == old(self).buffers@.insert(
                    r,
                    BufferView { payload: old(self).persistence@[key@], headers: Seq::empty() },
                )
            },
            r == INVALID_HANDLE ==> final(self).buffers == old(self).buffers,
    {
        match self.persistence.get(key) {
            None => INVALID_HANDLE,
            Some(v) => {
                if v.len() > 0xFFFF_FFFF {
                    return INVALID_HANDLE;
                }
                let buf = ExchangeBuffer { payload: v, headers: Vec::new() };
                assert(buf@.headers =~= Seq::<Pair>::empty());
                self.buffers.create_with(buf)
            },
        }
    }

    /// A fresh buffer holding, in wire form, every stored entry whose key
    /// starts with `prefix`; the sentinel where they do not fit a buffer or
    /// no handle is left.
    pub fn persistence_get_subset(&mut self, prefix: &str) -> (r: u32)
        requires
            old(self).wf(),
        ensures
            r != INVALID_HANDLE ==> final(self).buffers.next_handle() == old(self).buffers.next_handle() + 1,
            keeps_tables(*old(self), *final(self)),
            final(self).wf(),
            final(self).persistence == old(self).persistence,
            ({
                let ps = old(self).persistence.subset_list(prefix.spec_bytes());
                &&& r != INVALID_HANDLE <==> {
                    &&& encodable(ps)
                    &&& encoding(ps).len() <= u32::MAX
                    &&& old(self).buffers.next_handle() < INVALID_HANDLE
                }
                &&& r != INVALID_HANDLE ==> {
                    &&& !old(self).buffers@.contains_key(r)
                    &&& final(self).buffers@ == old(self).buffers@.insert(
                        r,
                        BufferView { payload: encoding(ps), headers: Seq::empty() },
                    )
                }
            }),
            r == INVALID_HANDLE ==> final(self).buffers == old(self).buffers,
    {
        let entries = self.persistence.get_subset(prefix.as_bytes());
        match encode_headers(&entries) {
            None => INVALID_HANDLE,
            Some(payload) => {
                if payload.len() > 0xFFFF_FFFF {
                    return INVALID_HANDLE;
                }
                let buf = ExchangeBuffer { payload, headers: Vec::new() };
                assert(buf@.headers =~= Seq::<Pair>::empty());
                self.buffers.create_with(buf)
            },
        }
    }

    /// Registers the entry point `start_function` of module `name` for
    /// `method` and the path pattern `path`, replacing any earlier handler.
    pub fn plug_function(&mut self, method: &str, path: &str, name: &str, start_function: &str)
        requires
            old(self).wf(),
        ensures
            keeps_invocation(*old(self), *final(self)),
            final(self).wf(),
            final(self).buffers == old(self).buffers,
            exists|module: String, entry_point: String|
                module@ == name@ && entry_point@ == start_function@ && final(self).routes@ == plugged(
                    old(self).routes@,
                    method.spec_bytes(),
                    split_path(path.spec_bytes()),
                    Handler::Function { module, entry_point },
                ),
    {
        let module = String::from_str(name);
        let entry_point = String::from_str(start_function);
        let ghost (mm, ee) = (module, entry_point);
        self.routes.plug(method.as_bytes(), path.as_bytes(), Handler::Function { module, entry_point });
        assert(mm@ == name@ && ee@ == start_function@);
    }

    /// Stores `bytes` as a new blob with `content_type` and registers it as
    /// the static handler for `method` and `path`; returns the blob's
    /// technical id.
    pub fn plug_file(&mut self, method: &str, path: &str, content_type: &str, bytes: &[u8]) -> (r: String)
        requires
            old(self).wf(),
            old(self).blobs@.len() < u64::MAX,
        ensures
            keeps_invocation(*old(self), *final(self)),
            final(self).wf(),
            final(self).buffers == old(self).buffers,
            r@ == decimal(old(self).blobs@.len()),
            final(self).blobs@ == old(self).blobs@.push(
                BlobView { name: None, content_type: content_type.spec_bytes(), bytes: bytes@ },
            ),
            final(self).routes@ == plugged(
                old(self).routes@,
                method.spec_bytes(),
                split_path(path.spec_bytes()),
                Handler::StaticBlob { tech_id: r },
            ),
    {
        let tech_id = self.blobs.register(None, content_type.as_bytes(), bytes);
        self.routes.plug(method.as_bytes(), path.as_bytes(), Handler::StaticBlob { tech_id: tech_id.clone() });
        tech_id
    }

    /// Serves the last blob registered under `name` at `method` and `path`,
    /// replacing any earlier handler; `NotFound`, changing nothing, where no
    /// blob has that name.
    pub fn plug_named_file(&mut self, method: &str, path: &str, name: &str) -> (r: Result<(), HostError>)
        requires
            old(self).wf(),
        ensures
            final(self).wf(),
            keeps_invocation(*old(self), *final(self)),
            final(self).buffers == old(self).buffers,
            final(self).blobs == old(self).blobs,
            r is Ok <==> last_named(old(self).blobs@, name.spec_bytes()) >= 0,
            r is Err ==> r == Err::<(), HostError>(HostError::NotFound) && final(self).routes == old(self).routes,
            r is Ok ==> exists|t: String|
                t@ == decimal(last_named(old(self).blobs@, name.spec_bytes()) as nat) && final(self).routes@
                    == plugged(
                    old(self).routes@,
                    method.spec_bytes(),
                    split_path(path.spec_bytes()),
                    Handler::StaticBlob { tech_id: t },
                ),
    {
        match self.blobs.tech_id_from_name(name.as_bytes()) {
            None => Err(HostError::NotFound),
            Some(tech_id) => {
                let ghost t = tech_id;
                self.routes.plug(method.as_bytes(), path.as_bytes(), Handler::StaticBlob { tech_id });
                assert(t@ == decimal(last_named(old(self).blobs@, name.spec_bytes()) as nat));
                Ok(())
            },
        }
    }

    /// Removes the route for `method` and `path`; always succeeds.
    pub fn unplug_path(&mut self, method: &str, path: &str)
        requires
            old(self).wf(),
        ensures
            keeps_invocation(*old(self), *final(self)),
            final(self).wf(),
            final(self).buffers == old(self).buffers,
            final(self).routes@ == unplugged(old(self).routes@, method.spec_bytes(), split_path(path.spec_bytes())),
    {
        self.routes.unplug(method.as_bytes(), path.as_bytes())
    }

    /// Registers a named blob; returns its technical id.
    pub fn register_blob_with_name(&mut self, name: &str, content_type: &str, content: &[u8]) -> (r: String)
        requires
            old(self).wf(),
            old(self).blobs@.len() < u64::MAX,
        ensures
            final(self).buffers == old(self).buffers,
            final(self).routes == old(self).routes,
            keeps_invocation(*old(self), *final(self)),
            final(self).wf(),
            r@ == decimal(old(self).blobs@.len()),
            final(self).blobs@ == old(self).blobs@.push(
                BlobView { name: Some(name.spec_bytes()), content_type: content_type.spec_bytes(), bytes: content@ },
            ),
    {
        self.blobs.register(Some(name.as_bytes()), content_type.as_bytes(), content)
    }

    /// Registers a blob without a name; returns its technical id.
    pub fn register_blob(&mut self, content_type: &str, content: &[u8]) -> (r: String)
        requires
            old(self).wf(),
            old(self).blobs@.len() < u64::MAX,
        ensures
            final(self).buffers == old(self).buffers,
            final(self).routes == old(self).routes,
            keeps_invocation(*old(self), *final(self)),
            final(self).wf(),
            r@ == decimal(old(self).blobs@.len()),
            final(self).blobs@ == old(self).blobs@.push(
                BlobView { name: None, content_type: content_type.spec_bytes(), bytes: content@ },
            ),
    {
        self.blobs.register(None, content_type.as_bytes(), content)
    }

    /// The technical id of the last blob registered under `name`.
    pub fn get_blob_tech_id_from_name(&self, name: &str) -> (r: Option<String>)
        ensures
            r is Some <==> last_named(self.blobs@, name.spec_bytes()) >= 0,
            r matches Some(id) ==> id@ == decimal(last_named(self.blobs@, name.spec_bytes()) as nat),
    {
        self.blobs.tech_id_from_name(name.as_bytes())
    }

    /// The bytes of the last blob registered under `name`, as text.
    pub fn get_blob_bytes_as_string(&self, name: &str) -> (r: Option<String>)
        ensures
            r is Some <==> last_named(self.blobs@, name.spec_bytes()) >= 0 && valid_utf8(
                self.blobs@[last_named(self.blobs@, name.spec_bytes())].bytes,
            ),
            r matches Some(s) ==> s@ == decode_utf8(self.blobs@[last_named(self.blobs@, name.spec_bytes())].bytes),
    {
        self.blobs.bytes_as_string(name.as_bytes())
    }

    /// The stored entries under `prefix`, fetched the way a guest does: the
    /// host writes them in wire form into a fresh buffer, which is read,
    /// freed and decoded. `None` where the host answers with the sentinel.
    pub fn persistence_get_subset_entries(&mut self, prefix: &str) -> (r: Option<Vec<(Vec<u8>, Vec<u8>)>>)
        requires
            old(self).wf(),
        ensures
            r is Some ==> final(self).buffers.next_handle() == old(self).buffers.next_handle() + 1,
            r is None ==> final(self).buffers.next_handle() == old(self).buffers.next_handle(),
            final(self).wf(),
            final(self).buffers@ == old(self).buffers@,
            keeps_tables(*old(self), *final(self)),
            r matches Some(v) ==> {
                &&& pairs_to_map(pairs_view(v@)) == old(self).persistence@.restrict(
                    keys_with_prefix(prefix.spec_bytes()),
                )
                &&& unique_keys(pairs_view(v@))
            },
            ({
                let ps = old(self).persistence.subset_list(prefix.spec_bytes());
                r is Some <==> {
                    &&& encodable(ps)
                    &&& encoding(ps).len() <= u32::MAX
                    &&& old(self).buffers.next_handle() < INVALID_HANDLE
                }
            }),
    {
        let ghost ps = self.persistence.subset_list(prefix.spec_bytes());
        proof {
            self.persistence.lemma_subset_list(prefix.spec_bytes());
        }
        let h = self.persistence_get_subset(prefix);
        if h == INVALID_HANDLE {
            return None;
        }
        let wire = self.read_exchange_buffer(h);
        self.buffers.free(h);
        assert(self.buffers@ =~= old(self).buffers@);
        proof {
            lemma_header_round_trip(ps);
        }
        decode_headers(wire.as_slice())
    }

    /// The payload of a buffer; the same as `read_exchange_buffer`.
    pub fn read_buffer(&self, buffer_id: u32) -> (r: Vec<u8>)
        requires
            self.wf(),
        ensures
            r@ == payload_of(self.buffers@, buffer_id),
    {
        self.read_exchange_buffer(buffer_id)
    }

    /// Replaces the payload of a buffer; the same as `write_exchange_buffer`.
    pub fn write_buffer(&mut self, buffer_id: u32, buffer: &[u8]) -> (r: Result<(), HostError>)
        requires
            old(self).wf(),
            buffer@.len() <= u32::MAX,
        ensures
            final(self).buffers.next_handle() == old(self).buffers.next_handle(),
            final(self).wf(),
            keeps_tables(*old(self), *final(self)),
            r is Ok <==> old(self).buffers@.contains_key(buffer_id),
            r is Ok ==> final(self).buffers@ == old(self).buffers@.insert(
                buffer_id,
                BufferView { payload: buffer@, headers: old(self).buffers@[buffer_id].headers },
            ),
            r is Err ==> r == Err::<(), HostError>(HostError::UnknownBuffer)
                && final(self).buffers@ == old(self).buffers@,
    {
        self.write_exchange_buffer(buffer_id, buffer)
    }

    /// Appends a header entry to a buffer; the same as
    /// `write_exchange_buffer_header`.
    pub fn write_buffer_header(&mut self, buffer_id: u32, name: &str, value: &str) -> (r: Result<(), HostError>)
        requires
            old(self).wf(),
        ensures
            final(self).buffers.next_handle() == old(self).buffers.next_handle(),
            final(self).wf(),
            keeps_tables(*old(self), *final(self)),
            r is Ok <==> old(self).buffers@.contains_key(buffer_id),
            r is Ok ==> final(self).buffers@ == old(self).buffers@.insert(
                buffer_id,
                BufferView {
                    payload: old(self).buffers@[buffer_id].payload,
                    headers: old(self).buffers@[buffer_id].headers.push((name.spec_bytes(), value.spec_bytes())),
                },
            ),
            r is Err ==> r == Err::<(), HostError>(HostError::UnknownBuffer)
                && final(self).buffers@ == old(self).buffers@,
    {
        self.write_exchange_buffer_header(buffer_id, name, value)
    }

    /// The header entries of a buffer; the same as
    /// `read_exchange_buffer_headers`.
    pub fn get_buffer_headers(&mut self, buffer_id: u32) -> (r: Option<Vec<(Vec<u8>, Vec<u8>)>>)
        requires
            old(self).wf(),
        ensures
            r is Some ==> final(self).buffers.next_handle() == old(self).buffers.next_handle() + 1,
            r is None ==> final(self).buffers.next_handle() == old(self).buffers.next_handle(),
            final(self).wf(),
            keeps_tables(*old(self), *final(self)),
            final(self).buffers@ == old(self).buffers@,
            r is Some <==> {
                &&& old(self).buffers@.contains_key(buffer_id)
                &&& encodable(old(self).buffers@[buffer_id].headers)
                &&& encoding(old(self).buffers@[buffer_id].headers).len() <= u32::MAX
                &&& old(self).buffers.next_handle() < INVALID_HANDLE
            },
            r matches Some(v) ==> pairs_view(v@) == old(self).buffers@[buffer_id].headers,
    {
        self.read_exchange_buffer_headers(buffer_id)
    }

    /// A fresh buffer holding the base64 text of `input`; the sentinel where
    /// it does not fit a buffer or no handle is left.
    pub fn base64_encode(&mut self, input: &[u8]) -> (r: u32)
        requires
            old(self).wf(),
        ensures
            r != INVALID_HANDLE ==> final(self).buffers.next_handle() == old(self).buffers.next_handle() + 1,
            final(self).wf(),
            keeps_tables(*old(self), *final(self)),
            r != INVALID_HANDLE <==> base64_encoding(input@).len() <= u32::MAX
                && old(self).buffers.next_handle() < INVALID_HANDLE,
            r != INVALID_HANDLE ==> !old(self).buffers@.contains_key(r) && final(self).buffers@
                == old(self).buffers@.insert(
                r,
                BufferView { payload: base64_encoding(input@), headers: Seq::empty() },
            ),
            r == INVALID_HANDLE ==> final(self).buffers == old(self).buffers,
    {
        let text = base64_encode(input);
        if text.len() > 0xFFFF_FFFF {
            return INVALID_HANDLE;
        }
        let buf = ExchangeBuffer { payload: text, headers: Vec::new() };
        assert(buf@.headers =~= Seq::<Pair>::empty());
        self.buffers.create_with(buf)
    }

    /// A fresh buffer holding the bytes that the base64 text `encoded`
    /// stands for; the sentinel where it is not canonical base64, the bytes
    /// do not fit a buffer, or no handle is left.
    pub fn base64_decode(&mut self, encoded: &str) -> (r: u32)
        requires
            old(self).wf(),
        ensures
            r != INVALID_HANDLE ==> final(self).buffers.next_handle() == old(self).buffers.next_handle() + 1,
            final(self).wf(),
            keeps_tables(*old(self), *final(self)),
            r != INVALID_HANDLE <==> {
                &&& base64_decoding(encoded.spec_bytes()) is Some
                &&& base64_decoding(encoded.spec_bytes())->0.len() <= u32::MAX
                &&& old(self).buffers.next_handle() < INVALID_HANDLE
            },
            r != INVALID_HANDLE ==> !old(self).buffers@.contains_key(r) && final(self).buffers@
                == old(self).buffers@.insert(
                r,
                BufferView { payload: base64_decoding(encoded.spec_bytes())->0, headers: Seq::empty() },
            ),
            r == INVALID_HANDLE ==> final(self).buffers == old(self).buffers,
    {
        let bytes = match base64_decode(encoded.as_bytes()) {
            None => return INVALID_HANDLE,
            Some(b) => b,
        };
        if bytes.len() > 0xFFFF_FFFF {
            return INVALID_HANDLE;
        }
        let buf = ExchangeBuffer { payload: bytes, headers: Vec::new() };
        assert(buf@.headers =~= Seq::<Pair>::empty());
        self.buffers.create_with(buf)
    }

    /// The number of registered blobs.
    pub fn blob_count(&self) -> (r: usize)
        ensures
            r == self.blobs@.len(),
    {
        self.blobs.len()
    }
}

} // verus!
