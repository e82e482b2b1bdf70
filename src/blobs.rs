//! The blob registry: immutable byte payloads with a content type, addressed
//! by a technical id (the decimal rendering of their registration index) and
//! optionally by a name.
use vstd::prelude::*;
use vstd::utf8::{decode_utf8, valid_utf8};
use crate::bytes::{bytes_eq, to_vec};
use crate::text::{decimal, decimal_string, string_from_utf8};

verus! {

/// A blob as plain values.
pub struct BlobView {
    pub name: Option<Seq<u8>>,
    pub content_type: Seq<u8>,
    pub bytes: Seq<u8>,
}

/// A registered blob.
pub struct Blob {
    pub name: Option<Vec<u8>>,
    pub content_type: Vec<u8>,
    pub bytes: Vec<u8>,
}

impl View for Blob {
    type V = BlobView;

    open spec fn view(&self) -> BlobView {
        BlobView {
            name: match self.name {
                Some(n) => Some(n@),
                None => None,
            },
            content_type: self.content_type@,
            bytes: self.bytes@,
        }
    }
}

/// The blobs in registration order; the blob at index `i` has technical id
/// `decimal(i)`.
pub struct BlobRegistry {
    blobs: Vec<Blob>,
}

impl View for BlobRegistry {
    type V = Seq<BlobView>;

    closed spec fn view(&self) -> Seq<BlobView> {
        self.blobs@.map_values(|b: Blob| b@)
    }
}

/// The index of the last blob registered under `name`; -1 where there is none.
pub open spec fn last_named(v: Seq<BlobView>, name: Seq<u8>) -> int
    decreases v.len(),
{
    if v.len() == 0 {
        -1
    } else if v.last().name == Some(name) {
        v.len() - 1
    } else {
        last_named(v.drop_last(), name)
    }
}

proof fn lemma_last_named(v: Seq<BlobView>, name: Seq<u8>)
    ensures
        -1 <= last_named(v, name) < v.len(),
        last_named(v, name) >= 0 ==> v[last_named(v, name)].name == Some(name),
        forall|j: int| last_named(v, name) < j < v.len() ==> v[j].name != Some(name),
    decreases v.len(),
{
    if v.len() > 0 {
        lemma_last_named(v.drop_last(), name);
        assert forall|j: int| last_named(v, name) < j < v.len() implies v[j].name != Some(name) by {
            if j < v.len() - 1 {
                assert(v.drop_last()[j] == v[j]);
            }
        }
        if last_named(v, name) >= 0 && last_named(v, name) < v.len() - 1 {
            assert(v.drop_last()[last_named(v, name)] == v[last_named(v, name)]);
        }
    }
}

impl BlobRegistry {
    pub fn new() -> (r: BlobRegistry)
        ensures
            r@ == Seq::<BlobView>::empty(),
    {
        let r = BlobRegistry { blobs: Vec::new() };
        assert(r@ =~= Seq::<BlobView>::empty());
        r
    }

    /// The number of registered blobs.
    pub fn len(&self) -> (r: usize)
        ensures
            r == self@.len(),
    {
        self.blobs.len()
    }

    /// Registers a blob and returns its technical id.
    pub fn register(&mut self, name: Option<&[u8]>, content_type: &[u8], bytes: &[u8]) -> (r: String)
        requires
            old(self)@.len() < u64::MAX,
        ensures
            r@ == decimal(old(self)@.len()),
            final(self)@ == old(self)@.push(
                BlobView {
                    name: match name {
                        Some(n) => Some(n@),
                        None => None,
                    },
                    content_type: content_type@,
                    bytes: bytes@,
                },
            ),
    {
        let id = decimal_string(self.blobs.len() as u64);
        let n = match name {
            Some(n) => Some(to_vec(n)),
            None => None,
        };
        let blob = Blob { name: n, content_type: to_vec(content_type), bytes: to_vec(bytes) };
        let ghost before = self@;
        self.blobs.push(blob);
        assert(self@ =~= before.push(blob@));
        id
    }

    /// The index of the last blob registered under `name`, if any.
    fn find_named(&self, name: &[u8]) -> (r: Option<usize>)
        ensures
            r is None ==> last_named(self@, name@) == -1,
            r matches Some(i) ==> i == last_named(self@, name@) && i < self@.len(),
    {
        let ghost v = self@;
        proof {
            lemma_last_named(v, name@);
        }
        let mut i: usize = self.blobs.len();
        while i > 0
            invariant
                v == self@,
                v.len() == self.blobs@.len(),
                i <= v.len(),
                -1 <= last_named(v, name@) < v.len(),
                last_named(v, name@) >= 0 ==> v[last_named(v, name@)].name == Some(name@),
                forall|j: int| last_named(v, name@) < j < v.len() ==> v[j].name != Some(name@),
                forall|j: int| i <= j < v.len() ==> v[j].name != Some(name@),
            decreases i,
        {
            i = i - 1;
            assert(v[i as int] == self.blobs@[i as int]@);
            match &self.blobs[i].name {
                Some(n) => {
                    if bytes_eq(n.as_slice(), name) {
                        return Some(i);
                    }
                },
                None => {},
            }
        }
        None
    }

    /// The technical id of the last blob registered under `name`.
    pub fn tech_id_from_name(&self, name: &[u8]) -> (r: Option<String>)
        ensures
            r is Some <==> last_named(self@, name@) >= 0,
            r matches Some(id) ==> id@ == decimal(last_named(self@, name@) as nat),
    {
        match self.find_named(name) {
            Some(i) => Some(decimal_string(i as u64)),
            None => None,
        }
    }

    /// The bytes of the last blob registered under `name`, as text; `None`
    /// where there is no such blob or its bytes are not valid UTF-8.
    pub fn bytes_as_string(&self, name: &[u8]) -> (r: Option<String>)
        ensures
            r is Some <==> last_named(self@, name@) >= 0 && valid_utf8(self@[last_named(self@, name@)].bytes),
            r matches Some(s) ==> s@ == decode_utf8(self@[last_named(self@, name@)].bytes),
    {
        match self.find_named(name) {
            Some(i) => {
                assert(self@[i as int] == self.blobs@[i as int]@);
                string_from_utf8(to_vec(self.blobs[i].bytes.as_slice()))
            },
            None => None,
        }
    }

    /// The index of the blob whose technical id is `tech_id`.
    pub fn index_of(&self, tech_id: &String) -> (r: Option<usize>)
        ensures
            r is None ==> forall|i: int| 0 <= i < self@.len() ==> #[trigger] decimal(i as nat) != tech_id@,
            r matches Some(i) ==> i < self@.len() && decimal(i as nat) == tech_id@,
    {
        let mut i: usize = 0;
        while i < self.blobs.len()
            invariant
                i <= self.blobs@.len(),
                self@.len() == self.blobs@.len(),
                forall|j: int| 0 <= j < i ==> #[trigger] decimal(j as nat) != tech_id@,
            decreases self.blobs@.len() - i,
        {
            let id = decimal_string(i as u64);
            if id == *tech_id {
                return Some(i);
            }
            i = i + 1;
        }
        None
    }

    /// The blob at index `i`.
    pub fn blob(&self, i: usize) -> (r: &Blob)
        requires
            i < self@.len(),
        ensures
            r@ == self@[i as int],
    {
        &self.blobs[i]
    }

}

} // verus!
