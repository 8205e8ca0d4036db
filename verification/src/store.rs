//! The object store: bytes kept under the id that their content gives them.

use crate::codec::{chars_of, text_between};
use crate::hash::{hash_object, is_hex_char, object_id};
use crate::table::Table;
use vstd::prelude::*;
use vstd::slice::slice_to_vec;

verus! {

/// Stored objects, each under its id.
#[derive(Clone)]
pub struct ObjectStore {
    objects: Table<Vec<u8>>,
}

impl ObjectStore {
    /// The store as a map from ids to bytes.
    pub closed spec fn view(&self) -> Map<Seq<char>, Seq<u8>> {
        self.objects@
    }

    /// The ids, in the order in which they first came.
    pub closed spec fn ids(&self) -> Seq<Seq<char>> {
        self.objects.key_seq()
    }

    /// No id stands in the store twice.
    pub closed spec fn wf(&self) -> bool {
        self.objects.wf()
    }

    /// The ids are the keys of the map, each of them once.
    pub proof fn lemma_ids(&self)
        requires
            self.wf(),
        ensures
            self.ids().no_duplicates(),
            forall|id: Seq<char>| #[trigger] self@.dom().contains(id) <==> self.ids().contains(id),
            self@.dom().finite(),
            self@.dom().len() == self.ids().len(),
    {
        self.objects.lemma_entries();
    }

    /// A store without objects.
    pub fn new() -> (store: Self)
        ensures
            store.wf(),
            store@ == Map::<Seq<char>, Seq<u8>>::empty(),
    {
        ObjectStore { objects: Table::new() }
    }

    /// The number of stored objects.
    pub fn len(&self) -> (n: usize)
        requires
            self.wf(),
        ensures
            n == self@.dom().len(),
            n == self.ids().len(),
            self@.dom().finite(),
    {
        proof {
            self.lemma_ids();
        }
        self.objects.len()
    }

    /// The id at place `i`.
    pub fn id_at(&self, i: usize) -> (id: &String)
        requires
            self.wf(),
            i < self.ids().len(),
        ensures
            id@ == self.ids()[i as int],
            self@.dom().contains(id@),
    {
        proof {
            self.objects.lemma_entries();
        }
        self.objects.key_at(i)
    }

    /// The bytes of the object at place `i`.
    pub fn bytes_at(&self, i: usize) -> (bytes: &Vec<u8>)
        requires
            self.wf(),
            i < self.ids().len(),
        ensures
            bytes@ == self@[self.ids()[i as int]],
    {
        self.objects.value_at(i)
    }

    /// Puts `bytes` under `id`, in place of what was there.
    pub fn insert(&mut self, id: String, bytes: Vec<u8>)
        requires
            old(self).wf(),
        ensures
            final(self).wf(),
            final(self)@ == old(self)@.insert(id@, bytes@),
    {
        self.objects.put(id, bytes);
    }

    /// Stores `data` under the id that its content gives it, and returns
    /// the id.
    pub fn write(&mut self, data: &[u8]) -> (id: String)
        requires
            old(self).wf(),
        ensures
            final(self).wf(),
            id@ == object_id(data@),
            final(self)@ == old(self)@.insert(object_id(data@), data@),
            id@.len() == 64,
            forall|i: int| 0 <= i < 64 ==> is_hex_char(#[trigger] id@[i]),
    {
        let id = hash_object(data);
        self.insert(id.clone(), slice_to_vec(data));
        id
    }

    /// The bytes stored under `id`, if there are any.
    pub fn read(&self, id: &str) -> (bytes: Option<&Vec<u8>>)
        requires
            self.wf(),
        ensures
            match bytes {
                Some(b) => self@.dom().contains(id@) && b@ == self@[id@],
                None => !self@.dom().contains(id@),
            },
    {
        self.objects.get(id)
    }
}

/// Where an object lies on disk, below the directory of all objects: in the
/// directory named by the first two characters of its id, in the file named
/// by the rest. An id of fewer than two characters has no place.
pub open spec fn location_of(id: Seq<char>) -> Option<(Seq<char>, Seq<char>)> {
    if id.len() >= 2 {
        Some((id.subrange(0, 2), id.subrange(2, id.len() as int)))
    } else {
        None
    }
}

/// The directory and the file name under which an object is kept on disk.
pub fn object_location(id: &str) -> (place: Option<(String, String)>)
    ensures
        match place {
            Some((dir, file)) => location_of(id@) == Some((dir@, file@)),
            None => location_of(id@).is_none(),
        },
{
    let v = chars_of(id);
    if v.len() >= 2 {
        Some((text_between(&v, 0, 2), text_between(&v, 2, v.len())))
    } else {
        None
    }
}

} // verus!
