use crate::keys::{chars_of, string_of};
use crate::loader_trait::{string_views, PrefixLoader};
use crate::saved_file::SavedFile;
use crate::trie::{key_views, Trie};
use vstd::prelude::*;

verus! {

/// The bytes a chunk request yields: up to `cap` bytes of `data` starting at
/// `offset`, clipped to the data's current end.
pub open spec fn chunk_of(data: Seq<u8>, offset: int, cap: int) -> Seq<u8> {
    let lo = if offset < data.len() {
        offset
    } else {
        data.len() as int
    };
    let hi = if offset + cap < data.len() {
        offset + cap
    } else {
        data.len() as int
    };
    data.subrange(lo, hi)
}

/// A loader holding every object in memory: a prefix tree over the characters
/// of the names, one object per stored name.
pub struct InMemoryLoader {
    /// The index of stored objects.
    storage: Trie<char, SavedFile>,
}

impl View for InMemoryLoader {
    type V = Map<Seq<char>, (Seq<u8>, Seq<char>)>;

    /// The loader viewed as the stored map: name to (bytes, content type).
    closed spec fn view(&self) -> Map<Seq<char>, (Seq<u8>, Seq<char>)> {
        self.storage@.map_values(|f: SavedFile| (f.spec_data(), f.spec_mime()))
    }
}

impl InMemoryLoader {
    /// The index invariant is the trie's own: it holds at all times.
    #[verifier::type_invariant]
    spec fn inv(self) -> bool {
        self.storage.well_formed()
    }

    /// Appends a chunk to the object stored under `name`, keeping its content
    /// type; reports false, changing nothing, when no such object is stored
    /// any more (a racing delete wins, and the upload must abort).
    pub fn append(&mut self, name: &String, additional_data: Vec<u8>) -> (r: bool)
        ensures
            r == old(self)@.dom().contains(name@),
            r ==> final(self)@ == old(self)@.insert(
                name@,
                (old(self)@[name@].0 + additional_data@, old(self)@[name@].1),
            ),
            !r ==> final(self)@ == old(self)@,
    {
        proof {
            use_type_invariant(&*self);
        }
        let key = chars_of(name.as_str());
        let mut storage = Trie::init();
        std::mem::swap(&mut storage, &mut self.storage);
        let r = match storage.get_mut_for_string(key.as_slice()) {
            Some(f) => {
                f.extend(additional_data);
                true
            }
            None => false,
        };
        self.storage = storage;
        proof {
            if r {
                assert(self@ =~= old(self)@.insert(
                    name@,
                    (old(self)@[name@].0 + additional_data@, old(self)@[name@].1),
                ));
            } else {
                assert(self@ =~= old(self)@);
            }
        }
        r
    }

    /// Reads one chunk of the object stored under `name`: up to `max_len`
    /// bytes starting at `offset`, together with the object's current total
    /// length. Absence means the name is not (or no longer) stored.
    pub fn read_chunk(&self, name: &String, offset: usize, max_len: usize) -> (r: Option<
        (Vec<u8>, usize),
    >)
        ensures
            r is Some <==> self@.dom().contains(name@),
            r is Some ==> (r->0).1 == self@[name@].0.len() && (r->0).0@ == chunk_of(
                self@[name@].0,
                offset as int,
                max_len as int,
            ),
    {
        match self.load(name) {
            None => None,
            Some(file) => {
                let data = file.get_data();
                let len = data.len();
                let lo = if offset < len {
                    offset
                } else {
                    len
                };
                let avail = len - lo;
                let take = if max_len < avail {
                    max_len
                } else {
                    avail
                };
                let hi = lo + take;
                let mut bytes: Vec<u8> = Vec::new();
                for i in lo..hi
                    invariant
                        lo <= i <= hi <= len,
                        len == data@.len(),
                        bytes@ == data@.subrange(lo as int, i as int),
                {
                    bytes.push(data[i]);
                    proof {
                        assert(data@.subrange(lo as int, i as int).push(data@[i as int])
                            =~= data@.subrange(lo as int, i as int + 1));
                    }
                }
                proof {
                    assert(bytes@ =~= chunk_of(self@[name@].0, offset as int, max_len as int));
                }
                Some((bytes, len))
            }
        }
    }
}

impl PrefixLoader for InMemoryLoader {
    /// What is loaded is the view of the index.
    open spec fn loaded(&self) -> Map<Seq<char>, (Seq<u8>, Seq<char>)> {
        self@
    }

    /// Initializes an empty storage.
    fn init() -> (l: Self) {
        let l = InMemoryLoader { storage: Trie::init() };
        proof {
            assert(l@ =~= Map::<Seq<char>, (Seq<u8>, Seq<char>)>::empty());
        }
        l
    }

    /// Returns whether an object with the given name is stored.
    fn is_stored(&self, name: &String) -> (r: bool) {
        proof {
            use_type_invariant(self);
        }
        let key = chars_of(name.as_str());
        self.storage.contains(key.as_slice())
    }

    /// Stores a fresh object with no data and the given content type.
    fn insert_new(&mut self, name: &String, mime: &String) {
        proof {
            use_type_invariant(&*self);
        }
        let key = chars_of(name.as_str());
        let file = SavedFile::new(Vec::new(), mime.clone());
        let mut storage = Trie::init();
        std::mem::swap(&mut storage, &mut self.storage);
        storage.insert(key.as_slice(), file);
        self.storage = storage;
        proof {
            assert(self@ =~= old(self)@.insert(name@, (Seq::<u8>::empty(), mime@)));
        }
    }

    /// Returns the object stored under `name`.
    fn load(&self, name: &String) -> (r: Option<&SavedFile>) {
        proof {
            use_type_invariant(self);
        }
        let key = chars_of(name.as_str());
        self.storage.get_for_string(key.as_slice())
    }

    /// Removes the object stored under `name`, if any.
    fn delete(&mut self, name: &String) -> (r: bool) {
        proof {
            use_type_invariant(&*self);
        }
        let key = chars_of(name.as_str());
        let mut storage = Trie::init();
        std::mem::swap(&mut storage, &mut self.storage);
        let r = storage.delete(key.as_slice());
        self.storage = storage;
        proof {
            assert(self@ =~= old(self)@.remove(name@));
        }
        r
    }

    /// Returns every stored name that starts with the given prefix.
    fn get_keys_for_prefix(&self, prefix: &String) -> (r: Vec<String>) {
        proof {
            use_type_invariant(self);
        }
        let p = chars_of(prefix.as_str());
        let keys: Vec<Vec<char>> = self.storage.get_keys_for_prefix(p.as_slice());
        let n = keys.len();
        let mut out: Vec<String> = Vec::new();
        for i in 0..n
            invariant
                n == keys@.len(),
                out@.len() == i,
                forall|x: int| 0 <= x < i ==> string_views(out@)[x] == key_views(keys@)[x],
        {
            let ki = &keys[i];
            let s = string_of(ki, ki.len());
            proof {
                assert(ki@.take(ki@.len() as int) =~= ki@);
            }
            out.push(s);
        }
        proof {
            assert(string_views(out@) =~= key_views(keys@));
        }
        out
    }
}

} // verus!
