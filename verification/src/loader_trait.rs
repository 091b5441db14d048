use crate::saved_file::SavedFile;
use vstd::prelude::*;

verus! {

/// The character sequences held by a vector of strings.
pub open spec fn string_views(s: Seq<String>) -> Seq<Seq<char>> {
    s.map_values(|x: String| x@)
}

/// A loader of stored objects addressed by string names, with prefix listing.
///
/// A loader is abstracted as the map it stores: each name maps to the bytes
/// and the content type of one object. Every operation states exactly what it
/// does to that map.
pub trait PrefixLoader: Sized {
    /// The stored map: name to (bytes, content type).
    spec fn loaded(&self) -> Map<Seq<char>, (Seq<u8>, Seq<char>)>;

    /// Initializes an empty loader.
    fn init() -> (l: Self)
        ensures
            l.loaded() == Map::<Seq<char>, (Seq<u8>, Seq<char>)>::empty(),
    ;

    /// Returns whether an object with the given name is stored.
    fn is_stored(&self, name: &String) -> (r: bool)
        ensures
            r == self.loaded().dom().contains(name@),
    ;

    /// Stores a fresh object with no data and the given content type under
    /// `name`, replacing (and thereby discarding) any object stored there.
    fn insert_new(&mut self, name: &String, mime: &String)
        ensures
            final(self).loaded() == old(self).loaded().insert(
                name@,
                (Seq::<u8>::empty(), mime@),
            ),
    ;

    /// Returns the object stored under `name`.
    fn load(&self, name: &String) -> (r: Option<&SavedFile>)
        ensures
            r is Some <==> self.loaded().dom().contains(name@),
            r is Some ==> (r->0.spec_data(), r->0.spec_mime()) == self.loaded()[name@],
    ;

    /// Removes the object stored under `name`, if any; reports whether an
    /// object was removed.
    fn delete(&mut self, name: &String) -> (r: bool)
        ensures
            r == old(self).loaded().dom().contains(name@),
            final(self).loaded() == old(self).loaded().remove(name@),
    ;

    /// Returns every stored name that starts with the given prefix, each
    /// once, in no particular order.
    fn get_keys_for_prefix(&self, prefix: &String) -> (r: Vec<String>)
        ensures
            forall|t: Seq<char>| #[trigger]
                string_views(r@).contains(t) <==> self.loaded().dom().contains(t)
                    && prefix@.is_prefix_of(t),
            string_views(r@).no_duplicates(),
    ;
}

} // verus!
