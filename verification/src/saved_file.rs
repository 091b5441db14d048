use vstd::prelude::*;

verus! {

/// One stored object: its bytes, and the content type recorded at creation.
///
/// The byte sequence only ever grows for the lifetime of one creation:
/// `extend` appends and nothing truncates. The content type is set once by
/// `new` and immutable thereafter.
pub struct SavedFile {
    /// Bytes of the object.
    data: Vec<u8>,
    /// Content-type classification of the object.
    mime_type: String,
}

impl SavedFile {
    /// The bytes held by the object.
    pub closed spec fn spec_data(self) -> Seq<u8> {
        self.data@
    }

    /// The content type of the object.
    pub closed spec fn spec_mime(self) -> Seq<char> {
        self.mime_type@
    }

    /// Initializes an object holding the given bytes and content type.
    pub fn new(data_vec: Vec<u8>, mime_type: String) -> (f: SavedFile)
        ensures
            f.spec_data() == data_vec@,
            f.spec_mime() == mime_type@,
    {
        SavedFile { data: data_vec, mime_type }
    }

    /// Appends bytes to the object, in call order; the content type is kept.
    pub fn extend(&mut self, additional_data: Vec<u8>)
        ensures
            final(self).spec_data() == old(self).spec_data() + additional_data@,
            final(self).spec_mime() == old(self).spec_mime(),
    {
        let mut extra = additional_data;
        self.data.append(&mut extra);
    }

    /// The content type of the object.
    pub fn get_mime(&self) -> (m: &String)
        ensures
            m@ == self.spec_mime(),
    {
        &self.mime_type
    }

    /// The bytes of the object.
    pub fn get_data(&self) -> (d: &Vec<u8>)
        ensures
            d@ == self.spec_data(),
    {
        &self.data
    }
}

} // verus!
