//! The bytes of a measurement file, held in memory.

use vstd::prelude::*;

verus! {

/// The whole content of a non-empty measurement file.
pub struct MappedFile {
    bytes: Vec<u8>,
}

impl View for MappedFile {
    type V = Seq<u8>;

    closed spec fn view(&self) -> Seq<u8> {
        self.bytes@
    }
}

impl MappedFile {
    /// A file held here is never empty.
    #[verifier::type_invariant]
    spec fn non_empty(self) -> bool {
        self.bytes@.len() > 0
    }

    /// Holds the content of a file; an empty file is refused.
    pub fn from_bytes(bytes: Vec<u8>) -> (r: Option<MappedFile>)
        ensures
            r is None <==> bytes@.len() == 0,
            r matches Some(f) ==> f@ == bytes@,
    {
        if bytes.len() == 0 {
            None
        } else {
            Some(MappedFile { bytes })
        }
    }

    /// The bytes of the file.
    pub fn as_ptr(&self) -> (r: &[u8])
        ensures
            r@ == self@,
    {
        self.bytes.as_slice()
    }

    /// The length of the file in bytes.
    pub fn len(&self) -> (r: usize)
        ensures
            r == self@.len(),
            r > 0,
    {
        proof {
            use_type_invariant(self);
        }
        self.bytes.len()
    }
}

} // verus!
