//! Blob objects: an opaque byte payload whose serialization is the identity.

use vstd::prelude::*;
use crate::error::WitError;

verus! {

/// A blob: raw bytes, no further structure.
#[derive(Debug)]
pub struct Blob {
    blobdata: Vec<u8>,
}

impl View for Blob {
    type V = Seq<u8>;

    closed spec fn view(&self) -> Seq<u8> {
        self.blobdata@
    }
}

/// The byte string `blob`.
pub open spec fn spec_blob_tag() -> Seq<u8> {
    seq![98u8, 108u8, 111u8, 98u8]
}

/// The byte string `blob`.
pub fn blob_tag() -> (r: Vec<u8>)
    ensures
        r@ == spec_blob_tag(),
{
    let mut v: Vec<u8> = Vec::new();
    v.push(98);
    v.push(108);
    v.push(111);
    v.push(98);
    proof {
        assert(v@ =~= spec_blob_tag());
    }
    v
}

impl Blob {
    pub fn new(data: Vec<u8>) -> (r: Blob)
        ensures
            r@ == data@,
    {
        Blob { blobdata: data }
    }

    /// The payload bytes.
    pub fn data(&self) -> (r: &Vec<u8>)
        ensures
            r@ == self@,
    {
        &self.blobdata
    }

    /// A blob serializes to its own bytes.
    pub fn serialize(&self) -> (r: Vec<u8>)
        ensures
            r@ == self@,
    {
        let mut out: Vec<u8> = Vec::new();
        out.extend_from_slice(self.blobdata.as_slice());
        proof {
            assert(out@ =~= self@);
        }
        out
    }

    /// A blob deserializes by taking the bytes as they are.
    pub fn deserialize(&mut self, data: Vec<u8>) -> (r: Result<(), WitError>)
        ensures
            r is Ok,
            final(self)@ == data@,
    {
        self.blobdata = data;
        Ok(())
    }

    /// The object-type tag of a blob.
    pub fn fmt(&self) -> (r: Vec<u8>)
        ensures
            r@ == spec_blob_tag(),
    {
        blob_tag()
    }
}

} // verus!
