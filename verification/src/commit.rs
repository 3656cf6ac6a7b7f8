//! Commit objects: a key-value-list-with-message record.

use vstd::prelude::*;
use crate::error::WitError;
use crate::kvlm::{Kvlm, SpecKvlm, parse_fields, ser_kvlm};

verus! {

/// A commit: its record holds `tree`, optional `parent` entries, `author`,
/// `committer`, and the commit message.
#[derive(Debug)]
pub struct Commit {
    pub kvlm: Kvlm,
}

impl View for Commit {
    type V = SpecKvlm;

    open spec fn view(&self) -> SpecKvlm {
        self.kvlm@
    }
}

/// The byte string `commit`.
pub open spec fn spec_commit_tag() -> Seq<u8> {
    seq![99u8, 111u8, 109u8, 109u8, 105u8, 116u8]
}

/// The byte string `commit`.
pub fn commit_tag() -> (r: Vec<u8>)
    ensures
        r@ == spec_commit_tag(),
{
    let mut v: Vec<u8> = Vec::new();
    v.push(99);
    v.push(111);
    v.push(109);
    v.push(109);
    v.push(105);
    v.push(116);
    proof {
        assert(v@ =~= spec_commit_tag());
    }
    v
}

impl Commit {
    pub fn new() -> (r: Commit)
        ensures
            r@.fields.len() == 0,
            r@.message.len() == 0,
    {
        Commit { kvlm: Kvlm::new() }
    }

    /// The record of this commit.
    pub fn kvlm(&self) -> (r: &Kvlm)
        ensures
            r@ == self@,
    {
        &self.kvlm
    }

    /// A commit serializes to its record's wire text.
    pub fn serialize(&self) -> (r: Vec<u8>)
        ensures
            r@ == ser_kvlm(self@),
    {
        self.kvlm.serialize()
    }

    /// A commit deserializes by parsing the record.
    pub fn deserialize(&mut self, data: &Vec<u8>) -> (r: Result<(), WitError>)
        ensures
            r is Ok,
            final(self)@ == parse_fields(data@),
    {
        let parsed = Kvlm::create(data, 0);
        proof {
            assert(data@.skip(0) =~= data@);
        }
        self.kvlm = parsed;
        Ok(())
    }

    /// The object-type tag of a commit.
    pub fn fmt(&self) -> (r: Vec<u8>)
        ensures
            r@ == spec_commit_tag(),
    {
        commit_tag()
    }
}

} // verus!
