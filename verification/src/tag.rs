//! Tag objects: a key-value-list-with-message record naming another object.

use vstd::prelude::*;
use crate::error::WitError;
use crate::kvlm::{Kvlm, SpecKvlm, SpecField, parse_fields, ser_kvlm};
use crate::util::{ascii_bytes, str_bytes};

verus! {

/// A tag: its record holds `object`, `type`, `tag`, `tagger`, and a message.
#[derive(Debug)]
pub struct Tag {
    pub kvlm: Kvlm,
}

impl View for Tag {
    type V = SpecKvlm;

    open spec fn view(&self) -> SpecKvlm {
        self.kvlm@
    }
}

/// The byte string `tag`.
pub open spec fn spec_tag_tag() -> Seq<u8> {
    seq![116u8, 97u8, 103u8]
}

/// The byte string `tag`.
pub fn tag_tag() -> (r: Vec<u8>)
    ensures
        r@ == spec_tag_tag(),
{
    let mut v: Vec<u8> = Vec::new();
    v.push(116);
    v.push(97);
    v.push(103);
    proof {
        assert(v@ =~= spec_tag_tag());
    }
    v
}

impl Tag {
    pub fn new() -> (r: Tag)
        ensures
            r@.fields.len() == 0,
            r@.message.len() == 0,
    {
        Tag { kvlm: Kvlm::new() }
    }

    /// The record of this tag.
    pub fn kvlm(&mut self) -> (r: &mut Kvlm)
        ensures
            *r == old(self).kvlm,
            final(self).kvlm == *final(r),
    {
        &mut self.kvlm
    }

    /// A tag serializes to its record's wire text.
    pub fn serialize(&self) -> (r: Vec<u8>)
        ensures
            r@ == ser_kvlm(self@),
    {
        self.kvlm.serialize()
    }

    /// A tag deserializes by parsing the record.
    pub fn deserialize(&mut self, data: &Vec<u8>) -> (r: Result<(), WitError>)
        ensures
            r is Ok,
            final(self)@ == parse_fields(data@),
    {
        let parsed = Kvlm::create(data, 0);
        proof {
            assert(data@.skip(0) =~= data@);
        }
        self.kvlm = parsed;
        Ok(())
    }

    /// The object-type tag of a tag object.
    pub fn fmt(&self) -> (r: Vec<u8>)
        ensures
            r@ == spec_tag_tag(),
    {
        tag_tag()
    }
}

/// The record of a freshly created tag object: the named object, a commit
/// type, the tag's name, a fixed tagger, and a fixed message.
pub open spec fn spec_tag_record(name: Seq<u8>, sha: Seq<u8>) -> SpecKvlm {
    SpecKvlm {
        fields: seq![
            SpecField { key: ascii_bytes("object"@), values: seq![sha] },
            SpecField { key: ascii_bytes("type"@), values: seq![ascii_bytes("commit"@)] },
            SpecField { key: ascii_bytes("tag"@), values: seq![name] },
            SpecField { key: ascii_bytes("tagger"@), values: seq![ascii_bytes("wit <wit@localhost>"@)] },
        ],
        message: ascii_bytes("Created by wit\n"@),
    }
}

/// Builds the record and object of a new tag. Returns the reference name
/// under `tags/`, the identifier the reference will hold, and, when a tag
/// object is requested, the compressed object to store: the identifier is
/// then the new object's, else the given one.
pub fn create(name: &Vec<u8>, sha: &Vec<u8>, create_object: bool) -> (r: (
    Vec<u8>,
    Vec<u8>,
    Option<Vec<u8>>,
))
    ensures
        r.0@ == ascii_bytes("tags/"@) + name@,
        !create_object ==> r.1@ == sha@ && r.2 is None,
        create_object ==> ({
            let wire = crate::object::spec_frame(
                spec_tag_tag(),
                ser_kvlm(spec_tag_record(name@, sha@)),
            );
            &&& r.1@ == ascii_bytes(crate::object::sha1_hex_of(wire))
            &&& (r.2 matches Some(c) && c@ == crate::object::deflate_of(wire))
        }),
{
    proof {
        reveal_strlit("tags/");
    }
    let mut ref_name = str_bytes("tags/");
    ref_name.extend_from_slice(name.as_slice());
    proof {
        assert(ref_name@ =~= ascii_bytes("tags/"@) + name@);
    }
    if !create_object {
        return (ref_name, crate::object::clone_bytes(sha), None);
    }
    proof {
        reveal_strlit("object");
        reveal_strlit("type");
        reveal_strlit("commit");
        reveal_strlit("tag");
        reveal_strlit("tagger");
        reveal_strlit("wit <wit@localhost>");
        reveal_strlit("Created by wit\n");
    }
    let ghost want = spec_tag_record(name@, sha@);
    proof {
        lemma_fresh_tag_keys();
    }
    let mut kvlm = Kvlm::new();
    let ghost f0 = kvlm@.fields;
    kvlm.insert(str_bytes("object"), crate::object::clone_bytes(sha));
    proof {
        crate::kvlm::lemma_first_key_index_none(f0, ascii_bytes("object"@));
        assert(kvlm@.fields =~= seq![want.fields[0]]);
    }
    let ghost f1 = kvlm@.fields;
    kvlm.insert(str_bytes("type"), str_bytes("commit"));
    proof {
        assert(forall|j: int| 0 <= j < f1.len() ==> #[trigger] f1[j].key != ascii_bytes("type"@));
        crate::kvlm::lemma_first_key_index_none(f1, ascii_bytes("type"@));
        assert(kvlm@.fields =~= seq![want.fields[0], want.fields[1]]);
    }
    let ghost f2 = kvlm@.fields;
    kvlm.insert(str_bytes("tag"), crate::object::clone_bytes(name));
    proof {
        assert(forall|j: int| 0 <= j < f2.len() ==> #[trigger] f2[j].key != ascii_bytes("tag"@));
        crate::kvlm::lemma_first_key_index_none(f2, ascii_bytes("tag"@));
        assert(kvlm@.fields =~= seq![want.fields[0], want.fields[1], want.fields[2]]);
    }
    let ghost f3 = kvlm@.fields;
    kvlm.insert(str_bytes("tagger"), str_bytes("wit <wit@localhost>"));
    proof {
        assert(forall|j: int| 0 <= j < f3.len() ==> #[trigger] f3[j].key != ascii_bytes("tagger"@));
        crate::kvlm::lemma_first_key_index_none(f3, ascii_bytes("tagger"@));
        assert(kvlm@.fields =~= want.fields);
    }
    kvlm.set_message(str_bytes("Created by wit\n"));
    proof {
        assert(kvlm@ == want);
    }
    let tag_obj = crate::object::WitObject::TagObject(Tag { kvlm });
    let (sha_hex, compressed) = crate::object::write(&tag_obj, true);
    let new_sha = str_bytes(sha_hex.as_str());
    (ref_name, new_sha, compressed)
}

/// The four keys of a fresh tag record differ pairwise.
proof fn lemma_fresh_tag_keys()
    ensures
        ascii_bytes("object"@) != ascii_bytes("type"@),
        ascii_bytes("object"@) != ascii_bytes("tag"@),
        ascii_bytes("object"@) != ascii_bytes("tagger"@),
        ascii_bytes("type"@) != ascii_bytes("tag"@),
        ascii_bytes("type"@) != ascii_bytes("tagger"@),
        ascii_bytes("tag"@) != ascii_bytes("tagger"@),
{
    reveal_strlit("object");
    reveal_strlit("type");
    reveal_strlit("tag");
    reveal_strlit("tagger");
    assert(ascii_bytes("object"@).len() == 6);
    assert(ascii_bytes("type"@).len() == 4);
    assert(ascii_bytes("tag"@).len() == 3);
    assert(ascii_bytes("tagger"@).len() == 6);
    assert(ascii_bytes("object"@)[0] == 111);
    assert(ascii_bytes("tagger"@)[0] == 116);
}

} // verus!
