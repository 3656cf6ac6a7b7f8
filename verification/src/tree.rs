//! The binary tree-entry codec: each leaf is ASCII mode digits (5 or 6 of
//! them), one space, the path bytes, one NUL, then exactly 20 raw digest
//! bytes, with no separator between leaves.

use vstd::prelude::*;
use vstd::slice::{slice_subrange, slice_to_vec};
use crate::error::{WitError, WitErrorType, io_err, malformed_object_err, mode_err};
use crate::util::{NUL, SP, dec_chars, hex, hex_of, spec_find, find_byte, lemma_find_props, lemma_find_is,
    lemma_find_is_none};

verus! {

/// One tree entry: a mode, a path component, and the digest of the child.
#[derive(Debug)]
pub struct Leaf {
    mode: Vec<u8>,
    path: Vec<u8>,
    sha: Vec<u8>,
}

/// Mathematical model of a leaf.
pub struct SpecLeaf {
    pub mode: Seq<u8>,
    pub path: Seq<u8>,
    pub sha: Seq<u8>,
}

impl View for Leaf {
    type V = SpecLeaf;

    closed spec fn view(&self) -> SpecLeaf {
        SpecLeaf { mode: self.mode@, path: self.path@, sha: self.sha@ }
    }
}

/// An ordered list of leaves.
#[derive(Debug)]
pub struct Tree {
    leaves: Vec<Leaf>,
}

/// View of a vector of leaves.
pub open spec fn leaves_view(ls: Seq<Leaf>) -> Seq<SpecLeaf> {
    Seq::new(ls.len(), |i: int| ls[i]@)
}

impl View for Tree {
    type V = Seq<SpecLeaf>;

    closed spec fn view(&self) -> Seq<SpecLeaf> {
        leaves_view(self.leaves@)
    }
}

/// A leaf the wire format can carry losslessly: 5 or 6 mode bytes without a
/// space, a path without a NUL, and a 20-byte digest.
pub open spec fn wf_leaf(l: SpecLeaf) -> bool {
    &&& l.mode.len() == 5 || l.mode.len() == 6
    &&& forall|i: int| 0 <= i < l.mode.len() ==> #[trigger] l.mode[i] != SP
    &&& forall|i: int| 0 <= i < l.path.len() ==> #[trigger] l.path[i] != NUL
    &&& l.sha.len() == 20
}

/// Wire bytes of one leaf.
pub open spec fn ser_leaf(l: SpecLeaf) -> Seq<u8> {
    l.mode + seq![SP] + l.path + seq![NUL] + l.sha
}

/// Wire bytes of a leaf list.
pub open spec fn ser_tree(ls: Seq<SpecLeaf>) -> Seq<u8>
    decreases ls.len(),
{
    if ls.len() == 0 {
        Seq::empty()
    } else {
        ser_leaf(ls[0]) + ser_tree(ls.skip(1))
    }
}

/// Parse of one leaf at the front of `t`: the number of bytes consumed and
/// the leaf, or nothing when the buffer does not start with a valid entry.
pub open spec fn spec_parse_one(t: Seq<u8>) -> Option<(int, SpecLeaf)> {
    let spc = spec_find(t, SP, 0);
    if spc is None {
        None
    } else {
        let s = spc->0;
        if s != 5 && s != 6 {
            None
        } else {
            let nul = spec_find(t, NUL, s);
            if nul is None {
                None
            } else {
                let n = nul->0;
                if n + 21 > t.len() {
                    None
                } else {
                    Some(
                        (
                            n + 21,
                            SpecLeaf {
                                mode: t.take(s),
                                path: t.subrange(s + 1, n),
                                sha: t.subrange(n + 1, n + 21),
                            },
                        ),
                    )
                }
            }
        }
    }
}

/// Parse of a whole buffer: leaves in order until the cursor reaches the
/// end, or nothing when any entry is malformed.
pub open spec fn spec_parse_tree(t: Seq<u8>) -> Option<Seq<SpecLeaf>>
    decreases t.len(),
    via spec_parse_tree_decreases
{
    if t.len() == 0 {
        Some(Seq::empty())
    } else {
        match spec_parse_one(t) {
            None => None,
            Some((end, leaf)) => match spec_parse_tree(t.skip(end)) {
                None => None,
                Some(rest) => Some(seq![leaf] + rest),
            },
        }
    }
}

#[via_fn]
proof fn spec_parse_tree_decreases(t: Seq<u8>) {
    if t.len() > 0 {
        match spec_parse_one(t) {
            None => {},
            Some((end, leaf)) => {
                lemma_find_props(t, SP, 0);
                let s = spec_find(t, SP, 0)->0;
                lemma_find_props(t, NUL, s);
            },
        }
    }
}

/// A parsed leaf is well formed.
pub proof fn lemma_parse_one_wf(t: Seq<u8>)
    requires
        spec_parse_one(t) is Some,
    ensures
        wf_leaf((spec_parse_one(t)->0).1),
        1 <= (spec_parse_one(t)->0).0 <= t.len(),
{
    lemma_find_props(t, SP, 0);
    let s = spec_find(t, SP, 0)->0;
    lemma_find_props(t, NUL, s);
    let n = spec_find(t, NUL, s)->0;
    let l = (spec_parse_one(t)->0).1;
    assert(l.mode =~= t.take(s));
    assert forall|i: int| 0 <= i < l.mode.len() implies #[trigger] l.mode[i] != SP by {
        assert(l.mode[i] == t[i]);
    }
    assert forall|i: int| 0 <= i < l.path.len() implies #[trigger] l.path[i] != NUL by {
        assert(l.path[i] == t[s + 1 + i]);
        assert(t[s] == SP);
    }
    assert(l.sha.len() == 20);
}

/// Every leaf of a parsed tree is well formed.
pub proof fn lemma_parse_tree_wf(t: Seq<u8>)
    requires
        spec_parse_tree(t) is Some,
    ensures
        forall|i: int|
            0 <= i < spec_parse_tree(t)->0.len() ==> wf_leaf(#[trigger] spec_parse_tree(t)->0[i]),
    decreases t.len(),
{
    if t.len() > 0 {
        let (end, leaf) = spec_parse_one(t)->0;
        lemma_parse_one_wf(t);
        lemma_parse_tree_wf(t.skip(end));
        let rest = spec_parse_tree(t.skip(end))->0;
        assert forall|i: int| 0 <= i < spec_parse_tree(t)->0.len() implies wf_leaf(
            #[trigger] spec_parse_tree(t)->0[i],
        ) by {
            if i > 0 {
                assert(spec_parse_tree(t)->0[i] == rest[i - 1]);
            }
        }
    }
}

/// Parsing the wire bytes of well-formed leaves gives the leaves back.
pub proof fn lemma_tree_round_trip(ls: Seq<SpecLeaf>)
    requires
        forall|i: int| 0 <= i < ls.len() ==> wf_leaf(#[trigger] ls[i]),
    ensures
        spec_parse_tree(ser_tree(ls)) == Some(ls),
    decreases ls.len(),
{
    if ls.len() == 0 {
        assert(spec_parse_tree(ser_tree(ls)) == Some(Seq::<SpecLeaf>::empty()));
        assert(Seq::<SpecLeaf>::empty() =~= ls);
    } else {
        let l = ls[0];
        let t = ser_tree(ls);
        let rest_text = ser_tree(ls.skip(1));
        assert(t == ser_leaf(l) + rest_text);
        let ml = l.mode.len() as int;
        let pl = l.path.len() as int;
        let e = ml + 1 + pl + 1 + 20;
        assert(ser_leaf(l).len() == e);
        assert(forall|j: int| 0 <= j < ml ==> t[j] == l.mode[j]);
        assert(t[ml] == SP);
        assert(forall|j: int| 0 <= j < pl ==> t[ml + 1 + j] == l.path[j]);
        assert(t[ml + 1 + pl] == NUL);
        assert(forall|j: int| 0 <= j < 20 ==> t[ml + 1 + pl + 1 + j] == l.sha[j]);
        // the first space ends the mode
        assert forall|j: int| 0 <= j < ml implies t[j] != SP by {
            assert(t[j] == l.mode[j]);
        }
        lemma_find_is(t, SP, 0, ml);
        // the first NUL after it ends the path
        assert forall|j: int| ml <= j < ml + 1 + pl implies t[j] != NUL by {
            if j > ml {
                assert(t[j] == l.path[j - ml - 1]);
            }
        }
        lemma_find_is(t, NUL, ml, ml + 1 + pl);
        let n = ml + 1 + pl;
        assert(n + 21 == e && e <= t.len());
        let parsed = (spec_parse_one(t)->0).1;
        assert(t.take(ml) =~= l.mode);
        assert(t.subrange(ml + 1, n) =~= l.path);
        assert(t.subrange(n + 1, n + 21) =~= l.sha);
        assert(parsed == l);
        assert(spec_parse_one(t) == Some((e, l)));
        // the rest parses by induction
        assert forall|i: int| 0 <= i < ls.skip(1).len() implies wf_leaf(
            #[trigger] ls.skip(1)[i],
        ) by {
            assert(ls.skip(1)[i] == ls[i + 1]);
        }
        lemma_tree_round_trip(ls.skip(1));
        assert(t.skip(e) =~= rest_text);
        assert(spec_parse_tree(t) == Some(seq![l] + ls.skip(1)));
        assert(seq![l] + ls.skip(1) =~= ls);
    }
}

/// Serializing one more leaf appends its wire bytes.
pub proof fn lemma_ser_tree_push(ls: Seq<SpecLeaf>, l: SpecLeaf)
    ensures
        ser_tree(ls.push(l)) == ser_tree(ls) + ser_leaf(l),
    decreases ls.len(),
{
    if ls.len() == 0 {
        let e = Seq::<SpecLeaf>::empty();
        assert(ls.push(l)[0] == l);
        assert(ls.push(l).skip(1) =~= e);
        assert(ser_tree(e) == Seq::<u8>::empty());
        assert(ser_tree(ls) == Seq::<u8>::empty());
        assert(ser_tree(ls.push(l)) =~= ser_tree(ls) + ser_leaf(l));
    } else {
        assert(ls.push(l)[0] == ls[0]);
        assert(ls.push(l).skip(1) =~= ls.skip(1).push(l));
        lemma_ser_tree_push(ls.skip(1), l);
        assert(ser_tree(ls.push(l)) == ser_leaf(ls[0]) + ser_tree(ls.skip(1).push(l)));
        assert(ser_tree(ls) == ser_leaf(ls[0]) + ser_tree(ls.skip(1)));
        assert(ser_tree(ls.push(l)) =~= ser_tree(ls) + ser_leaf(l));
    }
}

impl Leaf {
    pub fn new(mode: Vec<u8>, path: Vec<u8>, sha: Vec<u8>) -> (r: Leaf)
        ensures
            r@.mode == mode@,
            r@.path == path@,
            r@.sha == sha@,
    {
        Leaf { mode, path, sha }
    }

    /// The ASCII mode digits, as stored (no zero padding).
    pub fn mode(&self) -> (r: &Vec<u8>)
        ensures
            r@ == self@.mode,
    {
        &self.mode
    }

    /// The path component.
    pub fn path(&self) -> (r: &Vec<u8>)
        ensures
            r@ == self@.path,
    {
        &self.path
    }

    /// The raw 20-byte digest of the child object.
    pub fn sha(&self) -> (r: &Vec<u8>)
        ensures
            r@ == self@.sha,
    {
        &self.sha
    }

    /// The child digest as a 40-character lowercase hexadecimal identifier.
    pub fn sha_hex(&self) -> (r: String)
        ensures
            r@ == hex_of(self@.sha),
            r.is_ascii(),
    {
        hex(&self.sha)
    }
}

impl Tree {
    pub fn new() -> (r: Tree)
        ensures
            r@.len() == 0,
    {
        Tree { leaves: Vec::new() }
    }

    /// Parses a whole buffer of tree entries.
    pub fn from(raw: &Vec<u8>) -> (r: Result<Tree, WitError>)
        ensures
            match r {
                Ok(t) => spec_parse_tree(raw@) == Some(t@),
                Err(_) => spec_parse_tree(raw@) is None,
            },
    {
        let mut tree = Tree::new();
        let mut pos: usize = 0;
        proof {
            assert(raw@.skip(0) =~= raw@);
            assert(tree@ =~= Seq::<SpecLeaf>::empty());
        }
        while pos < raw.len()
            invariant
                pos <= raw@.len(),
                pos == raw@.len() || raw@.skip(pos as int).len() > 0,
                forall|rest: Seq<SpecLeaf>|
                    spec_parse_tree(raw@.skip(pos as int)) == Some(rest) ==> spec_parse_tree(raw@)
                        == Some(tree@ + rest),
                spec_parse_tree(raw@.skip(pos as int)) is None ==> spec_parse_tree(raw@) is None,
            decreases raw@.len() - pos,
        {
            let ghost t = raw@.skip(pos as int);
            let ghost pre = tree@;
            let (end, leaf) = match Self::parse_one(raw, pos) {
                Ok(p) => p,
                Err(e) => {
                    proof {
                        assert(spec_parse_tree(t) is None);
                    }
                    return Err(e);
                },
            };
            tree.add_leaf(leaf);
            proof {
                let (e_rel, lv) = spec_parse_one(t)->0;
                assert(e_rel == end - pos);
                assert(t.skip(e_rel) =~= raw@.skip(end as int));
                assert(tree@ =~= pre.push(lv));
                assert forall|rest: Seq<SpecLeaf>|
                    spec_parse_tree(raw@.skip(end as int)) == Some(rest) implies spec_parse_tree(
                    raw@,
                ) == Some(tree@ + rest) by {
                    assert(spec_parse_tree(t) == Some(seq![lv] + rest));
                    assert(pre + (seq![lv] + rest) =~= tree@ + rest);
                }
                if spec_parse_tree(raw@.skip(end as int)) is None {
                    assert(spec_parse_tree(t) is None);
                }
            }
            pos = end;
        }
        proof {
            assert(raw@.skip(pos as int) =~= Seq::<u8>::empty());
            assert(spec_parse_tree(raw@.skip(pos as int)) == Some(Seq::<SpecLeaf>::empty()));
            assert(tree@ + Seq::<SpecLeaf>::empty() =~= tree@);
        }
        Ok(tree)
    }

    /// Appends one leaf.
    pub fn add_leaf(&mut self, leaf: Leaf)
        ensures
            final(self)@ == old(self)@.push(leaf@),
    {
        self.leaves.push(leaf);
        proof {
            assert(self@ =~= old(self)@.push(self.leaves@.last()@));
        }
    }

    /// The leaves, in stored order.
    pub fn leaves(&self) -> (r: &Vec<Leaf>)
        ensures
            leaves_view(r@) == self@,
    {
        &self.leaves
    }

    /// Parses one entry starting at `start`; returns the position one past
    /// the entry and the leaf. An entry without a space has no mode and is
    /// an I/O error; a mode of any length but 5 or 6 is an
    /// invalid-mode-length error naming the length; a missing NUL after the
    /// path is an I/O error; fewer than 20 digest bytes after it is a
    /// malformed-object error.
    pub fn parse_one(raw: &Vec<u8>, start: usize) -> (r: Result<(usize, Leaf), WitError>)
        requires
            start <= raw@.len(),
        ensures
            match r {
                Ok((end, leaf)) => spec_parse_one(raw@.skip(start as int)) == Some(
                    ((end - start) as int, leaf@),
                ) && start < end <= raw@.len(),
                Err(e) => spec_parse_one(raw@.skip(start as int)) is None,
            },
            ({
                let t = raw@.skip(start as int);
                let spc = spec_find(t, SP, 0);
                &&& (spc is None ==> (r matches Err(e) && e.error == WitErrorType::IOError))
                &&& ((spc is Some && spc->0 != 5 && spc->0 != 6) ==> (r matches Err(e) && e.error
                    == WitErrorType::InvalidModeLengthError && e.message@
                    == "Invalid mode length: "@ + dec_chars(spc->0 as nat)))
                &&& ((spc is Some && (spc->0 == 5 || spc->0 == 6) && spec_find(t, NUL, spc->0)
                    is None) ==> (r matches Err(e) && e.error == WitErrorType::IOError))
                &&& ((spc is Some && (spc->0 == 5 || spc->0 == 6) && spec_find(t, NUL, spc->0)
                    is Some && spec_find(t, NUL, spc->0)->0 + 21 > t.len()) ==> (r matches Err(e)
                    && e.error == WitErrorType::MalformedObjectError))
            }),
    {
        let ghost t = raw@.skip(start as int);
        proof {
            crate::kvlm::lemma_find_skip(raw@, SP, start as int);
        }
        let spc = match find_byte(raw, SP, start) {
            Some(s) => s,
            None => {
                return Err(io_err("Tree entry has no space after the mode.".to_owned()));
            },
        };
        proof {
            lemma_find_props(raw@, SP, start as int);
        }
        if spc - start != 5 && spc - start != 6 {
            proof {
                assert(spec_find(t, SP, 0) == Some(spc - start));
            }
            return Err(mode_err(spc - start));
        }
        proof {
            crate::kvlm::lemma_find_skip(raw@, NUL, spc as int);
            lemma_find_shift_start(t, NUL, spc - start, spc as int, start as int, raw@);
        }
        let nul = match find_byte(raw, NUL, spc) {
            Some(n) => n,
            None => {
                return Err(io_err("Tree entry has no NUL after the path.".to_owned()));
            },
        };
        proof {
            lemma_find_props(raw@, NUL, spc as int);
        }
        if raw.len() - nul < 21 {
            return Err(malformed_object_err("Tree entry digest is truncated.".to_owned()));
        }
        let mode = slice_to_vec(slice_subrange(raw.as_slice(), start, spc));
        let path = slice_to_vec(slice_subrange(raw.as_slice(), spc + 1, nul));
        let sha = slice_to_vec(slice_subrange(raw.as_slice(), nul + 1, nul + 21));
        let leaf = Leaf::new(mode, path, sha);
        proof {
            let s_rel = spc - start;
            let n_rel = nul - start;
            assert(t.take(s_rel) =~= raw@.subrange(start as int, spc as int));
            assert(t.subrange(s_rel + 1, n_rel) =~= raw@.subrange(spc + 1, nul as int));
            assert(t.subrange(n_rel + 1, n_rel + 21) =~= raw@.subrange(nul + 1, nul + 21));
        }
        Ok((nul + 21, leaf))
    }

    /// The 40-character hexadecimal identifier of a 20-byte digest, every
    /// byte contributing in full.
    pub fn sha(vec: &Vec<u8>) -> (r: String)
        ensures
            r@ == hex_of(vec@),
            r.is_ascii(),
    {
        hex(vec)
    }

    /// Serializes the leaves back to wire bytes.
    pub fn serialize(&self) -> (r: Vec<u8>)
        ensures
            r@ == ser_tree(self@),
    {
        let ghost ls = self@;
        let mut out: Vec<u8> = Vec::new();
        let mut i: usize = 0;
        proof {
            assert(ls.take(0) =~= Seq::<SpecLeaf>::empty());
            assert(out@ =~= ser_tree(ls.take(0)));
        }
        while i < self.leaves.len()
            invariant
                i <= self.leaves@.len(),
                ls == self@,
                ls.len() == self.leaves@.len(),
                out@ == ser_tree(ls.take(i as int)),
            decreases self.leaves@.len() - i,
        {
            let ghost pre = out@;
            let leaf = &self.leaves[i];
            proof {
                assert(ls[i as int] == self.leaves@[i as int]@);
            }
            out.extend_from_slice(leaf.mode.as_slice());
            out.push(SP);
            out.extend_from_slice(leaf.path.as_slice());
            out.push(NUL);
            out.extend_from_slice(leaf.sha.as_slice());
            proof {
                assert(out@ =~= pre + ser_leaf(ls[i as int]));
                lemma_ser_tree_push(ls.take(i as int), ls[i as int]);
                assert(ls.take(i + 1) =~= ls.take(i as int).push(ls[i as int]));
                assert(out@ =~= ser_tree(ls.take(i + 1)));
            }
            i = i + 1;
        }
        proof {
            assert(ls.take(i as int) =~= ls);
        }
        out
    }

    /// Parses `data` and appends the entries to this tree.
    pub fn deserialize(&mut self, data: &Vec<u8>) -> (r: Result<(), WitError>)
        ensures
            match r {
                Ok(()) => spec_parse_tree(data@) is Some && final(self)@ == old(self)@
                    + spec_parse_tree(data@)->0,
                Err(_) => spec_parse_tree(data@) is None && final(self)@ == old(self)@,
            },
    {
        let mut parsed = match Self::from(data) {
            Ok(t) => t,
            Err(e) => {
                proof {
                    assert(self@ =~= old(self)@);
                }
                return Err(e);
            },
        };
        let ghost pre = self@;
        let ghost add = parsed@;
        self.leaves.append(&mut parsed.leaves);
        proof {
            assert(self@ =~= pre + add);
        }
        Ok(())
    }

    /// The object-type tag of a tree.
    pub fn fmt(&self) -> (r: Vec<u8>)
        ensures
            r@ == spec_tree_tag(),
    {
        tree_tag()
    }
}

/// The byte string `tree`.
pub open spec fn spec_tree_tag() -> Seq<u8> {
    seq![116u8, 114u8, 101u8, 101u8]
}

/// The byte string `tree`.
pub fn tree_tag() -> (r: Vec<u8>)
    ensures
        r@ == spec_tree_tag(),
{
    let mut v: Vec<u8> = Vec::new();
    v.push(116);
    v.push(114);
    v.push(101);
    v.push(101);
    proof {
        assert(v@ =~= spec_tree_tag());
    }
    v
}

/// Shifting a found position onto a further suffix.
proof fn lemma_find_shift_start(t: Seq<u8>, b: u8, i: int, abs: int, base: int, s: Seq<u8>)
    requires
        0 <= base,
        base + t.len() == s.len(),
        t == s.skip(base),
        0 <= i,
        abs == base + i,
        i <= t.len(),
    ensures
        match spec_find(s, b, abs) {
            Some(n) => spec_find(t, b, i) == Some(n - base),
            None => spec_find(t, b, i) is None,
        },
{
    lemma_find_props(s, b, abs);
    match spec_find(s, b, abs) {
        Some(n) => {
            assert(t[n - base] == s[n]);
            assert forall|j: int| i <= j < n - base implies t[j] != b by {
                assert(t[j] == s[base + j]);
            }
            lemma_find_is(t, b, i, n - base);
        },
        None => {
            assert forall|j: int| i <= j < t.len() implies t[j] != b by {
                assert(t[j] == s[base + j]);
            }
            lemma_find_is_none(t, b, i);
        },
    }
}

} // verus!
