//! Reference resolution: a ref file either names another ref with the prefix
//! `ref: `, or holds an object identifier directly. Resolution follows the
//! chain until an identifier is reached, with the chain length capped so a
//! cycle of refs reports an error instead of running forever.

use vstd::prelude::*;
use vstd::slice::{slice_subrange, slice_to_vec};
use crate::error::{WitError, WitErrorType, ambiguous_reference_err, unknown_reference_err};
use crate::kvlm::bytes_eq;
use crate::util::{ascii_bytes, str_bytes};

verus! {

/// A reference: either a resolved identifier, or a namespace of further
/// references.
#[derive(Debug)]
pub enum Ref {
    Direct(Vec<u8>),
    Indirect(Vec<RefEntry>),
}

/// One named entry of a reference namespace.
#[derive(Debug)]
pub struct RefEntry {
    pub name: Vec<u8>,
    pub target: Ref,
}

/// Whether `b` is blank: space, tab, newline or carriage return.
pub open spec fn is_blank(b: u8) -> bool {
    b == 32 || b == 9 || b == 10 || b == 13
}

/// `s` without its trailing blanks.
pub open spec fn spec_trim_end(s: Seq<u8>) -> Seq<u8>
    decreases s.len(),
{
    if s.len() > 0 && is_blank(s.last()) {
        spec_trim_end(s.drop_last())
    } else {
        s
    }
}

/// Trimming cuts exactly at the last non-blank byte.
proof fn lemma_trim_end_is(s: Seq<u8>, e: int)
    requires
        0 <= e <= s.len(),
        forall|j: int| e <= j < s.len() ==> is_blank(#[trigger] s[j]),
        e > 0 ==> !is_blank(s[e - 1]),
    ensures
        spec_trim_end(s) == s.take(e),
    decreases s.len(),
{
    if e == s.len() {
        if s.len() > 0 {
            assert(!is_blank(s.last()));
        }
        assert(s.take(e) =~= s);
    } else {
        assert(is_blank(s.last()));
        let t = s.drop_last();
        assert(t =~= s.take(s.len() - 1));
        assert forall|j: int| e <= j < t.len() implies is_blank(#[trigger] t[j]) by {
            assert(t[j] == s[j]);
        }
        if e > 0 {
            assert(t[e - 1] == s[e - 1]);
        }
        lemma_trim_end_is(t, e);
        assert(t.take(e) =~= s.take(e));
    }
}

/// `v` without its trailing blanks.
pub fn trim_end(v: &[u8]) -> (r: Vec<u8>)
    ensures
        r@ == spec_trim_end(v@),
{
    let mut end: usize = v.len();
    while end > 0
        invariant
            end <= v@.len(),
            forall|j: int| end <= j < v@.len() ==> is_blank(#[trigger] v@[j]),
        decreases end,
    {
        let b = *vstd::slice::slice_index_get(v, end - 1);
        if !(b == 32 || b == 9 || b == 10 || b == 13) {
            proof {
                lemma_trim_end_is(v@, end as int);
            }
            return slice_to_vec(slice_subrange(v, 0, end));
        }
        end = end - 1;
    }
    proof {
        lemma_trim_end_is(v@, 0);
    }
    slice_to_vec(slice_subrange(v, 0, 0))
}

/// Whether a ref file's content points at another ref.
pub open spec fn is_ref_pointer(s: Seq<u8>) -> bool {
    s.len() >= 5 && s.take(5) == ascii_bytes("ref: "@)
}

/// One step of resolution.
#[derive(Debug)]
pub enum ResolveStep {
    /// The content names another ref path to follow.
    Follow(Vec<u8>),
    /// The content is the identifier itself.
    Done(Vec<u8>),
}

/// Decides one step of resolution from a ref file's content: a `ref: `
/// prefix names the next ref path (trimmed); anything else is the
/// identifier (trimmed).
pub fn resolve_step(data: &Vec<u8>) -> (r: ResolveStep)
    ensures
        is_ref_pointer(data@) ==> (r matches ResolveStep::Follow(p) && p@ == spec_trim_end(
            data@.skip(5),
        )),
        !is_ref_pointer(data@) ==> (r matches ResolveStep::Done(s) && s@ == spec_trim_end(data@)),
{
    proof {
        reveal_strlit("ref: ");
    }
    if data.len() >= 5 {
        let prefix = slice_to_vec(slice_subrange(data.as_slice(), 0, 5));
        let marker = str_bytes("ref: ");
        if bytes_eq(&prefix, &marker) {
            proof {
                assert(prefix@ =~= data@.take(5));
            }
            return ResolveStep::Follow(
                trim_end(slice_subrange(data.as_slice(), 5, data.len())),
            );
        }
        proof {
            assert(prefix@ =~= data@.take(5));
        }
    }
    ResolveStep::Done(trim_end(data.as_slice()))
}

/// The content stored under `path`, by first match.
pub open spec fn files_find(files: Seq<(Seq<u8>, Seq<u8>)>, path: Seq<u8>) -> Option<Seq<u8>>
    decreases files.len(),
{
    if files.len() == 0 {
        None
    } else if files[0].0 == path {
        Some(files[0].1)
    } else {
        files_find(files.skip(1), path)
    }
}

proof fn lemma_files_find_is(files: Seq<(Seq<u8>, Seq<u8>)>, path: Seq<u8>, i: int)
    requires
        0 <= i < files.len(),
        files[i].0 == path,
        forall|j: int| 0 <= j < i ==> (#[trigger] files[j]).0 != path,
    ensures
        files_find(files, path) == Some(files[i].1),
    decreases i,
{
    if i > 0 {
        assert(files.skip(1)[i - 1] == files[i]);
        assert forall|j: int| 0 <= j < i - 1 implies (#[trigger] files.skip(1)[j]).0 != path by {
            assert(files.skip(1)[j] == files[j + 1]);
        }
        lemma_files_find_is(files.skip(1), path, i - 1);
    }
}

proof fn lemma_files_find_none(files: Seq<(Seq<u8>, Seq<u8>)>, path: Seq<u8>)
    requires
        forall|j: int| 0 <= j < files.len() ==> (#[trigger] files[j]).0 != path,
    ensures
        files_find(files, path) is None,
    decreases files.len(),
{
    if files.len() > 0 {
        assert forall|j: int| 0 <= j < files.skip(1).len() implies (#[trigger] files.skip(
            1,
        )[j]).0 != path by {
            assert(files.skip(1)[j] == files[j + 1]);
        }
        lemma_files_find_none(files.skip(1), path);
    }
}

/// The outcome of a resolution chain.
pub enum SpecResolve {
    /// The chain reached an identifier.
    RDone(Seq<u8>),
    /// A ref path on the chain is missing.
    RMissing,
    /// The chain did not terminate within the step budget.
    RCycle,
}

/// Resolution over an in-memory ref namespace: follow `ref: ` pointers,
/// trimmed, until an identifier is reached, spending one unit of `fuel` per
/// step.
pub open spec fn spec_resolve(
    files: Seq<(Seq<u8>, Seq<u8>)>,
    path: Seq<u8>,
    fuel: nat,
) -> SpecResolve
    decreases fuel,
{
    if fuel == 0 {
        SpecResolve::RCycle
    } else {
        match files_find(files, path) {
            None => SpecResolve::RMissing,
            Some(content) => {
                if is_ref_pointer(content) {
                    spec_resolve(files, spec_trim_end(content.skip(5)), (fuel - 1) as nat)
                } else {
                    SpecResolve::RDone(spec_trim_end(content))
                }
            },
        }
    }
}

/// The content stored under `path`, by first match.
pub fn files_get<'a>(files: &'a Vec<(Vec<u8>, Vec<u8>)>, path: &Vec<u8>) -> (r: Option<
    &'a Vec<u8>,
>)
    ensures
        match r {
            Some(c) => files_find(crate::object::files_view(files@), path@) == Some(c@),
            None => files_find(crate::object::files_view(files@), path@) is None,
        },
{
    let ghost fv = crate::object::files_view(files@);
    let mut i: usize = 0;
    while i < files.len()
        invariant
            i <= files@.len(),
            fv == crate::object::files_view(files@),
            fv.len() == files@.len(),
            forall|j: int| 0 <= j < i ==> (#[trigger] fv[j]).0 != path@,
        decreases files@.len() - i,
    {
        proof {
            assert(fv[i as int] == (files@[i as int].0@, files@[i as int].1@));
        }
        if bytes_eq(&files[i].0, path) {
            proof {
                lemma_files_find_is(fv, path@, i as int);
            }
            return Some(&files[i].1);
        }
        i = i + 1;
    }
    proof {
        lemma_files_find_none(fv, path@);
    }
    None
}

/// Resolves a ref path against an in-memory namespace of `(path, content)`
/// files. The chain budget is one step more than there are files, so every
/// acyclic chain resolves and a cycle reports an ambiguous-reference error
/// instead of recursing forever.
pub fn resolve(files: &Vec<(Vec<u8>, Vec<u8>)>, path: &Vec<u8>) -> (r: Result<Vec<u8>, WitError>)
    requires
        files@.len() < usize::MAX,
    ensures
        ({
            let outcome = spec_resolve(
                crate::object::files_view(files@),
                path@,
                (files@.len() + 1) as nat,
            );
            match r {
                Ok(sha) => outcome == SpecResolve::RDone(sha@),
                Err(e) => (outcome is RMissing && e.error == WitErrorType::UnknownReferenceError)
                    || (outcome is RCycle && e.error == WitErrorType::AmbiguousReferenceError),
            }
        }),
{
    let ghost fv = crate::object::files_view(files@);
    let mut current = crate::object::clone_bytes(path);
    let mut fuel: usize = files.len() + 1;
    while fuel > 0
        invariant
            fv == crate::object::files_view(files@),
            fuel <= files@.len() + 1,
            spec_resolve(fv, path@, (files@.len() + 1) as nat) == spec_resolve(
                fv,
                current@,
                fuel as nat,
            ),
        decreases fuel,
    {
        let content = match files_get(files, &current) {
            Some(c) => c,
            None => {
                return Err(
                    unknown_reference_err("A ref on the resolution chain is missing.".to_owned()),
                );
            },
        };
        match resolve_step(content) {
            ResolveStep::Follow(next) => {
                current = next;
                fuel = fuel - 1;
            },
            ResolveStep::Done(sha) => {
                return Ok(sha);
            },
        }
    }
    Err(ambiguous_reference_err("The ref chain does not terminate.".to_owned()))
}

/// The file a new reference is written to, under `refs/`, and its content:
/// the identifier followed by a newline.
pub fn create(name: &Vec<u8>, sha: &Vec<u8>) -> (r: (Vec<u8>, Vec<u8>))
    ensures
        r.0@ == ascii_bytes("refs/"@) + name@,
        r.1@ == sha@ + seq![10u8],
{
    proof {
        reveal_strlit("refs/");
    }
    let mut path = str_bytes("refs/");
    path.extend_from_slice(name.as_slice());
    let mut content = crate::object::clone_bytes(sha);
    content.push(10);
    proof {
        assert(path@ =~= ascii_bytes("refs/"@) + name@);
        assert(content@ =~= sha@ + seq![10u8]);
    }
    (path, content)
}

} // verus!
