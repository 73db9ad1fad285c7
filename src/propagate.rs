//! Propagated build inputs: the store paths that a package's outputs need in their
//! environment, followed transitively.
use vstd::prelude::*;

use crate::fetch::{fresh, names, ClosureFetch};
use crate::store_path::{parse_full, StorePath, StorePathError};
use crate::text::{chars_of, split_words, string_views, words};

verus! {

/// The names of the full store paths `ws`, or `None` when one is not a store path.
pub open spec fn full_names(ws: Seq<Seq<char>>) -> Option<Seq<Seq<char>>>
    decreases ws.len(),
{
    if ws.len() == 0 {
        Some(seq![])
    } else {
        match full_names(ws.drop_last()) {
            None => None,
            Some(p) => match parse_full(ws.last()) {
                Some(n) => Some(p.push(n)),
                None => None,
            },
        }
    }
}

/// Once a word is invalid, the whole list is refused.
pub proof fn lemma_full_names_fail(ws: Seq<Seq<char>>, k: int)
    requires
        0 <= k <= ws.len(),
        full_names(ws.subrange(0, k)) is None,
    ensures
        full_names(ws) is None,
    decreases ws.len() - k,
{
    if k < ws.len() {
        assert(ws.subrange(0, k + 1).drop_last() =~= ws.subrange(0, k));
        lemma_full_names_fail(ws, k + 1);
    } else {
        assert(ws.subrange(0, k) =~= ws);
    }
}

/// Reads a `nix-support/propagated-build-inputs` file: full store paths separated by
/// whitespace.
pub fn parse_propagated(text: &str) -> (r: Result<Vec<StorePath>, StorePathError>)
    ensures
        match full_names(words(text@)) {
            Some(ns) => r matches Ok(v) && names(v@) == ns,
            None => r is Err,
        },
{
    let cs = chars_of(text);
    let ws = split_words(&cs, 0, cs.len());
    assert(cs@.subrange(0, cs@.len() as int) =~= cs@);
    let ghost wv = string_views(ws@);
    assert(wv == words(text@));
    let mut out: Vec<StorePath> = Vec::new();
    let mut i: usize = 0;
    while i < ws.len()
        invariant
            wv == string_views(ws@),
            wv == words(text@),
            i <= ws@.len(),
            full_names(wv.subrange(0, i as int)) == Some(names(out@)),
        decreases ws.len() - i,
    {
        assert(wv.subrange(0, i + 1).drop_last() =~= wv.subrange(0, i as int));
        assert(wv.subrange(0, i + 1).last() == ws@[i as int]@);
        match StorePath::new(ws[i].as_str()) {
            Ok(p) => {
                let ghost before = names(out@);
                out.push(p);
                assert(names(out@) =~= before.push(out@[out@.len() - 1]@));
            },
            Err(e) => {
                assert(full_names(wv.subrange(0, i + 1)) is None);
                proof {
                    lemma_full_names_fail(wv, i as int + 1);
                }
                return Err(e);
            },
        }
        i += 1;
    }
    assert(wv.subrange(0, i as int) =~= wv);
    Ok(out)
}

/// The walk over propagated inputs: the paths whose file was read, and the paths found.
pub struct PropagatedInputs {
    checked: ClosureFetch,
    found: ClosureFetch,
}

impl PropagatedInputs {
    /// The paths whose file has been scheduled for reading.
    pub closed spec fn checked(&self) -> Set<Seq<char>> {
        self.checked.seen()
    }

    /// The propagated inputs found so far.
    pub closed spec fn found(&self) -> Set<Seq<char>> {
        self.found.seen()
    }

    /// Nothing checked, nothing found.
    pub fn new() -> (r: PropagatedInputs)
        ensures
            r.checked() == Set::<Seq<char>>::empty(),
            r.found() == Set::<Seq<char>>::empty(),
    {
        PropagatedInputs { checked: ClosureFetch::new(), found: ClosureFetch::new() }
    }

    /// Marks `paths` as checked and returns those whose file to read: each path not
    /// checked before, once, in order.
    pub fn schedule(&mut self, paths: Vec<StorePath>) -> (r: Vec<StorePath>)
        ensures
            names(r@) == fresh(old(self).checked(), names(paths@)),
            final(self).checked() == old(self).checked() + names(paths@).to_set(),
            final(self).found() == old(self).found(),
    {
        self.checked.schedule(paths)
    }

    /// Takes the text of one path's file (empty when there is none), adds the paths it
    /// names to those found, and returns them, to be checked in turn.
    pub fn add(&mut self, text: &str) -> (r: Result<Vec<StorePath>, StorePathError>)
        ensures
            final(self).checked() == old(self).checked(),
            match full_names(words(text@)) {
                Some(ns) => r matches Ok(v) && names(v@) == ns && final(self).found() == old(
                    self,
                ).found() + ns.to_set(),
                None => r is Err && final(self).found() == old(self).found(),
            },
    {
        match parse_propagated(text) {
            Ok(v) => {
                let copy = crate::fetch::clone_paths(&v);
                let _ = self.found.schedule(copy);
                Ok(v)
            },
            Err(e) => Err(e),
        }
    }

    /// The propagated inputs found.
    pub fn into_found(self) -> (r: Vec<StorePath>)
        ensures
            names(r@).to_set() == self.found(),
    {
        self.found.into_paths()
    }
}

} // verus!
