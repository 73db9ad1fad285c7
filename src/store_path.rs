//! Validated store-path names: `<32-character hash>-<name>`.
use vstd::prelude::*;

use crate::text::{chars_of, string_of};

verus! {

/// Length of the hash part of a store-path name.
pub const HASH_LEN: usize = 32;

/// A character of the base-32 alphabet used by store hashes
/// (`0`-`9` and the lower-case letters but `e`, `o`, `t` and `u`).
pub open spec fn is_hash_char(c: char) -> bool {
    ('0' <= c && c <= '9') || ('a' <= c && c <= 'z' && c != 'e' && c != 'o' && c != 't' && c != 'u')
}

/// `s` matches `^[0-9abcdfghijklmnpqrsvwxyz]{32}-[^/]+$`.
pub open spec fn is_store_path_name(s: Seq<char>) -> bool {
    &&& s.len() > 33
    &&& forall|i: int| 0 <= i < 32 ==> is_hash_char(#[trigger] s[i])
    &&& s[32] == '-'
    &&& forall|i: int| 33 <= i < s.len() ==> #[trigger] s[i] != '/'
}

/// The prefix that a full store path carries.
pub open spec fn store_prefix() -> Seq<char> {
    seq!['/', 'n', 'i', 'x', '/', 's', 't', 'o', 'r', 'e', '/']
}

/// What parsing a bare name gives: the name itself when it is valid.
pub open spec fn parse_bare(s: Seq<char>) -> Option<Seq<char>> {
    if is_store_path_name(s) {
        Some(s)
    } else {
        None
    }
}

/// What parsing a full path gives: the name after `/nix/store/` when it is valid.
pub open spec fn parse_full(s: Seq<char>) -> Option<Seq<char>> {
    if s.len() >= 11 && s.subrange(0, 11) == store_prefix() {
        parse_bare(s.subrange(11, s.len() as int))
    } else {
        None
    }
}

/// Parsing `/nix/store/` followed by `s` gives what parsing the bare name `s` gives.
pub proof fn lemma_full_path_agrees_with_bare_name(s: Seq<char>)
    ensures
        parse_full(store_prefix() + s) == parse_bare(s),
{
    let f = store_prefix() + s;
    assert(f.subrange(0, 11) =~= store_prefix());
    assert(f.subrange(11, f.len() as int) =~= s);
}

/// A valid name parses back to itself, and its hash is 32 characters of the
/// store alphabet followed by `-`.
pub proof fn lemma_bare_name_round_trip(s: Seq<char>)
    requires
        is_store_path_name(s),
    ensures
        parse_bare(s) == Some(s),
        s.subrange(0, 32).len() == 32,
        forall|i: int| 0 <= i < 32 ==> is_hash_char(#[trigger] s.subrange(0, 32)[i]),
{
}

/// Why a string is not a store path.
#[derive(Debug, Clone, PartialEq, Eq)]
pub enum StorePathError {
    /// A full path that does not start with `/nix/store/`.
    MissingStorePrefix(String),
    /// A name that is not `<32-character hash>-<name>`.
    InvalidName(String),
}

/// The name of a directory in the store; its form is checked at construction.
#[derive(Debug)]
pub struct StorePath {
    path: String,
}

impl View for StorePath {
    type V = Seq<char>;

    closed spec fn view(&self) -> Seq<char> {
        self.path@
    }
}

/// Tests `is_hash_char` on one character.
pub fn is_hash_char_exec(c: char) -> (r: bool)
    ensures
        r == is_hash_char(c),
{
    ('0' <= c && c <= '9') || ('a' <= c && c <= 'z' && c != 'e' && c != 'o' && c != 't' && c != 'u')
}

/// Tests `is_store_path_name` on a character sequence.
pub fn is_store_path_name_exec(cs: &Vec<char>) -> (r: bool)
    ensures
        r == is_store_path_name(cs@),
{
    if cs.len() <= 33 {
        return false;
    }
    let mut i: usize = 0;
    while i < HASH_LEN
        invariant
            cs@.len() > 33,
            i <= 32,
            forall|j: int| 0 <= j < i ==> is_hash_char(#[trigger] cs@[j]),
        decreases 32 - i,
    {
        if !is_hash_char_exec(cs[i]) {
            return false;
        }
        i += 1;
    }
    if cs[32] != '-' {
        return false;
    }
    let mut k: usize = 33;
    while k < cs.len()
        invariant
            33 <= k <= cs@.len(),
            forall|j: int| 33 <= j < k ==> #[trigger] cs@[j] != '/',
        decreases cs.len() - k,
    {
        if cs[k] == '/' {
            return false;
        }
        k += 1;
    }
    true
}

impl StorePath {
    #[verifier::type_invariant]
    spec fn well_formed(self) -> bool {
        is_store_path_name(self.path@)
    }

    /// Parses a full path `/nix/store/<hash>-<name>`.
    pub fn new(path: &str) -> (r: Result<StorePath, StorePathError>)
        ensures
            match parse_full(path@) {
                Some(name) => r matches Ok(p) && p@ == name,
                None => r is Err,
            },
            !(path@.len() >= 11 && path@.subrange(0, 11) == store_prefix()) <==> r matches Err(
                StorePathError::MissingStorePrefix(_),
            ),
    {
        let cs = chars_of(path);
        let prefix = chars_of("/nix/store/");
        proof {
            reveal_strlit("/nix/store/");
        }
        assert(prefix@ == store_prefix());
        if cs.len() < 11 {
            return Err(StorePathError::MissingStorePrefix(path.to_owned()));
        }
        let mut i: usize = 0;
        while i < 11
            invariant
                cs@ == path@,
                prefix@ == store_prefix(),
                cs@.len() >= 11,
                i <= 11,
                cs@.subrange(0, i as int) == prefix@.subrange(0, i as int),
            decreases 11 - i,
        {
            if cs[i] != prefix[i] {
                assert(cs@.subrange(0, 11)[i as int] != store_prefix()[i as int]);
                return Err(StorePathError::MissingStorePrefix(path.to_owned()));
            }
            assert(cs@.subrange(0, i + 1) == cs@.subrange(0, i as int).push(cs@[i as int]));
            assert(prefix@.subrange(0, i + 1) == prefix@.subrange(0, i as int).push(prefix@[i as int]));
            i += 1;
        }
        assert(prefix@.subrange(0, 11) == prefix@);
        let rest = string_of(&cs, 11, cs.len());
        StorePath::from_storeless(rest)
    }

    /// Parses a bare name `<hash>-<name>`.
    pub fn from_storeless(path: String) -> (r: Result<StorePath, StorePathError>)
        ensures
            match parse_bare(path@) {
                Some(name) => r matches Ok(p) && p@ == name,
                None => r is Err,
            },
            r matches Err(e) ==> e == StorePathError::InvalidName(path),
    {
        let cs = chars_of(path.as_str());
        if is_store_path_name_exec(&cs) {
            Ok(StorePath { path })
        } else {
            Err(StorePathError::InvalidName(path))
        }
    }

    /// The 32-character hash that starts the name.
    pub fn hash(&self) -> (r: &str)
        ensures
            r@ == self@.subrange(0, 32),
            r@.len() == 32,
    {
        proof {
            use_type_invariant(self);
        }
        self.path.as_str().substring_char(0, HASH_LEN)
    }

    /// The name as a string slice.
    pub fn as_str(&self) -> (r: &str)
        ensures
            r@ == self@,
            is_store_path_name(r@),
    {
        proof {
            use_type_invariant(self);
        }
        self.path.as_str()
    }

    /// The name as an owned string.
    pub fn to_string(&self) -> (r: String)
        ensures
            r@ == self@,
            is_store_path_name(r@),
    {
        proof {
            use_type_invariant(self);
        }
        self.path.clone()
    }
}

impl Clone for StorePath {
    fn clone(&self) -> (r: Self)
        ensures
            r@ == self@,
    {
        proof {
            use_type_invariant(self);
        }
        StorePath { path: self.path.clone() }
    }
}

impl PartialEq for StorePath {
    fn eq(&self, other: &StorePath) -> (r: bool)
        ensures
            r == (self@ == other@),
    {
        self.path == other.path
    }
}

impl vstd::std_specs::cmp::PartialEqSpecImpl for StorePath {
    open spec fn obeys_eq_spec() -> bool {
        true
    }

    open spec fn eq_spec(&self, other: &StorePath) -> bool {
        self@ == other@
    }
}

impl Eq for StorePath {
}

} // verus!
