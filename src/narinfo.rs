//! Binary-cache metadata: the `Key: value` narinfo document and its compression tokens.
use vstd::prelude::*;

use crate::store_path::{is_store_path_name, StorePath};
use crate::text::{
    chars_of, find_separator, lines, spans_of_lines, split_key_value, split_lines, split_words, str_eq,
    string_of, words,
};

verus! {

/// The compression of an archive, as a narinfo `Compression` line names it.
#[derive(Debug, Clone, Copy, PartialEq, Eq, Structural)]
pub enum Compression {
    Brotli,
    Bzip2,
    Gzip,
    Lz4,
    Lzma,
    Uncompressed,
    Xz,
    Zstd,
}

/// The token that names each compression.
pub open spec fn compression_token(c: Compression) -> Seq<char> {
    match c {
        Compression::Brotli => "br"@,
        Compression::Bzip2 => "bzip2"@,
        Compression::Gzip => "gzip"@,
        Compression::Lz4 => "lz4"@,
        Compression::Lzma => "lzma"@,
        Compression::Uncompressed => "none"@,
        Compression::Xz => "xz"@,
        Compression::Zstd => "zstd"@,
    }
}

/// The compression that a token names, if any.
pub open spec fn compression_of(t: Seq<char>) -> Option<Compression> {
    if t == "br"@ {
        Some(Compression::Brotli)
    } else if t == "bzip2"@ {
        Some(Compression::Bzip2)
    } else if t == "gzip"@ {
        Some(Compression::Gzip)
    } else if t == "lz4"@ {
        Some(Compression::Lz4)
    } else if t == "lzma"@ {
        Some(Compression::Lzma)
    } else if t == "none"@ {
        Some(Compression::Uncompressed)
    } else if t == "xz"@ {
        Some(Compression::Xz)
    } else if t == "zstd"@ {
        Some(Compression::Zstd)
    } else {
        None
    }
}

impl Compression {
    /// Parses a compression token (`br`, `bzip2`, `gzip`, `lz4`, `lzma`, `none`, `xz`, `zstd`).
    pub fn from_str(token: &str) -> (r: Result<Compression, NarinfoError>)
        ensures
            match compression_of(token@) {
                Some(c) => r == Ok::<Compression, NarinfoError>(c),
                None => r matches Err(NarinfoError::UnsupportedCompression(t)) && t@ == token@,
            },
    {
        if str_eq(token, "br") {
            Ok(Compression::Brotli)
        } else if str_eq(token, "bzip2") {
            Ok(Compression::Bzip2)
        } else if str_eq(token, "gzip") {
            Ok(Compression::Gzip)
        } else if str_eq(token, "lz4") {
            Ok(Compression::Lz4)
        } else if str_eq(token, "lzma") {
            Ok(Compression::Lzma)
        } else if str_eq(token, "none") {
            Ok(Compression::Uncompressed)
        } else if str_eq(token, "xz") {
            Ok(Compression::Xz)
        } else if str_eq(token, "zstd") {
            Ok(Compression::Zstd)
        } else {
            Err(NarinfoError::UnsupportedCompression(token.to_owned()))
        }
    }

    /// The token that names this compression.
    pub fn as_str(&self) -> (r: &'static str)
        ensures
            r@ == compression_token(*self),
    {
        match self {
            Compression::Brotli => "br",
            Compression::Bzip2 => "bzip2",
            Compression::Gzip => "gzip",
            Compression::Lz4 => "lz4",
            Compression::Lzma => "lzma",
            Compression::Uncompressed => "none",
            Compression::Xz => "xz",
            Compression::Zstd => "zstd",
        }
    }
}

/// Parsing a compression's token gives that compression back, and each of the eight
/// tokens that parses renders as itself.
pub proof fn lemma_compression_token_round_trip(c: Compression, t: Seq<char>)
    ensures
        compression_of(compression_token(c)) == Some(c),
        compression_of(t) matches Some(d) ==> compression_token(d) == t,
{
    reveal_strlit("br");
    reveal_strlit("bzip2");
    reveal_strlit("gzip");
    reveal_strlit("lz4");
    reveal_strlit("lzma");
    reveal_strlit("none");
    reveal_strlit("xz");
    reveal_strlit("zstd");
    assert("br"@.len() == 2 && "br"@[0] == 'b');
    assert("bzip2"@.len() == 5 && "bzip2"@[0] == 'b');
    assert("gzip"@.len() == 4 && "gzip"@[0] == 'g');
    assert("lz4"@.len() == 3 && "lz4"@[0] == 'l');
    assert("lzma"@.len() == 4 && "lzma"@[0] == 'l');
    assert("none"@.len() == 4 && "none"@[0] == 'n');
    assert("xz"@.len() == 2 && "xz"@[0] == 'x');
    assert("zstd"@.len() == 4 && "zstd"@[0] == 'z');
}

/// Why a narinfo document was refused.
#[derive(Debug)]
pub enum NarinfoError {
    /// A `Compression` value that names no known compression.
    UnsupportedCompression(String),
    /// A `References` word that is not a store-path name.
    InvalidReference(String),
    /// One of `Compression`, `References` and `URL` is missing.
    MissingFields,
}

impl NarinfoError {
    /// A human-readable description.
    pub fn message(&self) -> (r: String)
        ensures
            match self {
                NarinfoError::UnsupportedCompression(t) => r@ == "unsupported compression format: "@ + t@,
                NarinfoError::InvalidReference(p) => r@ == "invalid path "@ + p@,
                NarinfoError::MissingFields => r@ == "not all required fields found"@,
            },
    {
        let mut m = String::new();
        match self {
            NarinfoError::UnsupportedCompression(t) => {
                crate::text::push_str(&mut m, "unsupported compression format: ");
                crate::text::push_str(&mut m, t.as_str());
            },
            NarinfoError::InvalidReference(p) => {
                crate::text::push_str(&mut m, "invalid path ");
                crate::text::push_str(&mut m, p.as_str());
            },
            NarinfoError::MissingFields => {
                crate::text::push_str(&mut m, "not all required fields found");
                assert(m@ =~= "not all required fields found"@);
            },
        }
        m
    }
}

/// The fields read so far: compression, reference names and URL.
pub type Fields = (Option<Compression>, Option<Seq<Seq<char>>>, Option<Seq<char>>);

/// The first word of `ws` that is not a store-path name, if any.
pub open spec fn first_invalid(ws: Seq<Seq<char>>) -> Option<Seq<char>>
    decreases ws.len(),
{
    if ws.len() == 0 {
        None
    } else if !is_store_path_name(ws[0]) {
        Some(ws[0])
    } else {
        first_invalid(ws.drop_first())
    }
}

/// A failure met while reading the lines: the kind (0 compression, 1 reference) and the text.
pub type Fault = (int, Seq<char>);

/// Reads one line into the fields.
pub open spec fn read_line(f: Fields, line: Seq<char>) -> Result<Fields, Fault> {
    match split_key_value(line) {
        None => Ok(f),
        Some((key, value)) => if key == "Compression"@ {
            match compression_of(value) {
                Some(c) => Ok((Some(c), f.1, f.2)),
                None => Err((0, value)),
            }
        } else if key == "References"@ {
            match first_invalid(words(value)) {
                Some(w) => Err((1, w)),
                None => Ok((f.0, Some(words(value)), f.2)),
            }
        } else if key == "URL"@ {
            Ok((f.0, f.1, Some(value)))
        } else {
            Ok(f)
        },
    }
}

/// Reads the lines in order; the first failure stops the reading.
pub open spec fn read_lines(ls: Seq<Seq<char>>) -> Result<Fields, Fault>
    decreases ls.len(),
{
    if ls.len() == 0 {
        Ok((None, None, None))
    } else {
        match read_lines(ls.drop_last()) {
            Ok(f) => read_line(f, ls.last()),
            Err(e) => Err(e),
        }
    }
}

/// The metadata a binary cache serves for one store path.
#[derive(Debug)]
pub struct Narinfo {
    pub compression: Compression,
    pub references: Vec<StorePath>,
    pub url: String,
}

impl Narinfo {
    /// The references as character sequences.
    pub open spec fn reference_names(&self) -> Seq<Seq<char>> {
        self.references@.map_values(|p: StorePath| p@)
    }

    /// `n` is what `parse` returns on `content`.
    pub open spec fn parse_ok(content: Seq<char>, n: Narinfo) -> bool {
        read_lines(lines(content)) == Ok::<Fields, Fault>(
            (Some(n.compression), Some(n.reference_names()), Some(n.url@)),
        )
    }

    /// `e` is the error that `parse` returns on `content`.
    pub open spec fn parse_err(content: Seq<char>, e: NarinfoError) -> bool {
        match read_lines(lines(content)) {
            Err((k, t)) => match e {
                NarinfoError::UnsupportedCompression(v) => k == 0 && v@ == t,
                NarinfoError::InvalidReference(v) => k == 1 && v@ == t,
                _ => false,
            },
            Ok((Some(_), Some(_), Some(_))) => false,
            Ok(_) => e is MissingFields,
        }
    }

    /// Parses a narinfo document. Lines without `": "` and unknown keys are skipped,
    /// later lines override earlier ones, and all of `Compression`, `References` and
    /// `URL` must be present.
    pub fn parse(content: &str) -> (r: Result<Narinfo, NarinfoError>)
        ensures
            match r {
                Ok(n) => Narinfo::parse_ok(content@, n),
                Err(e) => Narinfo::parse_err(content@, e),
            },
    {
        let cs = chars_of(content);
        let spans = split_lines(&cs);
        let ghost ls = lines(cs@);
        let mut compression: Option<Compression> = None;
        let mut references: Option<Vec<StorePath>> = None;
        let mut url: Option<String> = None;
        let mut k: usize = 0;
        while k < spans.len()
            invariant
                cs@ == content@,
                ls == lines(cs@),
                spans_of_lines(cs@, spans@),
                k <= spans@.len(),
                read_lines(ls.subrange(0, k as int)) == Ok::<Fields, Fault>(
                    (
                        compression,
                        match references {
                            Some(v) => Some(v@.map_values(|p: StorePath| p@)),
                            None => None,
                        },
                        match url {
                            Some(u) => Some(u@),
                            None => None,
                        },
                    ),
                ),
            decreases spans.len() - k,
        {
            let (lo, hi) = spans[k];
            let ghost line = ls[k as int];
            assert(spans@[k as int] == (lo, hi));
            assert(line == cs@.subrange(lo as int, hi as int));
            assert(ls.subrange(0, k + 1).drop_last() =~= ls.subrange(0, k as int));
            assert(ls.subrange(0, k + 1).last() == line);
            match find_separator(&cs, lo, hi) {
                None => {},
                Some(j) => {
                    let key = string_of(&cs, lo, j);
                    let value = string_of(&cs, j + 2, hi);
                    assert(key@ =~= line.subrange(0, j - lo));
                    assert(value@ =~= line.subrange(j - lo + 2, line.len() as int));
                    assert(split_key_value(line) == Some((key@, value@)));
                    if str_eq(key.as_str(), "Compression") {
                        match Compression::from_str(value.as_str()) {
                            Ok(c) => {
                                compression = Some(c);
                            },
                            Err(e) => {
                                assert(read_lines(ls.subrange(0, k + 1)) is Err);
                                proof {
                                    lemma_error_persists(ls, k as int + 1);
                                }
                                assert(ls.subrange(0, ls.len() as int) =~= ls);
                                return Err(e);
                            },
                        }
                    } else if str_eq(key.as_str(), "References") {
                        let ws = split_words(&cs, j + 2, hi);
                        match store_paths_of(&ws) {
                            Ok(refs) => {
                                references = Some(refs);
                            },
                            Err(bad) => {
                                assert(read_lines(ls.subrange(0, k + 1)) is Err);
                                proof {
                                    lemma_error_persists(ls, k as int + 1);
                                }
                                assert(ls.subrange(0, ls.len() as int) =~= ls);
                                return Err(NarinfoError::InvalidReference(bad));
                            },
                        }
                    } else if str_eq(key.as_str(), "URL") {
                        url = Some(value);
                    }
                },
            }
            k += 1;
        }
        assert(ls.subrange(0, spans@.len() as int) =~= ls);
        match (compression, references, url) {
            (Some(c), Some(refs), Some(u)) => Ok(Narinfo { compression: c, references: refs, url: u }),
            _ => Err(NarinfoError::MissingFields),
        }
    }
}

/// Each word as a store path, or the first word that is not a store-path name.
pub fn store_paths_of(ws: &Vec<String>) -> (r: Result<Vec<StorePath>, String>)
    ensures
        match first_invalid(ws@.map_values(|s: String| s@)) {
            Some(t) => r matches Err(v) && v@ == t,
            None => r matches Ok(v) && v@.map_values(|p: StorePath| p@) == ws@.map_values(
                |s: String| s@,
            ),
        },
{
    let ghost names = ws@.map_values(|s: String| s@);
    let mut refs: Vec<StorePath> = Vec::new();
    let mut w: usize = 0;
    assert(names.subrange(0, names.len() as int) =~= names);
    while w < ws.len()
        invariant
            names == ws@.map_values(|s: String| s@),
            w <= ws@.len(),
            refs@.len() == w,
            forall|i: int| 0 <= i < w ==> (#[trigger] refs@[i])@ == names[i],
            first_invalid(names) == first_invalid(names.subrange(w as int, names.len() as int)),
        decreases ws.len() - w,
    {
        let ghost rest = names.subrange(w as int, names.len() as int);
        assert(rest[0] == ws@[w as int]@);
        assert(rest.drop_first() =~= names.subrange(w + 1, names.len() as int));
        match StorePath::from_storeless(ws[w].clone()) {
            Ok(p) => {
                refs.push(p);
            },
            Err(_) => {
                return Err(ws[w].clone());
            },
        }
        w += 1;
    }
    assert(refs@.map_values(|p: StorePath| p@) =~= names);
    assert(names.subrange(names.len() as int, names.len() as int) =~= Seq::<Seq<char>>::empty());
    Ok(refs)
}

/// The separator after a key without `:` is found right after the key.
proof fn lemma_separator_after(k: Seq<char>, v: Seq<char>, i: int)
    requires
        0 <= i <= k.len(),
        forall|j: int| 0 <= j < k.len() ==> #[trigger] k[j] != ':',
    ensures
        crate::text::separator_from(k + ": "@ + v, i) == Some(k.len() as int),
    decreases k.len() - i,
{
    reveal_strlit(": ");
    let s = k + ": "@ + v;
    if i < k.len() {
        assert(s[i] == k[i]);
        lemma_separator_after(k, v, i + 1);
    } else {
        assert(s[i] == ':' && s[i + 1] == ' ');
    }
}

/// A line `<key>: <value>` splits into its key and value when the key has no `:`.
pub proof fn lemma_split_line(k: Seq<char>, v: Seq<char>)
    requires
        forall|j: int| 0 <= j < k.len() ==> #[trigger] k[j] != ':',
    ensures
        split_key_value(k + ": "@ + v) == Some((k, v)),
{
    reveal_strlit(": ");
    lemma_separator_after(k, v, 0);
    let s = k + ": "@ + v;
    assert(s.subrange(0, k.len() as int) =~= k);
    assert(s.subrange(k.len() as int + 2, s.len() as int) =~= v);
}

/// Scanning through characters that are not spaces stays in the current word.
proof fn lemma_scan_word(s: Seq<char>, i: int, j: int, w: int)
    requires
        0 <= w <= i <= j <= s.len(),
        forall|k: int| i <= k < j ==> !crate::text::is_space(#[trigger] s[k]),
    ensures
        crate::text::words_scan(s, i, Some(w)) == crate::text::words_scan(s, j, Some(w)),
    decreases j - i,
{
    if i < j {
        lemma_scan_word(s, i + 1, j, w);
    }
}

/// Two words separated by one space split into those two words.
pub proof fn lemma_two_words(a: Seq<char>, b: Seq<char>)
    requires
        a.len() > 0,
        b.len() > 0,
        forall|k: int| 0 <= k < a.len() ==> !crate::text::is_space(#[trigger] a[k]),
        forall|k: int| 0 <= k < b.len() ==> !crate::text::is_space(#[trigger] b[k]),
    ensures
        words(a + " "@ + b) == seq![a, b],
{
    reveal_strlit(" ");
    let s = a + " "@ + b;
    let n = a.len() as int;
    assert forall|k: int| 1 <= k < n implies !crate::text::is_space(#[trigger] s[k]) by {
        assert(s[k] == a[k]);
    }
    assert(s[0] == a[0]);
    lemma_scan_word(s, 1, n, 0);
    assert(s[n] == ' ');
    assert(s[n + 1] == b[0]);
    assert forall|k: int| n + 2 <= k < s.len() implies !crate::text::is_space(#[trigger] s[k]) by {
        assert(s[k] == b[k - n - 1]);
    }
    lemma_scan_word(s, n + 2, s.len() as int, n + 1);
    assert(s.subrange(0, n) =~= a);
    assert(s.subrange(n + 1, s.len() as int) =~= b);
    assert(crate::text::words_scan(s, n + 1, None) == seq![b]);
    assert(seq![a] + seq![b] =~= seq![a, b]);
}

/// A document whose lines are `Compression: xz`, `URL: <u>` and
/// `References: <a> <b>`, with `a` and `b` store-path names, reads as compression
/// xz, the two references `a` then `b`, and URL `u`.
pub proof fn lemma_narinfo_two_references(u: Seq<char>, a: Seq<char>, b: Seq<char>)
    requires
        is_store_path_name(a),
        is_store_path_name(b),
        forall|k: int| 0 <= k < a.len() ==> !crate::text::is_space(#[trigger] a[k]),
        forall|k: int| 0 <= k < b.len() ==> !crate::text::is_space(#[trigger] b[k]),
    ensures
        read_lines(
            seq![
                "Compression: "@ + "xz"@,
                "URL: "@ + u,
                "References: "@ + a + " "@ + b,
            ],
        ) == Ok::<Fields, Fault>((Some(Compression::Xz), Some(seq![a, b]), Some(u))),
{
    reveal_strlit("Compression");
    reveal_strlit("URL");
    reveal_strlit("References");
    reveal_strlit("Compression: ");
    reveal_strlit("URL: ");
    reveal_strlit("References: ");
    reveal_strlit(": ");
    assert("Compression: "@ =~= "Compression"@ + ": "@);
    assert("URL: "@ =~= "URL"@ + ": "@);
    assert("References: "@ =~= "References"@ + ": "@);
    let l1 = "Compression: "@ + "xz"@;
    let l2 = "URL: "@ + u;
    let l3 = "References: "@ + a + " "@ + b;
    assert(l1 =~= "Compression"@ + ": "@ + "xz"@);
    assert(l2 =~= "URL"@ + ": "@ + u);
    assert(l3 =~= "References"@ + ": "@ + (a + " "@ + b));
    lemma_split_line("Compression"@, "xz"@);
    lemma_split_line("URL"@, u);
    lemma_split_line("References"@, a + " "@ + b);
    lemma_two_words(a, b);
    lemma_compression_token_round_trip(Compression::Xz, "xz"@);
    assert("URL"@.len() != "Compression"@.len());
    assert("References"@.len() != "Compression"@.len());
    assert("References"@[0] != "URL"@[0]);
    let ls = seq![l1, l2, l3];
    assert(ls.drop_last() =~= seq![l1, l2]);
    assert(seq![l1, l2].drop_last() =~= seq![l1]);
    assert(seq![l1].drop_last() =~= Seq::<Seq<char>>::empty());
    assert(first_invalid(seq![a, b].drop_first()) == first_invalid(seq![b])) by {
        assert(seq![a, b].drop_first() =~= seq![b]);
    }
    assert(seq![b].drop_first() =~= Seq::<Seq<char>>::empty());
    assert(first_invalid(Seq::<Seq<char>>::empty()) is None);
    assert(seq![b][0] == b);
    assert(first_invalid(seq![b]) is None);
    assert(seq![a, b][0] == a);
    assert(first_invalid(seq![a, b]) is None);
    assert(compression_of("xz"@) == Some(Compression::Xz));
    assert(split_key_value(l1) == Some(("Compression"@, "xz"@)));
    assert(split_key_value(l2) == Some(("URL"@, u)));
    assert(split_key_value(l3) == Some(("References"@, a + " "@ + b)));
    assert(read_lines(Seq::<Seq<char>>::empty()) == Ok::<Fields, Fault>((None, None, None)));
    assert(seq![l1].last() == l1);
    assert(read_lines(seq![l1]) == Ok::<Fields, Fault>((Some(Compression::Xz), None, None)));
    assert(seq![l1, l2].last() == l2);
    assert(read_lines(seq![l1, l2]) == Ok::<Fields, Fault>((Some(Compression::Xz), None, Some(u))));
    assert(ls.last() == l3);
}

/// Once reading fails, reading more lines fails the same way.
pub proof fn lemma_error_persists(ls: Seq<Seq<char>>, k: int)
    requires
        0 <= k <= ls.len(),
        read_lines(ls.subrange(0, k)) is Err,
    ensures
        read_lines(ls) == read_lines(ls.subrange(0, k)),
    decreases ls.len() - k,
{
    if k < ls.len() {
        assert(ls.subrange(0, k + 1).drop_last() =~= ls.subrange(0, k));
        lemma_error_persists(ls, k + 1);
    } else {
        assert(ls.subrange(0, k) =~= ls);
    }
}

} // verus!
