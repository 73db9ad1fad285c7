//! Resolved packages and the digest that identifies their inputs.
use vstd::prelude::*;

use crate::text::push_str;

verus! {

/// A lower-case hexadecimal digit.
pub open spec fn hex_digit(n: u32) -> char {
    seq!['0', '1', '2', '3', '4', '5', '6', '7', '8', '9', 'a', 'b', 'c', 'd', 'e', 'f'][n as int]
}

/// How a JSON string literal writes one character: `"` and `\` escaped, the
/// control characters as `\b`, `\t`, `\n`, `\f`, `\r` or `\u00xx`, any other
/// character as it is.
pub open spec fn json_char(c: char) -> Seq<char> {
    if c == '"' {
        seq!['\\', '"']
    } else if c == '\\' {
        seq!['\\', '\\']
    } else if c == '\u{8}' {
        seq!['\\', 'b']
    } else if c == '\t' {
        seq!['\\', 't']
    } else if c == '\n' {
        seq!['\\', 'n']
    } else if c == '\u{c}' {
        seq!['\\', 'f']
    } else if c == '\r' {
        seq!['\\', 'r']
    } else if (c as u32) < 0x20 {
        seq!['\\', 'u', '0', '0', hex_digit((c as u32) / 16), hex_digit((c as u32) % 16)]
    } else {
        seq![c]
    }
}

/// The escaped characters of `s`.
pub open spec fn json_chars(s: Seq<char>) -> Seq<char>
    decreases s.len(),
{
    if s.len() == 0 {
        seq![]
    } else {
        json_chars(s.drop_last()) + json_char(s.last())
    }
}

/// The JSON string literal of `s`: its escaped characters between double quotes.
pub open spec fn json_quoted(s: Seq<char>) -> Seq<char> {
    seq!['"'] + json_chars(s) + seq!['"']
}

/// The BLAKE3 digest of `b`.
pub uninterp spec fn blake3_of(b: Seq<u8>) -> Seq<u8>;

/// The padded standard base64 encoding of `b`.
pub uninterp spec fn base64_of(b: Seq<u8>) -> Seq<char>;

/// The bytes that the padded standard base64 text `s` decodes to, if it is valid.
pub uninterp spec fn base64_decoded(s: Seq<char>) -> Option<Seq<u8>>;

/// Relies on `serde_json::to_string` on a `str`: it writes the string between
/// double quotes, escaping `"`, `\` and the control characters below U+0020 (the
/// `ESCAPE` table of its serializer), and cannot fail for a `str`.
#[verifier::external_body]
fn quote_json(s: &str) -> (r: String)
    ensures
        r@ == json_quoted(s@),
{
    serde_json::to_string(s).unwrap_or_default()
}

/// Relies on `blake3::hash`: the 32-byte BLAKE3 digest of the input.
#[verifier::external_body]
fn blake3_digest(b: &[u8]) -> (r: Vec<u8>)
    ensures
        r@ == blake3_of(b@),
        r@.len() == 32,
{
    blake3::hash(b).as_bytes().to_vec()
}

/// Relies on `data_encoding::BASE64.encode`: padded standard base64.
#[verifier::external_body]
fn encode_base64(b: &[u8]) -> (r: String)
    ensures
        r@ == base64_of(b@),
{
    data_encoding::BASE64.encode(b)
}

/// Relies on `data_encoding::BASE64.decode`: the decoded bytes, or an error for text
/// that is not padded standard base64.
#[verifier::external_body]
fn decode_base64(s: &str) -> (r: Option<Vec<u8>>)
    ensures
        match r {
            Some(v) => base64_decoded(s@) == Some(v@),
            None => base64_decoded(s@) is None,
        },
{
    data_encoding::BASE64.decode(s.as_bytes()).ok()
}

/// A build farm that resolves attributes to outputs.
#[derive(Debug)]
pub enum Source {
    Hydra(Jobset),
}

/// A Hydra jobset: `<base>/job/<project>/<jobset>/<job>`, where `job` is a template
/// over `{attribute}` and `{system}`.
#[derive(Debug)]
pub struct Jobset {
    pub base: String,
    pub project: String,
    pub jobset: String,
    pub job: String,
}

impl Source {
    /// The public NixOS Hydra, `nixpkgs/unstable`, with job `{attribute}.{system}`.
    pub fn default_source() -> (r: Source)
        ensures
            r matches Source::Hydra(j) && j.base@ == "https://hydra.nixos.org"@ && j.project@
                == "nixpkgs"@ && j.jobset@ == "unstable"@ && j.job@ == "{attribute}.{system}"@,
    {
        Source::Hydra(
            Jobset {
                base: "https://hydra.nixos.org".to_owned(),
                project: "nixpkgs".to_owned(),
                jobset: "unstable".to_owned(),
                job: "{attribute}.{system}".to_owned(),
            },
        )
    }
}

/// A package as the manifest resolves it: an attribute of a source, and the outputs
/// to keep (all of them when empty), in ascending order.
#[derive(Debug)]
pub struct Package {
    pub attribute: String,
    pub outputs: Vec<String>,
    pub source: Source,
}

/// The 32-byte digest of a package's inputs, written in base64.
#[derive(Debug)]
pub struct Base64Hash {
    inner: Vec<u8>,
}

/// Why a digest was refused.
#[derive(Debug)]
pub enum HashError {
    /// Text that is not base64.
    InvalidBase64,
    /// Base64 of a number of bytes other than 32.
    InvalidLength(usize),
}

impl View for Base64Hash {
    type V = Seq<u8>;

    closed spec fn view(&self) -> Seq<u8> {
        self.inner@
    }
}

/// The JSON strings of `xs`, separated by commas.
pub open spec fn quoted_list(xs: Seq<Seq<char>>) -> Seq<char>
    decreases xs.len(),
{
    if xs.len() == 0 {
        seq![]
    } else if xs.len() == 1 {
        json_quoted(xs[0])
    } else {
        quoted_list(xs.drop_last()) + ","@ + json_quoted(xs.last())
    }
}

/// The compact JSON form of a package: its fields in declaration order, the source
/// tagged with `"type":"hydra"`.
pub open spec fn package_json(
    attribute: Seq<char>,
    outputs: Seq<Seq<char>>,
    base: Seq<char>,
    project: Seq<char>,
    jobset: Seq<char>,
    job: Seq<char>,
) -> Seq<char> {
    "{\"attribute\":"@ + json_quoted(attribute) + ",\"outputs\":["@ + quoted_list(outputs)
        + "],\"source\":{\"type\":\"hydra\",\"base\":"@ + json_quoted(base) + ",\"project\":"@
        + json_quoted(project) + ",\"jobset\":"@ + json_quoted(jobset) + ",\"job\":"@
        + json_quoted(job) + "}}"@
}

impl Package {
    /// The JSON form of this package.
    pub open spec fn json(&self) -> Seq<char> {
        match self.source {
            Source::Hydra(j) => package_json(
                self.attribute@,
                self.outputs@.map_values(|o: String| o@),
                j.base@,
                j.project@,
                j.jobset@,
                j.job@,
            ),
        }
    }

    /// The digest of this package's inputs.
    pub open spec fn digest(&self) -> Seq<u8> {
        blake3_of(vstd::utf8::encode_utf8(self.json()))
    }

    /// Writes the JSON form of this package.
    pub fn to_json(&self) -> (r: String)
        ensures
            r@ == self.json(),
    {
        let mut r = String::new();
        push_str(&mut r, "{\"attribute\":");
        push_str(&mut r, quote_json(self.attribute.as_str()).as_str());
        push_str(&mut r, ",\"outputs\":[");
        let ghost outs = self.outputs@.map_values(|o: String| o@);
        let ghost start = r@;
        let mut i: usize = 0;
        while i < self.outputs.len()
            invariant
                outs == self.outputs@.map_values(|o: String| o@),
                i <= outs.len(),
                r@ == start + quoted_list(outs.subrange(0, i as int)),
            decreases self.outputs.len() - i,
        {
            let ghost prev = outs.subrange(0, i as int);
            assert(outs.subrange(0, i + 1).drop_last() =~= prev);
            if i > 0 {
                push_str(&mut r, ",");
            }
            push_str(&mut r, quote_json(self.outputs[i].as_str()).as_str());
            if i == 0 {
                assert(r@ =~= start + quoted_list(outs.subrange(0, i + 1)));
            } else {
                assert(r@ =~= start + quoted_list(outs.subrange(0, i + 1)));
            }
            i += 1;
        }
        assert(outs.subrange(0, i as int) =~= outs);
        match &self.source {
            Source::Hydra(j) => {
                push_str(&mut r, "],\"source\":{\"type\":\"hydra\",\"base\":");
                push_str(&mut r, quote_json(j.base.as_str()).as_str());
                push_str(&mut r, ",\"project\":");
                push_str(&mut r, quote_json(j.project.as_str()).as_str());
                push_str(&mut r, ",\"jobset\":");
                push_str(&mut r, quote_json(j.jobset.as_str()).as_str());
                push_str(&mut r, ",\"job\":");
                push_str(&mut r, quote_json(j.job.as_str()).as_str());
                push_str(&mut r, "}}");
            },
        }
        r
    }

    /// The digest of this package's inputs: BLAKE3 over the UTF-8 of its JSON form.
    pub fn hash(&self) -> (r: Base64Hash)
        ensures
            r@ == self.digest(),
    {
        let json = self.to_json();
        let inner = blake3_digest(json.as_str().as_bytes());
        Base64Hash { inner }
    }
}

impl Base64Hash {
    #[verifier::type_invariant]
    spec fn well_formed(self) -> bool {
        self.inner@.len() == 32
    }

    /// Reads the base64 text of a digest.
    pub fn from_str(s: &str) -> (r: Result<Base64Hash, HashError>)
        ensures
            match base64_decoded(s@) {
                Some(b) => if b.len() == 32 {
                    r matches Ok(h) && h@ == b
                } else {
                    r matches Err(HashError::InvalidLength(n)) && n == b.len()
                },
                None => r matches Err(HashError::InvalidBase64),
            },
    {
        match decode_base64(s) {
            Some(inner) => {
                if inner.len() == 32 {
                    Ok(Base64Hash { inner })
                } else {
                    Err(HashError::InvalidLength(inner.len()))
                }
            },
            None => Err(HashError::InvalidBase64),
        }
    }

    /// The base64 text of this digest.
    pub fn to_string(&self) -> (r: String)
        ensures
            r@ == base64_of(self@),
    {
        encode_base64(self.inner.as_slice())
    }

    /// The 32 bytes of this digest.
    pub fn as_bytes(&self) -> (r: &[u8])
        ensures
            r@ == self@,
            r@.len() == 32,
    {
        proof {
            use_type_invariant(self);
        }
        self.inner.as_slice()
    }

    /// Compares two digests byte by byte.
    pub fn same(&self, other: &Base64Hash) -> (r: bool)
        ensures
            r == (self@ == other@),
    {
        proof {
            use_type_invariant(self);
            use_type_invariant(other);
        }
        let mut i: usize = 0;
        while i < 32
            invariant
                self.inner@.len() == 32,
                other.inner@.len() == 32,
                i <= 32,
                forall|j: int| 0 <= j < i ==> self.inner@[j] == other.inner@[j],
            decreases 32 - i,
        {
            if self.inner[i] != other.inner[i] {
                return false;
            }
            i += 1;
        }
        assert(self.inner@ =~= other.inner@);
        true
    }
}

impl Clone for Base64Hash {
    fn clone(&self) -> (r: Self)
        ensures
            r@ == self@,
    {
        proof {
            use_type_invariant(self);
        }
        Base64Hash { inner: self.inner.clone() }
    }
}

} // verus!
