//! Character-level helpers for the parsers and renderers of this crate.
use vstd::prelude::*;

verus! {

/// Relies on `String::push`: the character is appended at the end.
#[verifier::external_body]
pub(crate) fn push_char(s: &mut String, c: char)
    ensures
        final(s)@ == old(s)@.push(c),
{
    s.push(c);
}

/// The character sequences of some strings.
pub open spec fn string_views(v: Seq<String>) -> Seq<Seq<char>> {
    v.map_values(|w: String| w@)
}

/// The characters of `s`, in order.
pub fn chars_of(s: &str) -> (r: Vec<char>)
    ensures
        r@ == s@,
{
    let n = s.unicode_len();
    let mut r: Vec<char> = Vec::new();
    let mut i: usize = 0;
    while i < n
        invariant
            n == s@.len(),
            i <= n,
            r@ == s@.subrange(0, i as int),
        decreases n - i,
    {
        r.push(s.get_char(i));
        i += 1;
    }
    r
}

/// A `String` holding the characters `cs[lo..hi]`.
pub fn string_of(cs: &Vec<char>, lo: usize, hi: usize) -> (r: String)
    requires
        lo <= hi <= cs@.len(),
    ensures
        r@ == cs@.subrange(lo as int, hi as int),
{
    let mut r = String::new();
    let mut i = lo;
    while i < hi
        invariant
            lo <= i <= hi <= cs@.len(),
            r@ == cs@.subrange(lo as int, i as int),
        decreases hi - i,
    {
        push_char(&mut r, cs[i]);
        i += 1;
    }
    r
}

/// Appends the characters of `t` to `s`.
pub(crate) fn push_str(s: &mut String, t: &str)
    ensures
        final(s)@ == old(s)@ + t@,
{
    let cs = chars_of(t);
    let mut i: usize = 0;
    while i < cs.len()
        invariant
            cs@ == t@,
            i <= cs@.len(),
            s@ == old(s)@ + t@.subrange(0, i as int),
        decreases cs.len() - i,
    {
        push_char(s, cs[i]);
        i += 1;
    }
}

/// Compares two strings character by character.
pub fn str_eq(a: &str, b: &str) -> (r: bool)
    ensures
        r == (a@ == b@),
{
    let x = chars_of(a);
    let y = chars_of(b);
    if x.len() != y.len() {
        return false;
    }
    let mut i: usize = 0;
    while i < x.len()
        invariant
            x@ == a@,
            y@ == b@,
            x@.len() == y@.len(),
            i <= x@.len(),
            forall|j: int| 0 <= j < i ==> x@[j] == y@[j],
        decreases x.len() - i,
    {
        if x[i] != y[i] {
            return false;
        }
        i += 1;
    }
    assert(x@ =~= y@);
    true
}

/// `char::is_whitespace`: the characters of Unicode's `White_Space` property.
pub open spec fn is_space(c: char) -> bool {
    ||| c == ' '
    ||| ('\t' <= c && c <= '\r')
    ||| c == '\u{85}'
    ||| c == '\u{a0}'
    ||| c == '\u{1680}'
    ||| ('\u{2000}' <= c && c <= '\u{200a}')
    ||| c == '\u{2028}'
    ||| c == '\u{2029}'
    ||| c == '\u{202f}'
    ||| c == '\u{205f}'
    ||| c == '\u{3000}'
}

/// Tests `is_space`.
pub fn is_space_exec(c: char) -> (r: bool)
    ensures
        r == is_space(c),
{
    c == ' ' || ('\t' <= c && c <= '\r') || c == '\u{85}' || c == '\u{a0}' || c == '\u{1680}'
        || ('\u{2000}' <= c && c <= '\u{200a}') || c == '\u{2028}' || c == '\u{2029}' || c
        == '\u{202f}' || c == '\u{205f}' || c == '\u{3000}'
}

/// The maximal runs of non-space characters of `s[start..]`, where `word` is the
/// start of the run being read at `i`, if any.
pub open spec fn words_scan(s: Seq<char>, i: int, word: Option<int>) -> Seq<Seq<char>>
    decreases s.len() - i,
{
    if i >= s.len() {
        match word {
            Some(w) => seq![s.subrange(w, s.len() as int)],
            None => seq![],
        }
    } else if is_space(s[i]) {
        match word {
            Some(w) => seq![s.subrange(w, i)] + words_scan(s, i + 1, None),
            None => words_scan(s, i + 1, None),
        }
    } else {
        match word {
            Some(w) => words_scan(s, i + 1, Some(w)),
            None => words_scan(s, i + 1, Some(i)),
        }
    }
}

/// `str::split_whitespace`: the words of `s`, in order.
pub open spec fn words(s: Seq<char>) -> Seq<Seq<char>> {
    words_scan(s, 0, None)
}

/// The words of `cs[lo..hi]`.
pub fn split_words(cs: &Vec<char>, lo: usize, hi: usize) -> (r: Vec<String>)
    requires
        lo <= hi <= cs@.len(),
    ensures
        r@.map_values(|w: String| w@) == words(cs@.subrange(lo as int, hi as int)),
{
    let ghost s = cs@.subrange(lo as int, hi as int);
    let mut r: Vec<String> = Vec::new();
    let mut i = lo;
    let mut word: Option<usize> = None;
    while i < hi
        invariant
            lo <= i <= hi <= cs@.len(),
            s == cs@.subrange(lo as int, hi as int),
            word matches Some(w) ==> lo <= w < i,
            r@.map_values(|w: String| w@) + words_scan(
                s,
                i - lo,
                match word {
                    Some(w) => Some(w - lo),
                    None => None,
                },
            ) == words(s),
        decreases hi - i,
    {
        let c = cs[i];
        assert(s[i - lo] == c);
        let ghost before = r@.map_values(|w: String| w@);
        if is_space_exec(c) {
            match word {
                Some(w) => {
                    let t = string_of(cs, w, i);
                    assert(t@ == s.subrange(w - lo, i - lo));
                    r.push(t);
                    assert(r@.map_values(|w: String| w@) =~= before.push(t@));
                    assert(before.push(t@) + words_scan(s, i - lo + 1, None) =~= before + (seq![t@]
                        + words_scan(s, i - lo + 1, None)));
                },
                None => {},
            }
            word = None;
        } else {
            match word {
                Some(_) => {},
                None => {
                    word = Some(i);
                },
            }
        }
        i += 1;
    }
    match word {
        Some(w) => {
            let t = string_of(cs, w, hi);
            assert(t@ == s.subrange(w - lo, s.len() as int));
            let ghost before = r@.map_values(|w: String| w@);
            r.push(t);
            assert(r@.map_values(|w: String| w@) =~= before + seq![t@]);
        },
        None => {
            assert(r@.map_values(|w: String| w@) =~= r@.map_values(|w: String| w@) + seq![]);
        },
    }
    r
}

/// The line `s[start..end]` without one `\r` before the ending `\n`.
pub open spec fn line_before_newline(s: Seq<char>, start: int, end: int) -> Seq<char> {
    if end > start && s[end - 1] == '\r' {
        s.subrange(start, end - 1)
    } else {
        s.subrange(start, end)
    }
}

/// The lines of `s` from `i` on, the current line having started at `start`.
pub open spec fn lines_scan(s: Seq<char>, i: int, start: int) -> Seq<Seq<char>>
    decreases s.len() - i,
{
    if i >= s.len() {
        if start < s.len() {
            seq![s.subrange(start, s.len() as int)]
        } else {
            seq![]
        }
    } else if s[i] == '\n' {
        seq![line_before_newline(s, start, i)] + lines_scan(s, i + 1, i + 1)
    } else {
        lines_scan(s, i + 1, start)
    }
}

/// `str::lines`: split at each `\n` (dropping a `\r` before it); a final line
/// ending is optional.
pub open spec fn lines(s: Seq<char>) -> Seq<Seq<char>> {
    lines_scan(s, 0, 0)
}

/// `spans` holds the bounds `(start, end)` in `s` of each line of `s`.
pub open spec fn spans_of_lines(s: Seq<char>, spans: Seq<(usize, usize)>) -> bool {
    &&& spans.len() == lines(s).len()
    &&& forall|k: int|
        0 <= k < spans.len() ==> {
            &&& (#[trigger] spans[k]).0 <= spans[k].1 <= s.len()
            &&& lines(s)[k] == s.subrange(spans[k].0 as int, spans[k].1 as int)
        }
}

/// The bounds `(start, end)` in `cs` of each line of `cs`.
pub fn split_lines(cs: &Vec<char>) -> (r: Vec<(usize, usize)>)
    ensures
        spans_of_lines(cs@, r@),
{
    let ghost s = cs@;
    let ghost done: Seq<Seq<char>> = seq![];
    let mut r: Vec<(usize, usize)> = Vec::new();
    let mut i: usize = 0;
    let mut start: usize = 0;
    while i < cs.len()
        invariant
            s == cs@,
            start <= i <= cs@.len(),
            done.len() == r@.len(),
            forall|k: int|
                0 <= k < r@.len() ==> {
                    &&& (#[trigger] r@[k]).0 <= r@[k].1 <= s.len()
                    &&& done[k] == s.subrange(r@[k].0 as int, r@[k].1 as int)
                },
            done + lines_scan(s, i as int, start as int) == lines(s),
        decreases cs.len() - i,
    {
        if cs[i] == '\n' {
            let end = if i > start && cs[i - 1] == '\r' {
                i - 1
            } else {
                i
            };
            let ghost line = s.subrange(start as int, end as int);
            assert(line == line_before_newline(s, start as int, i as int));
            r.push((start, end));
            assert(done.push(line) + lines_scan(s, i + 1, i + 1) =~= done + (seq![line]
                + lines_scan(s, i + 1, i + 1)));
            proof {
                done = done.push(line);
            }
            start = i + 1;
        }
        i += 1;
    }
    if start < cs.len() {
        let ghost line = s.subrange(start as int, s.len() as int);
        r.push((start, cs.len()));
        assert(done.push(line) =~= done + seq![line]);
        proof {
            done = done.push(line);
        }
    } else {
        assert(done =~= done + seq![]);
    }
    r
}

/// The first position `j >= i` in `s` where `": "` starts, if any.
pub open spec fn separator_from(s: Seq<char>, i: int) -> Option<int>
    decreases s.len() - i,
{
    if i + 1 >= s.len() {
        None
    } else if s[i] == ':' && s[i + 1] == ' ' {
        Some(i)
    } else {
        separator_from(s, i + 1)
    }
}

/// `str::split_once(": ")`: the parts before and after the first `": "`.
pub open spec fn split_key_value(s: Seq<char>) -> Option<(Seq<char>, Seq<char>)> {
    match separator_from(s, 0) {
        Some(j) => Some((s.subrange(0, j), s.subrange(j + 2, s.len() as int))),
        None => None,
    }
}

/// Finds the first `": "` in `cs[lo..hi]`, as a position in `cs`.
pub fn find_separator(cs: &Vec<char>, lo: usize, hi: usize) -> (r: Option<usize>)
    requires
        lo <= hi <= cs@.len(),
    ensures
        match r {
            Some(j) => lo <= j && j + 2 <= hi && separator_from(cs@.subrange(lo as int, hi as int), 0)
                == Some(j - lo),
            None => separator_from(cs@.subrange(lo as int, hi as int), 0) is None,
        },
{
    let ghost s = cs@.subrange(lo as int, hi as int);
    let mut i = lo;
    while hi - i > 1
        invariant
            lo <= i <= hi <= cs@.len(),
            s == cs@.subrange(lo as int, hi as int),
            separator_from(s, 0) == separator_from(s, i - lo),
        decreases hi - i,
    {
        if cs[i] == ':' && cs[i + 1] == ' ' {
            return Some(i);
        }
        i += 1;
    }
    None
}

/// Lexicographic order of character sequences (the order of `str`'s `<`).
pub open spec fn seq_less(a: Seq<char>, b: Seq<char>) -> bool
    decreases a.len(),
{
    if a.len() == 0 {
        b.len() > 0
    } else if b.len() == 0 {
        false
    } else if a[0] != b[0] {
        a[0] < b[0]
    } else {
        seq_less(a.drop_first(), b.drop_first())
    }
}

/// Whether `a` comes before `b` in lexicographic order.
pub fn str_less(a: &str, b: &str) -> (r: bool)
    ensures
        r == seq_less(a@, b@),
{
    let x = chars_of(a);
    let y = chars_of(b);
    let mut i: usize = 0;
    assert(x@.subrange(0, x@.len() as int) =~= x@);
    assert(y@.subrange(0, y@.len() as int) =~= y@);
    while i < x.len() && i < y.len()
        invariant
            x@ == a@,
            y@ == b@,
            i <= x@.len(),
            i <= y@.len(),
            seq_less(a@, b@) == seq_less(
                x@.subrange(i as int, x@.len() as int),
                y@.subrange(i as int, y@.len() as int),
            ),
        decreases x.len() - i,
    {
        let ghost xs = x@.subrange(i as int, x@.len() as int);
        let ghost ys = y@.subrange(i as int, y@.len() as int);
        assert(xs[0] == x@[i as int] && ys[0] == y@[i as int]);
        if x[i] != y[i] {
            return x[i] < y[i];
        }
        assert(xs.drop_first() =~= x@.subrange(i + 1, x@.len() as int));
        assert(ys.drop_first() =~= y@.subrange(i + 1, y@.len() as int));
        i += 1;
    }
    i < y.len()
}

/// `a` does not come before itself.
pub proof fn lemma_less_irreflexive(a: Seq<char>)
    ensures
        !seq_less(a, a),
    decreases a.len(),
{
    if a.len() > 0 {
        lemma_less_irreflexive(a.drop_first());
    }
}

/// Of two different sequences, one comes first.
pub proof fn lemma_less_total(a: Seq<char>, b: Seq<char>)
    ensures
        a == b || seq_less(a, b) || seq_less(b, a),
    decreases a.len(),
{
    if a.len() > 0 && b.len() > 0 && a[0] == b[0] {
        lemma_less_total(a.drop_first(), b.drop_first());
        if a.drop_first() == b.drop_first() {
            assert(a =~= seq![a[0]] + a.drop_first());
            assert(b =~= seq![b[0]] + b.drop_first());
        }
    } else if a.len() == 0 && b.len() == 0 {
        assert(a =~= b);
    }
}

/// Lexicographic order is transitive.
pub proof fn lemma_less_transitive(a: Seq<char>, b: Seq<char>, c: Seq<char>)
    requires
        seq_less(a, b),
        seq_less(b, c),
    ensures
        seq_less(a, c),
    decreases a.len(),
{
    if a.len() > 0 && b.len() > 0 && c.len() > 0 && a[0] == b[0] && b[0] == c[0] {
        lemma_less_transitive(a.drop_first(), b.drop_first(), c.drop_first());
    }
}

/// The sequences are in strictly ascending order.
pub open spec fn strictly_sorted(v: Seq<Seq<char>>) -> bool {
    forall|i: int, j: int| 0 <= i < j < v.len() ==> seq_less(#[trigger] v[i], #[trigger] v[j])
}

/// Where `s` belongs in the ascending `v`: `(k, true)` when `v[k]` is `s`, else
/// `(k, false)` with every earlier element before `s` and `v[k]`, if any, after it.
fn ordered_position(v: &Vec<String>, s: &String) -> (r: (usize, bool))
    ensures
        r.0 <= v@.len(),
        r.1 ==> r.0 < v@.len() && string_views(v@)[r.0 as int] == s@,
        !r.1 ==> forall|j: int| 0 <= j < r.0 ==> seq_less(#[trigger] string_views(v@)[j], s@),
        !r.1 && r.0 < v@.len() ==> seq_less(s@, string_views(v@)[r.0 as int]),
{
    let ghost w = string_views(v@);
    let mut k: usize = 0;
    while k < v.len()
        invariant
            k <= v@.len(),
            w == string_views(v@),
            forall|j: int| 0 <= j < k ==> seq_less(#[trigger] w[j], s@),
        decreases v.len() - k,
    {
        assert(w[k as int] == v@[k as int]@);
        if str_eq(v[k].as_str(), s.as_str()) {
            return (k, true);
        }
        if str_less(s.as_str(), v[k].as_str()) {
            return (k, false);
        }
        proof {
            lemma_less_total(w[k as int], s@);
        }
        k += 1;
    }
    (k, false)
}

/// Inserts `s` before the first element that comes after it, unless it is present;
/// ascending order is kept.
pub fn insert_ordered(v: &mut Vec<String>, s: String)
    requires
        strictly_sorted(string_views(old(v)@)),
    ensures
        strictly_sorted(string_views(final(v)@)),
        string_views(final(v)@).to_set() == string_views(old(v)@).to_set().insert(s@),
{
    let ghost sv = s@;
    let ghost w = string_views(v@);
    let (k, present) = ordered_position(v, &s);
    if present {
        assert(w.to_set().insert(sv) =~= w.to_set());
        return;
    }
    let ghost kk = k as int;
    v.insert(k, s);
    let ghost w2 = string_views(v@);
    assert(w2 =~= w.insert(kk, sv));
    assert forall|i: int, j: int| 0 <= i < j < w2.len() implies seq_less(w2[i], w2[j]) by {
        if j < kk {
        } else if j == kk {
            assert(w2[i] == w[i]);
        } else if i == kk {
            assert(w2[j] == w[j - 1]);
            if j - 1 > kk {
                lemma_less_transitive(sv, w[kk], w[j - 1]);
            }
        } else if i < kk {
            assert(w2[i] == w[i] && w2[j] == w[j - 1]);
        } else {
            assert(w2[i] == w[i - 1] && w2[j] == w[j - 1]);
        }
    }
    assert(w2.to_set() =~= w.to_set().insert(sv)) by {
        assert forall|x: Seq<char>| w2.to_set().contains(x) <==> w.to_set().insert(sv).contains(x) by {
            if w2.contains(x) {
                let m = choose|m: int| 0 <= m < w2.len() && w2[m] == x;
                if m < kk {
                    assert(w[m] == x);
                } else if m > kk {
                    assert(w[m - 1] == x);
                }
            }
            if w.contains(x) {
                let m = choose|m: int| 0 <= m < w.len() && w[m] == x;
                if m < kk {
                    assert(w2[m] == x);
                } else {
                    assert(w2[m + 1] == x);
                }
            }
            if x == sv {
                assert(w2[kk] == x);
            }
        }
    }
}

} // verus!
