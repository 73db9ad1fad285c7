//! The launch environment: search-path variables over the locked outputs, and the
//! user's variables with `{<package>.<output>}` substituted.
use vstd::prelude::*;

use crate::fetch::names;
use crate::lockfile::{lookup, PackageLockView};
use crate::state::State;
use crate::store_path::StorePath;
use crate::template::{format_template, formatted, pairs_view};
use crate::text::push_str;

verus! {

/// `/nix/store/<path>/<subpath>`.
pub open spec fn subpath_entry(path: Seq<char>, subpath: Seq<char>) -> Seq<char> {
    "/nix/store/"@ + path + "/"@ + subpath
}

/// The entries of the paths whose subdirectory is present, in order.
pub open spec fn present_entries(paths: Seq<Seq<char>>, present: Seq<bool>, subpath: Seq<char>) -> Seq<
    Seq<char>,
>
    decreases paths.len(),
{
    if paths.len() == 0 || present.len() == 0 {
        seq![]
    } else {
        present_entries(paths.drop_last(), present.drop_last(), subpath) + if present.last() {
            seq![subpath_entry(paths.last(), subpath)]
        } else {
            seq![]
        }
    }
}

/// `xs` joined with `sep`.
pub open spec fn joined(xs: Seq<Seq<char>>, sep: Seq<char>) -> Seq<char>
    decreases xs.len(),
{
    if xs.len() == 0 {
        seq![]
    } else if xs.len() == 1 {
        xs[0]
    } else {
        joined(xs.drop_last(), sep) + sep + xs.last()
    }
}

/// A search-path value: the present entries joined with `sep`, then the previous
/// value of the variable, if any, after one more `sep`.
pub open spec fn env_prefix(
    sep: Seq<char>,
    paths: Seq<Seq<char>>,
    subpath: Seq<char>,
    present: Seq<bool>,
    previous: Option<Seq<char>>,
) -> Seq<char> {
    let j = joined(present_entries(paths, present, subpath), sep);
    match previous {
        Some(v) => j + sep + v,
        None => j,
    }
}

/// Builds a search-path value from `paths`, where `present[i]` says whether
/// `store/<paths[i]>/<subpath>` exists in the local store and `previous` is the
/// variable's value in the calling environment.
pub fn prefix_env_subpaths(
    sep: &str,
    paths: &Vec<StorePath>,
    subpath: &str,
    present: &Vec<bool>,
    previous: Option<String>,
) -> (r: String)
    requires
        present@.len() == paths@.len(),
    ensures
        r@ == env_prefix(
            sep@,
            names(paths@),
            subpath@,
            present@,
            match previous {
                Some(v) => Some(v@),
                None => None,
            },
        ),
{
    let ghost ps = names(paths@);
    let mut r = String::new();
    let ghost mut entries: Seq<Seq<char>> = seq![];
    let mut any = false;
    let mut i: usize = 0;
    while i < paths.len()
        invariant
            any == (entries.len() > 0),
            ps == names(paths@),
            present@.len() == paths@.len(),
            i <= paths@.len(),
            entries == present_entries(ps.subrange(0, i as int), present@.subrange(0, i as int), subpath@),
            r@ == joined(entries, sep@),
        decreases paths.len() - i,
    {
        assert(ps.subrange(0, i + 1).drop_last() =~= ps.subrange(0, i as int));
        assert(present@.subrange(0, i + 1).drop_last() =~= present@.subrange(0, i as int));
        assert(ps.subrange(0, i + 1).last() == paths@[i as int]@);
        if present[i] {
            let ghost e = subpath_entry(paths@[i as int]@, subpath@);
            if any {
                push_str(&mut r, sep);
            }
            any = true;
            push_str(&mut r, "/nix/store/");
            push_str(&mut r, paths[i].as_str());
            push_str(&mut r, "/");
            push_str(&mut r, subpath);
            proof {
                let next = entries.push(e);
                assert(next.drop_last() =~= entries);
                if entries.len() > 0 {
                    assert(r@ =~= joined(entries, sep@) + sep@ + e);
                } else {
                    assert(r@ =~= e);
                }
                assert(entries + seq![e] =~= next);
                entries = next;
            }
        } else {
            assert(entries + Seq::<Seq<char>>::empty() =~= entries);
        }
        i += 1;
    }
    assert(ps.subrange(0, i as int) =~= ps);
    assert(present@.subrange(0, i as int) =~= present@);
    match previous {
        Some(v) => {
            push_str(&mut r, sep);
            push_str(&mut r, v.as_str());
        },
        None => {},
    }
    r
}

/// The substitution table of a platform's locks: `<package>.<output>` to
/// `/nix/store/<path>`, package by package.
pub open spec fn substitution_pairs(pkgs: Seq<(Seq<char>, PackageLockView)>) -> Seq<(Seq<char>, Seq<char>)>
    decreases pkgs.len(),
{
    if pkgs.len() == 0 {
        seq![]
    } else {
        substitution_pairs(pkgs.drop_last()) + output_pairs(pkgs.last().0, pkgs.last().1.1)
    }
}

/// The substitutions of one package's outputs.
pub open spec fn output_pairs(name: Seq<char>, outs: Seq<(Seq<char>, Seq<char>)>) -> Seq<
    (Seq<char>, Seq<char>),
> {
    outs.map_values(|o: (Seq<char>, Seq<char>)| (name + "."@ + o.0, "/nix/store/"@ + o.1))
}

/// The user's variables with their templates expanded, in order; `None` when one fails.
pub open spec fn user_values(env: Seq<(Seq<char>, Seq<char>)>, subs: Seq<(Seq<char>, Seq<char>)>) -> Option<
    Seq<(Seq<char>, Seq<char>)>,
>
    decreases env.len(),
{
    if env.len() == 0 {
        Some(seq![])
    } else {
        match user_values(env.drop_last(), subs) {
            None => None,
            Some(prev) => match formatted(env.last().1, subs) {
                Some(v) => Some(prev.push((env.last().0, v))),
                None => None,
            },
        }
    }
}

/// The first template of `env` that does not expand, if any.
pub open spec fn first_failing(env: Seq<(Seq<char>, Seq<char>)>, subs: Seq<(Seq<char>, Seq<char>)>) -> Option<
    Seq<char>,
>
    decreases env.len(),
{
    if env.len() == 0 {
        None
    } else {
        match first_failing(env.drop_last(), subs) {
            Some(t) => Some(t),
            None => if formatted(env.last().1, subs) is None {
                Some(env.last().1)
            } else {
                None
            },
        }
    }
}

/// `user_values` fails exactly where `first_failing` finds a template.
pub proof fn lemma_user_values_fail(env: Seq<(Seq<char>, Seq<char>)>, subs: Seq<(Seq<char>, Seq<char>)>)
    ensures
        user_values(env, subs) is None <==> first_failing(env, subs) is Some,
    decreases env.len(),
{
    if env.len() > 0 {
        lemma_user_values_fail(env.drop_last(), subs);
    }
}

/// Why the environment could not be built.
#[derive(Debug)]
pub enum EnvError {
    /// The manifest has no part for the host platform.
    UnsupportedSystem,
    /// A variable's template names an unknown placeholder, or is malformed.
    Template(String),
}

/// The three search-path variables, then the user's.
pub open spec fn env_view(v: Seq<(String, String)>) -> Seq<(Seq<char>, Seq<char>)> {
    pairs_view(v)
}

impl State {
    /// The locks of the host platform, or none.
    pub open spec fn host_locks(&self) -> Seq<(Seq<char>, PackageLockView)> {
        match lookup(self.lockfile@, self.system) {
            Some(p) => p,
            None => seq![],
        }
    }

    /// The substitution table of the host platform's locks.
    pub fn substitutions(&self) -> (r: Vec<(String, String)>)
        requires
            self.lockfile.wf(),
        ensures
            pairs_view(r@) == substitution_pairs(self.host_locks()),
    {
        let mut r: Vec<(String, String)> = Vec::new();
        match self.lockfile.system(self.system) {
            None => {
                assert(pairs_view(r@) =~= Seq::<(Seq<char>, Seq<char>)>::empty());
            },
            Some(pkgs) => {
                let mut i: usize = 0;
                while i < pkgs.inner.len()
                    invariant
                        i <= pkgs@.len(),
                        pairs_view(r@) == substitution_pairs(pkgs@.subrange(0, i as int)),
                    decreases pkgs.inner.len() - i,
                {
                    let name = &pkgs.inner[i].0;
                    let outs = &pkgs.inner[i].1.outputs;
                    let ghost pv = pkgs@[i as int];
                    let ghost before = pairs_view(r@);
                    let mut k: usize = 0;
                    while k < outs.len()
                        invariant
                            k <= outs@.len(),
                            pv.0 == name@,
                            pv.1.1 == crate::lockfile::output_view(outs@),
                            pairs_view(r@) == before + output_pairs(
                                pv.0,
                                pv.1.1.subrange(0, k as int),
                            ),
                        decreases outs.len() - k,
                    {
                        let mut key = name.clone();
                        push_str(&mut key, ".");
                        push_str(&mut key, outs[k].0.as_str());
                        let mut value = String::new();
                        push_str(&mut value, "/nix/store/");
                        push_str(&mut value, outs[k].1.as_str());
                        let ghost prev = pairs_view(r@);
                        r.push((key, value));
                        assert(pairs_view(r@) =~= prev.push((key@, value@)));
                        assert(output_pairs(pv.0, pv.1.1.subrange(0, k + 1)) =~= output_pairs(
                            pv.0,
                            pv.1.1.subrange(0, k as int),
                        ).push((key@, value@)));
                        k += 1;
                    }
                    assert(pv.1.1.subrange(0, k as int) =~= pv.1.1);
                    assert(pkgs@.subrange(0, i + 1).drop_last() =~= pkgs@.subrange(0, i as int));
                    assert(pkgs@.subrange(0, i + 1).last() == pv);
                    i += 1;
                }
                assert(pkgs@.subrange(0, i as int) =~= pkgs@);
            },
        }
        r
    }

    /// The launch environment: `PATH`, `LIBRARY_PATH` and `PKG_CONFIG_PATH` as given,
    /// then each variable the manifest declares for the host platform, its template
    /// expanded with the substitution table.
    pub fn env(&self, path: String, library_path: String, pkg_config_path: String) -> (r: Result<
        Vec<(String, String)>,
        EnvError,
    >)
        requires
            self.lockfile.wf(),
            self.manifest.wf(),
        ensures
            match lookup(self.manifest.systems@, self.system) {
                None => r matches Err(EnvError::UnsupportedSystem),
                Some(m) => {
                    let subs = substitution_pairs(self.host_locks());
                    match user_values(pairs_view(m.env@), subs) {
                        Some(vals) => r matches Ok(v) && env_view(v@) == seq![
                            ("PATH"@, path@),
                            ("LIBRARY_PATH"@, library_path@),
                            ("PKG_CONFIG_PATH"@, pkg_config_path@),
                        ] + vals,
                        None => r matches Err(EnvError::Template(t)) && first_failing(
                            pairs_view(m.env@),
                            subs,
                        ) == Some(t@),
                    }
                },
            },
    {
        let idx = match self.manifest.systems_position(self.system) {
            Some(i) => i,
            None => {
                return Err(EnvError::UnsupportedSystem);
            },
        };
        let subs = self.substitutions();
        let ghost sv = pairs_view(subs@);
        let vars = &self.manifest.systems[idx].1.env;
        let ghost ev = pairs_view(vars@);
        let mut out: Vec<(String, String)> = Vec::new();
        out.push(("PATH".to_owned(), path));
        out.push(("LIBRARY_PATH".to_owned(), library_path));
        out.push(("PKG_CONFIG_PATH".to_owned(), pkg_config_path));
        let ghost head = pairs_view(out@);
        assert(head + seq![] =~= head);
        let mut i: usize = 0;
        while i < vars.len()
            invariant
                sv == pairs_view(subs@),
                sv == substitution_pairs(self.host_locks()),
                idx < self.manifest.systems@.len(),
                lookup(self.manifest.systems@, self.system) == Some(self.manifest.systems@[idx as int].1),
                ev == pairs_view(self.manifest.systems@[idx as int].1.env@),
                ev == pairs_view(vars@),
                i <= vars@.len(),
                head.len() == 3,
                user_values(ev.subrange(0, i as int), sv) matches Some(vals) && pairs_view(out@)
                    == head + vals,
                first_failing(ev.subrange(0, i as int), sv) is None,
            decreases vars.len() - i,
        {
            assert(ev.subrange(0, i + 1).drop_last() =~= ev.subrange(0, i as int));
            assert(ev.subrange(0, i + 1).last() == (vars@[i as int].0@, vars@[i as int].1@));
            match format_template(vars[i].1.as_str(), &subs) {
                Some(v) => {
                    let ghost prev = pairs_view(out@);
                    out.push((vars[i].0.clone(), v));
                    assert(pairs_view(out@) =~= prev.push((vars@[i as int].0@, v@)));
                },
                None => {
                    assert(first_failing(ev.subrange(0, i + 1), sv) == Some(vars@[i as int].1@));
                    proof {
                        lemma_first_failing_persists(ev, sv, i as int + 1);
                        lemma_user_values_fail(ev, sv);
                    }
                    return Err(EnvError::Template(vars[i].1.clone()));
                },
            }
            i += 1;
        }
        assert(ev.subrange(0, i as int) =~= ev);
        proof {
            lemma_user_values_fail(ev, sv);
        }
        Ok(out)
    }
}

/// A failing template stays the first failing one as more variables follow.
pub proof fn lemma_first_failing_persists(
    env: Seq<(Seq<char>, Seq<char>)>,
    subs: Seq<(Seq<char>, Seq<char>)>,
    k: int,
)
    requires
        0 <= k <= env.len(),
        first_failing(env.subrange(0, k), subs) is Some,
    ensures
        first_failing(env, subs) == first_failing(env.subrange(0, k), subs),
    decreases env.len() - k,
{
    if k < env.len() {
        assert(env.subrange(0, k + 1).drop_last() =~= env.subrange(0, k));
        lemma_first_failing_persists(env, subs, k + 1);
    } else {
        assert(env.subrange(0, k) =~= env);
    }
}

/// A character that the shell reads literally: ASCII letters and digits and `-_=/,.+`.
pub open spec fn is_plain_shell_char(c: char) -> bool {
    ||| ('a' <= c && c <= 'z')
    ||| ('A' <= c && c <= 'Z')
    ||| ('0' <= c && c <= '9')
    ||| c == '-' || c == '_' || c == '=' || c == '/' || c == ',' || c == '.' || c == '+'
}

/// The characters of `s` for use inside single quotes: `'` and `!` become `'\'` and
/// `'\!'` followed by a reopening quote.
pub open spec fn quoted_body(s: Seq<char>) -> Seq<char>
    decreases s.len(),
{
    if s.len() == 0 {
        seq![]
    } else {
        quoted_body(s.drop_last()) + if s.last() == '\'' || s.last() == '!' {
            seq!['\'', '\\', s.last(), '\'']
        } else {
            seq![s.last()]
        }
    }
}

/// `s` as one shell word: unchanged when it is non-empty and plain, else in single quotes.
pub open spec fn shell_escaped(s: Seq<char>) -> Seq<char> {
    if s.len() > 0 && forall|i: int| 0 <= i < s.len() ==> is_plain_shell_char(#[trigger] s[i]) {
        s
    } else {
        seq!['\''] + quoted_body(s) + seq!['\'']
    }
}

/// Relies on `shell_escape::unix::escape`: a non-empty word of plain characters is
/// kept; anything else is put in single quotes, each `'` and `!` written as `'\'`,
/// `'\!'` and a reopening quote.
#[verifier::external_body]
fn escape_for_shell(s: &str) -> (r: String)
    ensures
        r@ == shell_escaped(s@),
{
    shell_escape::unix::escape(std::borrow::Cow::Borrowed(s)).into_owned()
}

/// The `export` lines for `env`, one per variable, in order.
pub open spec fn export_text(env: Seq<(Seq<char>, Seq<char>)>) -> Seq<char>
    decreases env.len(),
{
    if env.len() == 0 {
        seq![]
    } else {
        export_text(env.drop_last()) + "export "@ + env.last().0 + "="@ + shell_escaped(env.last().1)
            + "\n"@
    }
}

/// Writes `export NAME=VALUE` with the value shell-escaped, one line per variable.
pub fn export_lines(env: &Vec<(String, String)>) -> (r: String)
    ensures
        r@ == export_text(pairs_view(env@)),
{
    let ghost ev = pairs_view(env@);
    let mut r = String::new();
    let mut i: usize = 0;
    while i < env.len()
        invariant
            ev == pairs_view(env@),
            i <= env@.len(),
            r@ == export_text(ev.subrange(0, i as int)),
        decreases env.len() - i,
    {
        assert(ev.subrange(0, i + 1).drop_last() =~= ev.subrange(0, i as int));
        assert(ev.subrange(0, i + 1).last() == (env@[i as int].0@, env@[i as int].1@));
        push_str(&mut r, "export ");
        push_str(&mut r, env[i].0.as_str());
        push_str(&mut r, "=");
        push_str(&mut r, escape_for_shell(env[i].1.as_str()).as_str());
        push_str(&mut r, "\n");
        assert(r@ =~= export_text(ev.subrange(0, i + 1)));
        i += 1;
    }
    assert(ev.subrange(0, i as int) =~= ev);
    r
}

} // verus!
