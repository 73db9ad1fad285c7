//! Format templates with named placeholders, and the URL of a Hydra job.
use vstd::prelude::*;

use crate::package::Jobset;
use crate::system::{system_name, System};
use crate::text::push_str;

verus! {

/// The text that `strfmt` makes of `template` with the variables `vars` (a later
/// pair wins over an earlier one with the same name), or `None` when it refuses the
/// template, as for an unknown placeholder.
pub uninterp spec fn formatted(template: Seq<char>, vars: Seq<(Seq<char>, Seq<char>)>) -> Option<
    Seq<char>,
>;

/// The abstract value of `(name, value)` pairs.
pub open spec fn pairs_view(v: Seq<(String, String)>) -> Seq<(Seq<char>, Seq<char>)> {
    v.map_values(|e: (String, String)| (e.0@, e.1@))
}

/// Relies on `strfmt::strfmt`: substitutes each `{name}` of the template with the
/// variable's value, failing on an unknown name or a malformed template.
#[verifier::external_body]
pub(crate) fn format_template(template: &str, vars: &Vec<(String, String)>) -> (r: Option<String>)
    ensures
        match r {
            Some(t) => formatted(template@, pairs_view(vars@)) == Some(t@),
            None => formatted(template@, pairs_view(vars@)) is None,
        },
{
    let map: std::collections::HashMap<String, String> = vars.iter().cloned().collect();
    strfmt::strfmt(template, &map).ok()
}

/// A template that names an unknown placeholder, or is malformed.
#[derive(Debug)]
pub struct TemplateError {
    pub template: String,
}

/// The variables of a Hydra job template.
pub open spec fn job_vars(attribute: Seq<char>, system: System) -> Seq<(Seq<char>, Seq<char>)> {
    seq![("attribute"@, attribute), ("system"@, system_name(system))]
}

/// `<base>/job/<project>/<jobset>/<job>/latest-for/<system>`.
pub open spec fn job_url(j: Jobset, job: Seq<char>, system: System) -> Seq<char> {
    j.base@ + "/job/"@ + j.project@ + "/"@ + j.jobset@ + "/"@ + job + "/latest-for/"@
        + system_name(system)
}

impl Jobset {
    /// The URL of the latest build of the expanded job `job` for `system`.
    pub fn latest_url(&self, job: &str, system: System) -> (r: String)
        ensures
            r@ == job_url(*self, job@, system),
    {
        let mut r = self.base.clone();
        push_str(&mut r, "/job/");
        push_str(&mut r, self.project.as_str());
        push_str(&mut r, "/");
        push_str(&mut r, self.jobset.as_str());
        push_str(&mut r, "/");
        push_str(&mut r, job);
        push_str(&mut r, "/latest-for/");
        push_str(&mut r, system.to_string().as_str());
        r
    }

    /// The URL that resolves `attribute` for `system`: the job template expanded with
    /// `{attribute}` and `{system}`.
    pub fn outputs_url(&self, attribute: &str, system: System) -> (r: Result<String, TemplateError>)
        ensures
            match formatted(self.job@, job_vars(attribute@, system)) {
                Some(job) => r matches Ok(u) && u@ == job_url(*self, job, system),
                None => r matches Err(e) && e.template@ == self.job@,
            },
    {
        let mut vars: Vec<(String, String)> = Vec::new();
        vars.push(("attribute".to_owned(), attribute.to_owned()));
        vars.push(("system".to_owned(), system.to_string()));
        assert(pairs_view(vars@) =~= job_vars(attribute@, system));
        match format_template(self.job.as_str(), &vars) {
            Some(job) => Ok(self.latest_url(job.as_str(), system)),
            None => Err(TemplateError { template: self.job.clone() }),
        }
    }
}

} // verus!
