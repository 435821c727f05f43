//! What `git template init` decides between its steps.
//!
//! `init` vendors the template repository, reads `.gittemplate`, collects the
//! template files, determines the variables, prompts for their values,
//! renders the files, cleans up and commits.  The functions here make the
//! decisions of those steps; the caller performs the steps.

use vstd::prelude::*;

use crate::cli::HistoryArg;
use crate::config::{TemplateConfig, TemplateVar};
use crate::editor::Var;
use crate::render::{unresolved_view, unresolved_views, UnresolvedExpr};
use crate::text::{decimal, push_decimal, views};

verus! {

/// Why `init` stops.
#[derive(PartialEq, Eq, Structural)]
pub enum InitError {
    /// `--history replay` was asked for.
    ReplayUnsupported,
    /// The repository is bare.
    NoWorkingDirectory,
    /// Vendoring the template left merge conflicts.
    VendorConflicts,
}

impl InitError {
    /// The text of the error.
    pub open spec fn text(self) -> Seq<char> {
        match self {
            InitError::ReplayUnsupported => "replay history is not supported for `git template init`"@,
            InitError::NoWorkingDirectory => "repository has no working directory"@,
            InitError::VendorConflicts => "template vendoring produced conflicts; resolve them before proceeding"@,
        }
    }

    /// The text of the error.
    pub fn message(&self) -> (r: String)
        ensures
            r@ == self.text(),
    {
        match self {
            InitError::ReplayUnsupported => "replay history is not supported for `git template init`".to_owned(),
            InitError::NoWorkingDirectory => "repository has no working directory".to_owned(),
            InitError::VendorConflicts => "template vendoring produced conflicts; resolve them before proceeding".to_owned(),
        }
    }
}

/// `init` supports every history mode but `replay`.
pub fn check_history(history: HistoryArg) -> (r: Result<(), InitError>)
    ensures
        r == (if history == HistoryArg::Replay {
            Err::<(), InitError>(InitError::ReplayUnsupported)
        } else {
            Ok::<(), InitError>(())
        }),
{
    match history {
        HistoryArg::Replay => Err(InitError::ReplayUnsupported),
        _ => Ok(()),
    }
}

/// `s` without its trailing `c`s.
pub open spec fn trim_end_char(s: Seq<char>, c: char) -> Seq<char>
    decreases s.len(),
{
    if s.len() > 0 && s.last() == c {
        trim_end_char(s.drop_last(), c)
    } else {
        s
    }
}

/// The part of `s` after its last `c`; all of `s` when it has none.
pub open spec fn after_last(s: Seq<char>, c: char) -> Seq<char>
    decreases s.len(),
{
    if s.len() == 0 {
        s
    } else if s.last() == c {
        Seq::empty()
    } else {
        after_last(s.drop_last(), c).push(s.last())
    }
}

/// `s` without a final `.git`.
pub open spec fn strip_git_suffix(s: Seq<char>) -> Seq<char> {
    if s.len() >= 4 && s.subrange(s.len() - 4, s.len() as int) == ".git"@ {
        s.take(s.len() - 4)
    } else {
        s
    }
}

/// The name of a repository that `url` points to: the last path component
/// (after trailing `/`s are dropped, and after a `:` of an SCP-style URL),
/// without a `.git` suffix.
pub open spec fn url_basename(url: Seq<char>) -> Seq<char> {
    strip_git_suffix(after_last(after_last(trim_end_char(url, '/'), '/'), ':'))
}

/// `git_vendor::cli::name_from_url`.  Claims that it returns the basename
/// that its source computes: trailing `/`s trimmed, the text after the last
/// `/`, then after the last `:`, without a final `.git`.
#[verifier::external_body]
fn name_from_url(url: &str) -> (r: String)
    ensures
        r@ == url_basename(url@),
{
    git_vendor::cli::name_from_url(url).to_owned()
}

/// The name of the template entry: the one given, else the basename of the
/// URL.
pub fn template_name(name: Option<&str>, url: &str) -> (r: String)
    ensures
        r@ == match name {
            Some(n) => n@,
            None => url_basename(url@),
        },
{
    match name {
        Some(n) => n.to_owned(),
        None => name_from_url(url),
    }
}

/// The patterns with which the template repository is vendored: all files.
pub fn vendor_patterns() -> (r: Vec<String>)
    ensures
        views(r@) == seq!["**"@],
{
    let mut r: Vec<String> = Vec::new();
    r.push("**".to_owned());
    assert(views(r@) == seq!["**"@]);
    r
}

/// How vendoring the template ended.
pub enum VendorOutcome {
    /// Nothing to merge.
    UpToDate,
    /// Merged cleanly.
    Clean,
    /// Merged with conflicts.
    Conflict,
}

/// `init` goes on after a clean merge of the template and stops on
/// conflicts.  (Adding a vendor never reports it up to date.)
pub fn check_vendor_outcome(outcome: &VendorOutcome) -> (r: Result<(), InitError>)
    requires
        !(*outcome is UpToDate),
    ensures
        r == (if *outcome is Conflict {
            Err::<(), InitError>(InitError::VendorConflicts)
        } else {
            Ok::<(), InitError>(())
        }),
{
    match outcome {
        VendorOutcome::Conflict => Err(InitError::VendorConflicts),
        _ => Ok(()),
    }
}

/// The prompt entry of a declared variable: its name, its description and
/// its default.
pub open spec fn declared_var(v: TemplateVar, p: Var) -> bool {
    &&& p.name@ == v.name@
    &&& p.description matches Some(d) && d@ == v.description@
    &&& p.default@ == v.default@
}

/// The variables that `.gittemplate` declares, as prompt entries; `None`
/// when there is no configuration or it declares no variable (the files are
/// then scanned for variables instead).
pub fn config_vars(cfg: Option<&TemplateConfig>) -> (r: Option<Vec<Var>>)
    ensures
        match cfg {
            Some(c) if c.template.vars@.len() > 0 => r matches Some(vs) && vs@.len()
                == c.template.vars@.len() && forall|i: int|
                0 <= i < vs@.len() ==> declared_var(c.template.vars@[i], #[trigger] vs@[i]),
            _ => r is None,
        },
{
    match cfg {
        Some(c) => {
            if c.template.vars.len() == 0 {
                return None;
            }
            let decl = &c.template.vars;
            let mut out: Vec<Var> = Vec::new();
            let mut i: usize = 0;
            while i < decl.len()
                invariant
                    i <= decl@.len(),
                    out@.len() == i,
                    forall|j: int| 0 <= j < i ==> declared_var(decl@[j], #[trigger] out@[j]),
                decreases decl@.len() - i,
            {
                let v = &decl[i];
                out.push(
                    Var {
                        name: v.name.clone(),
                        description: Some(v.description.clone()),
                        default: v.default.clone(),
                    },
                );
                i = i + 1;
            }
            Some(out)
        },
        None => None,
    }
}

/// The prompt entry of a scanned variable name: no description, an empty default.
pub open spec fn scanned_var(name: Seq<char>, p: Var) -> bool {
    &&& p.name@ == name
    &&& p.description is None
    &&& p.default@ == Seq::<char>::empty()
}

/// Prompt entries for variable names found by scanning the files.
pub fn scanned_vars(names: Vec<String>) -> (r: Vec<Var>)
    ensures
        r@.len() == names@.len(),
        forall|i: int| 0 <= i < r@.len() ==> scanned_var(names@[i]@, #[trigger] r@[i]),
{
    let mut out: Vec<Var> = Vec::new();
    let mut i: usize = 0;
    while i < names.len()
        invariant
            i <= names@.len(),
            out@.len() == i,
            forall|j: int| 0 <= j < i ==> scanned_var(names@[j]@, #[trigger] out@[j]),
        decreases names@.len() - i,
    {
        out.push(Var { name: names[i].clone(), description: None, default: String::new() });
        i = i + 1;
    }
    out
}

/// The editor is opened only when there are variables to fill in.
pub fn should_prompt(vars: &Vec<Var>) -> (r: bool)
    ensures
        r == (vars@.len() > 0),
{
    vars.len() > 0
}

/// What `init` removes once the files are rendered.
pub struct CleanupPlan {
    /// Files removed from the working tree and the index.
    pub remove: Vec<String>,
    /// Whether the vendor reference of the template is deleted.
    pub delete_vendor_ref: bool,
}

/// `.gittemplate` is always removed; unless the vendoring is kept for later
/// syncing, `.gitvendors`, `.gitattributes` and the vendor reference go too.
pub fn cleanup_plan(keep_vendor: bool) -> (r: CleanupPlan)
    ensures
        views(r.remove@) == (if keep_vendor {
            seq![".gittemplate"@]
        } else {
            seq![".gittemplate"@, ".gitvendors"@, ".gitattributes"@]
        }),
        r.delete_vendor_ref == !keep_vendor,
{
    let mut remove: Vec<String> = Vec::new();
    remove.push(".gittemplate".to_owned());
    if !keep_vendor {
        remove.push(".gitvendors".to_owned());
        remove.push(".gitattributes".to_owned());
    }
    let r = CleanupPlan { remove, delete_vendor_ref: !keep_vendor };
    assert(views(r.remove@) == (if keep_vendor {
        seq![".gittemplate"@]
    } else {
        seq![".gittemplate"@, ".gitvendors"@, ".gitattributes"@]
    }));
    r
}

/// The message of the commit that `init` makes.
pub fn commit_message(url: &str) -> (r: String)
    ensures
        r@ == "chore: initialize from template "@ + url@,
{
    let mut s = "chore: initialize from template ".to_owned();
    s.append(url);
    s
}

/// The committer identity: the configured `user.name` and `user.email`,
/// `git-template` and `git-template@localhost` where they are not set.
pub fn signature_identity(name: Option<String>, email: Option<String>) -> (r: (String, String))
    ensures
        r.0@ == match name {
            Some(n) => n@,
            None => "git-template"@,
        },
        r.1@ == match email {
            Some(e) => e@,
            None => "git-template@localhost"@,
        },
{
    let n = match name {
        Some(n) => n,
        None => "git-template".to_owned(),
    };
    let e = match email {
        Some(e) => e,
        None => "git-template@localhost".to_owned(),
    };
    (n, e)
}

/// The sequence of the value of an option, if any.
pub open spec fn option_seq<T>(o: Option<T>) -> Seq<T> {
    match o {
        Some(x) => seq![x],
        None => Seq::empty(),
    }
}

/// The parents of the commit: the current `HEAD` commit if there is one,
/// and, for a squash, the template's tip commit if it is found.
pub fn commit_parents<T>(history: HistoryArg, head: Option<T>, vendor_tip: Option<T>) -> (r: Vec<T>)
    requires
        history != HistoryArg::Replay,
    ensures
        r@ == option_seq(head) + (if history == HistoryArg::Squash {
            option_seq(vendor_tip)
        } else {
            Seq::empty()
        }),
{
    let ghost h = option_seq(head);
    let ghost t = option_seq(vendor_tip);
    let mut parents: Vec<T> = Vec::new();
    if let Some(c) = head {
        parents.push(c);
    }
    assert(parents@ == h);
    match history {
        HistoryArg::Squash => {
            if let Some(c) = vendor_tip {
                parents.push(c);
            }
            assert(parents@ == h + t);
        },
        _ => {
            assert(parents@ == h + Seq::<T>::empty());
        },
    }
    parents
}

/// The first line of the warning about unresolved expressions.
pub open spec fn report_header(count: nat) -> Seq<char> {
    "warning: "@ + decimal(count) + " unresolved template expression(s) — variables were left empty:"@
}

/// The warning line of one unresolved expression: `  {file}:{line}  {expr}`.
pub open spec fn report_line(u: (Seq<char>, nat, Seq<char>)) -> Seq<char> {
    "  "@ + u.0 + ":"@ + decimal(u.1) + "  "@ + u.2
}

/// The warning printed after `init` about expressions left unresolved: no
/// line when there is none, else a header with their number and a line for
/// each.
pub fn unresolved_report(unresolved: &Vec<UnresolvedExpr>) -> (r: Vec<String>)
    ensures
        views(r@) == (if unresolved@.len() == 0 {
            Seq::<Seq<char>>::empty()
        } else {
            seq![report_header(unresolved@.len() as nat)] + unresolved_views(
                unresolved@,
            ).map_values(|u: (Seq<char>, nat, Seq<char>)| report_line(u))
        }),
{
    let mut out: Vec<String> = Vec::new();
    if unresolved.len() == 0 {
        assert(views(out@) == Seq::<Seq<char>>::empty());
        return out;
    }
    let mut header = "warning: ".to_owned();
    push_decimal(&mut header, unresolved.len());
    header.append(" unresolved template expression(s) — variables were left empty:");
    out.push(header);
    let ghost lines = unresolved_views(unresolved@).map_values(
        |u: (Seq<char>, nat, Seq<char>)| report_line(u),
    );
    let mut i: usize = 0;
    assert(views(out@) == seq![report_header(unresolved@.len() as nat)] + lines.take(0));
    while i < unresolved.len()
        invariant
            i <= unresolved@.len(),
            lines == unresolved_views(unresolved@).map_values(
                |u: (Seq<char>, nat, Seq<char>)| report_line(u),
            ),
            views(out@) == seq![report_header(unresolved@.len() as nat)] + lines.take(i as int),
        decreases unresolved@.len() - i,
    {
        let u = &unresolved[i];
        let mut line = "  ".to_owned();
        line.append(u.file.as_str());
        line.append(":");
        push_decimal(&mut line, u.line);
        line.append("  ");
        line.append(u.expr.as_str());
        assert(line@ == report_line(unresolved_view(*u)));
        let ghost before = views(out@);
        out.push(line);
        assert(views(out@) == before.push(line@));
        assert(lines.take(i + 1) == lines.take(i as int).push(lines[i as int]));
        i = i + 1;
    }
    assert(lines.take(unresolved@.len() as int) == lines);
    out
}

/// The closing message of `init`.
pub fn initialized_message(name: &str) -> (r: String)
    ensures
        r@ == "Initialized from template '"@ + name@ + "'."@,
{
    let mut s = "Initialized from template '".to_owned();
    s.append(name);
    s.append("'.");
    s
}

} // verus!
