use git_template::cli::{HistoryArg, StrategyOption};
use git_template::config::{TemplateConfig, TemplateSection, TemplateVar};
use git_template::exe::{
    check_history, check_vendor_outcome, cleanup_plan, commit_message, commit_parents, config_vars,
    initialized_message, scanned_vars, should_prompt, signature_identity, template_name,
    unresolved_report, vendor_patterns, InitError, VendorOutcome,
};
use git_template::render::UnresolvedExpr;
use git_template::TemplateRepository;

#[test]
fn replay_is_refused() {
    assert!(check_history(HistoryArg::Replay) == Err(InitError::ReplayUnsupported));
    assert!(check_history(HistoryArg::Squash).is_ok());
    assert!(check_history(HistoryArg::Linear).is_ok());
    assert_eq!(
        InitError::ReplayUnsupported.message(),
        "replay history is not supported for `git template init`"
    );
}

#[test]
fn error_messages() {
    assert_eq!(InitError::NoWorkingDirectory.message(), "repository has no working directory");
    assert_eq!(
        InitError::VendorConflicts.message(),
        "template vendoring produced conflicts; resolve them before proceeding"
    );
}

#[test]
fn conflicts_stop_init() {
    assert!(check_vendor_outcome(&VendorOutcome::Conflict) == Err(InitError::VendorConflicts));
    assert!(check_vendor_outcome(&VendorOutcome::Clean).is_ok());
}

#[test]
fn name_defaults_to_url_basename() {
    assert_eq!(template_name(None, "https://github.com/org/repo.git"), "repo");
    assert_eq!(template_name(None, "https://github.com/org/repo"), "repo");
    assert_eq!(template_name(None, "git@github.com:org/my-lib.git"), "my-lib");
    assert_eq!(template_name(None, "/local/path/to/repo.git"), "repo");
    assert_eq!(template_name(None, "https://host/tmpl/"), "tmpl");
    assert_eq!(template_name(None, "git@host:tmpl.git"), "tmpl");
    assert_eq!(template_name(Some("given"), "https://github.com/org/repo.git"), "given");
}

#[test]
fn vendored_with_all_files() {
    assert_eq!(vendor_patterns(), vec!["**".to_string()]);
}

fn config(vars: Vec<TemplateVar>) -> TemplateConfig {
    TemplateConfig { template: TemplateSection { files: None, vars } }
}

#[test]
fn declared_vars_are_prompted() {
    let cfg = config(vec![TemplateVar {
        name: "project".to_string(),
        description: "Project name".to_string(),
        default: "demo".to_string(),
    }]);
    let vars = config_vars(Some(&cfg)).unwrap();
    assert_eq!(vars.len(), 1);
    assert_eq!(vars[0].name, "project");
    assert_eq!(vars[0].description, Some("Project name".to_string()));
    assert_eq!(vars[0].default, "demo");
    assert!(should_prompt(&vars));
}

#[test]
fn without_declared_vars_files_are_scanned() {
    assert!(config_vars(None).is_none());
    assert!(config_vars(Some(&config(Vec::new()))).is_none());
    let vars = scanned_vars(vec!["a".to_string(), "b".to_string()]);
    assert_eq!(vars.len(), 2);
    assert_eq!(vars[1].name, "b");
    assert_eq!(vars[1].description, None);
    assert_eq!(vars[1].default, "");
    assert!(!should_prompt(&scanned_vars(Vec::new())));
}

#[test]
fn cleanup_keeps_vendoring_on_request() {
    let keep = cleanup_plan(true);
    assert_eq!(keep.remove, vec![".gittemplate".to_string()]);
    assert!(!keep.delete_vendor_ref);
    let drop = cleanup_plan(false);
    assert_eq!(drop.remove, vec![".gittemplate".to_string(), ".gitvendors".to_string(), ".gitattributes".to_string()]);
    assert!(drop.delete_vendor_ref);
}

#[test]
fn commit_message_names_url() {
    assert_eq!(commit_message("https://x/y.git"), "chore: initialize from template https://x/y.git");
}

#[test]
fn signature_falls_back_to_defaults() {
    assert_eq!(signature_identity(None, None), ("git-template".to_string(), "git-template@localhost".to_string()));
    assert_eq!(
        signature_identity(Some("Ann".to_string()), Some("ann@x".to_string())),
        ("Ann".to_string(), "ann@x".to_string())
    );
}

#[test]
fn squash_has_template_parent_linear_not() {
    assert_eq!(commit_parents(HistoryArg::Squash, Some(1), Some(2)), vec![1, 2]);
    assert_eq!(commit_parents(HistoryArg::Squash, None, Some(2)), vec![2]);
    assert_eq!(commit_parents(HistoryArg::Linear, Some(1), Some(2)), vec![1]);
    assert_eq!(commit_parents::<u8>(HistoryArg::Linear, None, None), Vec::<u8>::new());
}

#[test]
fn report_of_unresolved_expressions() {
    assert!(unresolved_report(&Vec::new()).is_empty());
    let us = vec![
        UnresolvedExpr { file: "a.txt".to_string(), line: 3, expr: "{{ x }}".to_string() },
        UnresolvedExpr { file: "b/c.md".to_string(), line: 120, expr: "{{ y }}".to_string() },
    ];
    assert_eq!(
        unresolved_report(&us),
        vec![
            "warning: 2 unresolved template expression(s) — variables were left empty:".to_string(),
            "  a.txt:3  {{ x }}".to_string(),
            "  b/c.md:120  {{ y }}".to_string(),
        ]
    );
}

#[test]
fn closing_message() {
    assert_eq!(initialized_message("repo"), "Initialized from template 'repo'.");
}

#[test]
fn defaults_of_options() {
    assert!(StrategyOption::default() == StrategyOption::Normal);
    assert!(HistoryArg::default() == HistoryArg::Squash);
}

struct Plain;
impl TemplateRepository for Plain {}

#[test]
fn from_template_default_succeeds() {
    assert!(Plain::from_template().is_ok());
}
