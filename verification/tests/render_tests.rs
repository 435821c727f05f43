use git_template::render::{
    empty_vars, extract_var_names, file_matcher, render_template, select_files, skips_entry,
    unresolved_in_files,
    unique_var_names, unresolved_in,
};
use git_template::editor::ParamMap;

fn strings(v: &[&str]) -> Vec<String> {
    v.iter().map(|s| s.to_string()).collect()
}

#[test]
fn extract_simple_expression() {
    assert_eq!(extract_var_names("Hello {{ name }}!"), strings(&["name"]));
}

#[test]
fn extract_skips_spaces_and_tabs() {
    assert_eq!(extract_var_names("{{\t  project_name}} and {{x}}"), strings(&["project_name", "x"]));
}

#[test]
fn extract_stops_at_non_name_character() {
    assert_eq!(extract_var_names("{{ a.b }} {{ c|upper }}"), strings(&["a", "c"]));
}

#[test]
fn extract_ignores_expressions_without_name() {
    assert_eq!(extract_var_names("{{ }} {{ 'lit' }} {{"), Vec::<String>::new());
}

#[test]
fn extract_resumes_after_opening_braces() {
    // `{{{{ a }}` is found at 0 and again at 2.
    assert_eq!(extract_var_names("{{{{ a }}"), strings(&["a"]));
    assert_eq!(extract_var_names("{{{a}}"), Vec::<String>::new());
}

#[test]
fn extract_keeps_duplicates_and_order() {
    assert_eq!(extract_var_names("{{b}}{{a}}{{b}}"), strings(&["b", "a", "b"]));
}

#[test]
fn extract_unicode_names() {
    assert_eq!(extract_var_names("{{ größe }} {{ x_1 }}"), strings(&["größe", "x_1"]));
}

#[test]
fn extract_empty_text() {
    assert_eq!(extract_var_names(""), Vec::<String>::new());
    assert_eq!(extract_var_names("{"), Vec::<String>::new());
}

#[test]
fn unique_names_first_seen_order() {
    let texts = strings(&["{{ b }} {{ a }}", "{{ a }} {{ c }} {{ b }}"]);
    assert_eq!(unique_var_names(&texts), strings(&["b", "a", "c"]));
}

#[test]
fn unique_names_of_no_texts() {
    assert_eq!(unique_var_names(&Vec::new()), Vec::<String>::new());
}

#[test]
fn select_all_files_sorted_without_patterns() {
    let candidates = strings(&["src/main.rs", "README.md", ".gittemplate", "a-b", "a/b", ".gitvendors", ".gitattributes", ".git/config"]);
    let matcher = file_matcher(None).unwrap();
    assert!(matcher.selects_all());
    let selected = select_files(&candidates, &matcher);
    // Path order: "a/b" before "a-b", since components are compared.
    assert_eq!(selected, strings(&["README.md", "a/b", "a-b", "src/main.rs"]));
}

#[test]
fn select_files_by_glob() {
    let pats = strings(&["*.md", "src/**"]);
    let matcher = file_matcher(Some(&pats)).unwrap();
    let candidates = strings(&["src/lib.rs", "Cargo.toml", "README.md", "docs/guide.md", "src/x/y.rs"]);
    let selected = select_files(&candidates, &matcher);
    assert_eq!(selected, strings(&["README.md", "docs/guide.md", "src/lib.rs", "src/x/y.rs"]));
}

#[test]
fn select_files_glob_does_not_override_exclusions() {
    let pats = strings(&["**"]);
    let matcher = file_matcher(Some(&pats)).unwrap();
    let candidates = strings(&[".gittemplate", "b.txt", ".git/HEAD", "sub/.gittemplate"]);
    assert_eq!(select_files(&candidates, &matcher), strings(&["b.txt", "sub/.gittemplate"]));
}

#[test]
fn empty_pattern_list_selects_nothing() {
    let pats: Vec<String> = Vec::new();
    let matcher = file_matcher(Some(&pats)).unwrap();
    assert!(!matcher.selects_all());
    assert_eq!(select_files(&strings(&["a", "b"]), &matcher), Vec::<String>::new());
}

#[test]
fn invalid_glob_is_an_error() {
    let pats = strings(&["*.rs", "[unclosed"]);
    assert!(file_matcher(Some(&pats)).is_err());
}

#[test]
fn walk_skips_only_git_dir() {
    assert!(skips_entry(".git"));
    assert!(!skips_entry(".github"));
    assert!(!skips_entry("git"));
}

#[test]
fn empty_vars_are_blank_values() {
    let mut values = ParamMap::new();
    values.insert("a".to_string(), "x".to_string());
    values.insert("b".to_string(), "  ".to_string());
    values.insert("c".to_string(), String::new());
    values.insert("a".to_string(), "\t".to_string());
    let mut e = empty_vars(&values);
    e.sort();
    assert_eq!(e, strings(&["a", "b", "c"]));
}

#[test]
fn unresolved_reports_lines_of_empty_vars() {
    let content = "name = {{ name }}\nversion = {{ version }}\r\n\n{{ name }} {{ other }}\n";
    let empty = strings(&["name"]);
    let found = unresolved_in("Cargo.toml", content, &empty);
    let got: Vec<(String, usize, String)> = found.into_iter().map(|u| (u.file, u.line, u.expr)).collect();
    assert_eq!(
        got,
        vec![
            ("Cargo.toml".to_string(), 1, "{{ name }}".to_string()),
            ("Cargo.toml".to_string(), 4, "{{ name }}".to_string()),
        ]
    );
}

#[test]
fn unresolved_none_without_empty_vars() {
    assert!(unresolved_in("f", "{{ a }}", &Vec::new()).is_empty());
}

#[test]
fn render_substitutes_values() {
    let mut values = ParamMap::new();
    values.insert("name".to_string(), "demo".to_string());
    // minijinja drops a single trailing newline by default.
    let out = render_template("README.md", "# {{ name }}\n", &values).unwrap();
    assert_eq!(out, "# demo");
}

#[test]
fn render_leaves_undefined_empty() {
    let values = ParamMap::new();
    let out = render_template("f.txt", "a{{ missing }}b", &values).unwrap();
    assert_eq!(out, "ab");
}

#[test]
fn render_error_names_file() {
    let values = ParamMap::new();
    let err = render_template("bad.txt", "{% if %}", &values).unwrap_err();
    assert!(err.starts_with("bad.txt: "));
    assert!(err.len() > "bad.txt: ".len());
}

#[test]
fn collect_with_patterns_filters_all_files() {
    let candidates = strings(&["z.md", "b/x.rs", "a.md", ".gittemplate", "b/y.md"]);
    let all = select_files(&candidates, &file_matcher(None).unwrap());
    let pats = strings(&["*.md"]);
    let some = select_files(&candidates, &file_matcher(Some(&pats)).unwrap());
    let expected: Vec<String> = all
        .iter()
        .filter(|f| pats.iter().any(|p| globset::Glob::new(p).unwrap().compile_matcher().is_match(f.as_str())))
        .cloned()
        .collect();
    assert_eq!(some, expected);
    assert_eq!(some, strings(&["a.md", "b/y.md", "z.md"]));
}

#[test]
fn unresolved_line_numbers_with_trailing_newline() {
    let found = unresolved_in("f", "x\n{{ a }}\n", &strings(&["a"]));
    assert_eq!(found.len(), 1);
    assert_eq!(found[0].line, 2);
}

#[test]
fn extract_over_concatenation() {
    let a = "x {{ a }}\n";
    let b = "{{ b }} {{ a }}";
    let mut both = extract_var_names(a);
    both.extend(extract_var_names(b));
    assert_eq!(extract_var_names(&format!("{}{}", a, b)), both);
}

#[test]
fn scan_more_texts_extends_result() {
    let t1 = strings(&["{{ b }} {{ a }}"]);
    let t2 = strings(&["{{ c }} {{ a }}"]);
    let r1 = unique_var_names(&t1);
    let mut all = t1.clone();
    all.extend(t2.clone());
    let r = unique_var_names(&all);
    assert_eq!(&r[..r1.len()], &r1[..]);
    assert_eq!(r, strings(&["b", "a", "c"]));
    let mut twice = t1.clone();
    twice.extend(t1.clone());
    assert_eq!(unique_var_names(&twice), r1);
}

#[test]
fn unresolved_across_files_in_order() {
    let files = vec![
        ("a.txt".to_string(), "{{ x }}\n{{ y }}".to_string()),
        ("b.txt".to_string(), "{{ y }}".to_string()),
    ];
    let found = unresolved_in_files(&files, &strings(&["y"]));
    let got: Vec<(String, usize, String)> = found.into_iter().map(|u| (u.file, u.line, u.expr)).collect();
    assert_eq!(
        got,
        vec![
            ("a.txt".to_string(), 2, "{{ y }}".to_string()),
            ("b.txt".to_string(), 1, "{{ y }}".to_string()),
        ]
    );
}
