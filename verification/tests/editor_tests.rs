use git_template::editor::{editor_command, parse_params, prompt_text, ParamMap, Var};

fn var(name: &str, description: Option<&str>, default: &str) -> Var {
    Var { name: name.to_string(), description: description.map(|d| d.to_string()), default: default.to_string() }
}

#[test]
fn prompt_text_layout() {
    let vars = vec![var("project", Some("Project name"), "demo"), var("author", None, "")];
    let text = prompt_text(&vars);
    assert_eq!(
        text,
        "# git template init\n# Fill in values below. Lines starting with '#' are ignored.\n# Format:  key: value\n\n# project: Project name\nproject: demo\n\nauthor: \n"
    );
}

#[test]
fn parse_key_values() {
    let m = parse_params("# comment\n\n  name :  My Project  \nauthor: me: you\r\nnot a pair\n");
    assert_eq!(m.get("name"), Some("My Project".to_string()));
    assert_eq!(m.get("author"), Some("me: you".to_string()));
    assert_eq!(m.get("not a pair"), None);
    assert_eq!(m.len(), 2);
}

#[test]
fn parse_later_line_wins() {
    let m = parse_params("a: 1\na: 2\n");
    assert_eq!(m.get("a"), Some("2".to_string()));
    assert_eq!(m.len(), 1);
}

#[test]
fn parse_comment_after_blanks_is_ignored() {
    let m = parse_params("   # x: 1\n\t#y:2");
    assert!(m.is_empty());
}

#[test]
fn parse_empty_key_and_value() {
    let m = parse_params(":\n k:");
    assert_eq!(m.get(""), Some(String::new()));
    assert_eq!(m.get("k"), Some(String::new()));
}

#[test]
fn unedited_prompt_gives_defaults() {
    let vars = vec![
        var("project", Some("Project name"), " demo "),
        var("author", None, ""),
        var("project", None, "again"),
    ];
    let m = parse_params(&prompt_text(&vars));
    assert_eq!(m.len(), 2);
    assert_eq!(m.get("project"), Some("again".to_string()));
    assert_eq!(m.get("author"), Some(String::new()));
}

#[test]
fn param_map_read_after_write() {
    let mut m = ParamMap::new();
    assert!(m.is_empty());
    m.insert("k".to_string(), "v".to_string());
    assert_eq!(m.get("k"), Some("v".to_string()));
    m.insert("k".to_string(), "w".to_string());
    assert_eq!(m.get("k"), Some("w".to_string()));
    assert_eq!(m.pairs().clone(), vec![("k".to_string(), "w".to_string())]);
}

#[test]
fn editor_choice_order() {
    let s = |x: &str| Some(x.to_string());
    assert_eq!(editor_command(s("nano"), s("code"), s("ed")), "nano");
    assert_eq!(editor_command(None, s("code"), s("ed")), "code");
    assert_eq!(editor_command(None, None, s("ed")), "ed");
    assert_eq!(editor_command(None, None, None), "vi");
    assert_eq!(editor_command(s(""), s("code"), None), "");
}
