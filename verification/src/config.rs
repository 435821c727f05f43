//! The contents of a `.gittemplate` configuration file.

use vstd::prelude::*;

verus! {

/// Top-level structure of a `.gittemplate` file.
pub struct TemplateConfig {
    /// The `[template]` section.
    pub template: TemplateSection,
}

/// Contents of the `[template]` section.
pub struct TemplateSection {
    /// Glob patterns selecting which files are rendered as templates.
    /// When absent, all files are rendered.
    pub files: Option<Vec<String>>,
    /// Variable declarations, each corresponding to a `[[var]]` entry.
    pub vars: Vec<TemplateVar>,
}

/// A single template variable declaration.
#[derive(Clone)]
pub struct TemplateVar {
    /// Variable name as it appears in `{{ name }}` expressions.
    pub name: String,
    /// Human-readable description shown in the editor prompt.
    pub description: String,
    /// Optional default value pre-filled in the editor.
    pub default: String,
}

} // verus!
