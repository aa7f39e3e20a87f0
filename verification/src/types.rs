use vstd::prelude::*;

verus! {

/// Catalog-file extension selected by the generation tool.
pub enum LanguageExt {
    Egl,
    Ftl,
}

impl LanguageExt {
    /// The file extension written for this selector.
    pub fn extension_text(&self) -> (r: &'static str)
        ensures
            self is Egl ==> r@ == "egl"@,
            self is Ftl ==> r@ == "ftl"@,
    {
        match self {
            LanguageExt::Egl => "egl",
            LanguageExt::Ftl => "ftl",
        }
    }
}

/// Options of the generation entry point.
pub struct GenerateOpts {
    pub source_path: String,
    pub output_path: Option<String>,
    pub extensions: Vec<String>,
    pub languages: Vec<String>,
    pub default_language: Option<String>,
    pub ext: Option<LanguageExt>,
}

/// Subcommands of the command-line tool.
pub enum Command {
    Generate { opts: GenerateOpts },
}

/// Top-level command-line options.
pub struct Opt {
    pub cmd: Command,
}

} // verus!
