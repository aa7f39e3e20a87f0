use vstd::prelude::*;
use vstd::string::*;

use crate::text::has_char;
use crate::types::LanguageExt;

verus! {

// ---------------------------------------------------------------------------
// Decisions of the generation pass: which files to scan, which languages
// and extensions to use. The directory walk itself does the file system
// work and lives outside the library.
// ---------------------------------------------------------------------------

/// The lowercase form of a text.
pub uninterp spec fn lower_of(s: Seq<char>) -> Seq<char>;

/// Relies on str::to_lowercase: the result depends on the characters alone.
#[verifier::external_body]
fn lowercase(s: &str) -> (r: String)
    ensures
        r@ == lower_of(s@),
{
    s.to_lowercase()
}

/// The extension allow-list actually used: the configured one, or `rs`
/// alone when none was given.
pub fn effective_extensions(extensions: &Vec<String>) -> (r: Vec<String>)
    ensures
        extensions@.len() > 0 ==> r@ == extensions@,
        extensions@.len() == 0 ==> r@.map_values(|s: String| s@) =~= seq!["rs"@],
{
    if extensions.len() > 0 {
        return extensions.clone();
    }
    let mut r: Vec<String> = Vec::new();
    r.push("rs".to_owned());
    proof {
        assert(r@.map_values(|s: String| s@) =~= seq!["rs"@]);
    }
    r
}

/// The target languages actually used: the configured ones, or `en_US`
/// alone when none was given.
pub fn effective_languages(languages: &Vec<String>) -> (r: Vec<String>)
    ensures
        languages@.len() > 0 ==> r@ == languages@,
        languages@.len() == 0 ==> r@.map_values(|s: String| s@) =~= seq!["en_US"@],
{
    if languages.len() > 0 {
        return languages.clone();
    }
    let mut r: Vec<String> = Vec::new();
    r.push("en_US".to_owned());
    proof {
        assert(r@.map_values(|s: String| s@) =~= seq!["en_US"@]);
    }
    r
}

/// The catalog-file extension for the configured selector; `tgl` when none
/// was given.
pub fn catalog_file_ext(ext: &Option<LanguageExt>) -> (r: &'static str)
    ensures
        ext is None ==> r@ == "tgl"@,
        ext == Some(LanguageExt::Egl) ==> r@ == "egl"@,
        ext == Some(LanguageExt::Ftl) ==> r@ == "ftl"@,
{
    match ext {
        Some(e) => e.extension_text(),
        None => "tgl",
    }
}

/// A path under a build-output directory is skipped.
pub open spec fn has_target_segment(s: Seq<char>) -> bool {
    exists|i: int| 0 <= i && i + 8 <= s.len() && #[trigger] s.subrange(i, i + 8) == "/target/"@
}

/// Whether the path text contains a `/target/` segment.
pub fn path_in_build_output(path_text: &str) -> (r: bool)
    ensures
        r == has_target_segment(path_text@),
{
    let pat = "/target/";
    proof {
        reveal_strlit("/target/");
    }
    let pat_owned = pat.to_owned();
    let n = path_text.unicode_len();
    if n < 8 {
        proof {
            assert forall|i: int| !(0 <= i && i + 8 <= path_text@.len()
                && #[trigger] path_text@.subrange(i, i + 8) == "/target/"@) by {
                assert(path_text@.len() < 8);
            }
        }
        return false;
    }
    let mut i: usize = 0;
    while i <= n - 8
        invariant
            n == path_text@.len(),
            n >= 8,
            0 <= i <= n,
            pat_owned@ == "/target/"@,
            "/target/"@.len() == 8,
            forall|j: int| 0 <= j < i ==> #[trigger] path_text@.subrange(j, j + 8) != "/target/"@,
        decreases n - i,
    {
        let window = path_text.substring_char(i, i + 8).to_owned();
        if window == pat_owned {
            return true;
        }
        i += 1;
    }
    proof {
        assert forall|j: int| 0 <= j && j + 8 <= path_text@.len() implies #[trigger] path_text@
            .subrange(j, j + 8) != "/target/"@ by {
            assert(j < i);
        }
    }
    false
}

/// Whether a file extension is in the allow-list, compared in lowercase.
pub fn extension_allowed(ext: &str, allowed: &Vec<String>) -> (r: bool)
    ensures
        r == (exists|j: int|
            0 <= j < allowed@.len() && lower_of(#[trigger] allowed@[j]@) == lower_of(ext@)),
{
    let ext_lower = lowercase(ext);
    let mut i: usize = 0;
    while i < allowed.len()
        invariant
            0 <= i <= allowed@.len(),
            ext_lower@ == lower_of(ext@),
            forall|j: int| 0 <= j < i ==> lower_of(#[trigger] allowed@[j]@) != lower_of(ext@),
        decreases allowed@.len() - i,
    {
        let candidate = lowercase(allowed[i].as_str());
        if candidate == ext_lower {
            return true;
        }
        i += 1;
    }
    false
}

/// Whether a file extension names a loadable catalog file (`egl` or
/// `ftl`), compared in lowercase.
pub fn is_catalog_extension(ext: &str) -> (r: bool)
    ensures
        r == (lower_of(ext@) == "egl"@ || lower_of(ext@) == "ftl"@),
{
    let lower = lowercase(ext);
    let egl = "egl".to_owned();
    let ftl = "ftl".to_owned();
    lower == egl || lower == ftl
}

/// Whether `language` is the configured default language.
pub fn is_default_language(default_language: &Option<String>, language: &str) -> (r: bool)
    ensures
        r == match default_language {
            Some(d) => d@ == language@,
            None => false,
        },
{
    match default_language {
        Some(d) => {
            let owned = language.to_owned();
            *d == owned
        },
        None => false,
    }
}

} // verus!
