use vstd::prelude::*;
use vstd::string::*;

use crate::extract::{scan_tokens, Tok, TranslationVisitor};

verus! {

// ---------------------------------------------------------------------------
// The trusted boundary to the source lexer. Everything below `verus!`
// believes only what these contracts state; the scanning logic itself is
// verified in `extract`.
// ---------------------------------------------------------------------------

/// Declares proc_macro2::TokenTree, the lexer's token type, so that the
/// conversion below may take it; its values stay opaque here.
#[verifier::external_type_specification]
#[verifier::external_body]
pub struct ExTokenTree(proc_macro2::TokenTree);

/// Whether a text parses as a source file; a function of the text alone.
pub uninterp spec fn parses_as_source(s: Seq<char>) -> bool;

/// The token tree a text lexes to, as `Tok` values; a function of the text
/// alone. `None` when the text does not lex.
pub uninterp spec fn lexed_tokens(s: Seq<char>) -> Option<Seq<Tok>>;

/// Relies on syn::parse_file: whether the text is a syntactically valid
/// source file. The result depends on the text alone.
#[verifier::external_body]
fn parses_as_rust(content: &str) -> (r: bool)
    ensures
        r == parses_as_source(content@),
{
    syn::parse_file(content).is_ok()
}

/// Relies on str::parse::<proc_macro2::TokenStream>: lexes the text into a
/// token tree. The result depends on the text alone.
#[verifier::external_body]
fn lex_source(content: &str) -> (r: Option<Vec<Tok>>)
    ensures
        match r {
            Some(v) => lexed_tokens(content@) == Some(v@),
            None => lexed_tokens(content@) is None,
        },
{
    match content.parse::<proc_macro2::TokenStream>() {
        Ok(ts) => Some(ts.into_iter().map(tree_to_token).collect()),
        Err(_) => None,
    }
}

/// Relies on proc_macro2::TokenTree (Ident::to_string, Punct::as_char,
/// Group::stream) and on syn::parse_str::<syn::Lit> to classify string
/// literals, converting each token tree into a `Tok`.
#[verifier::external_body]
fn tree_to_token(tree: proc_macro2::TokenTree) -> (r: Tok)
{
    match tree {
        proc_macro2::TokenTree::Ident(i) => Tok::Ident(i.to_string()),
        proc_macro2::TokenTree::Punct(p) => Tok::Punct(p.as_char()),
        proc_macro2::TokenTree::Literal(l) => Tok::Literal(
            match syn::parse_str::<syn::Lit>(&l.to_string()) {
                Ok(syn::Lit::Str(s)) => Some(s.value()),
                _ => None,
            },
        ),
        proc_macro2::TokenTree::Group(g) => Tok::Group(
            g.stream().into_iter().map(tree_to_token).collect(),
        ),
    }
}

/// Scan one source file's text for translation keys. `None` when the text
/// is not a valid source file (a fatal condition for an extraction run);
/// otherwise the keys of every recognized call site, in file order.
pub fn scan_source_text(content: &str) -> (r: Option<Vec<String>>)
    ensures
        match r {
            Some(keys) => parses_as_source(content@) && lexed_tokens(content@) is Some
                && keys@.map_values(|s: String| s@) == scan_tokens(lexed_tokens(content@)->0),
            None => !(parses_as_source(content@) && lexed_tokens(content@) is Some),
        },
{
    if !parses_as_rust(content) {
        return None;
    }
    match lex_source(content) {
        Some(toks) => {
            let mut visitor = TranslationVisitor::new();
            visitor.visit_tokens(&toks);
            Some(visitor.translations)
        },
        None => None,
    }
}

} // verus!
