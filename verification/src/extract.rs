use vstd::prelude::*;
use vstd::string::*;

verus! {

// ---------------------------------------------------------------------------
// Key extraction: scan the token tree of a source file for invocations of
// the translation macro and record the first string-literal argument of
// each. A macro invocation is a path (`ident`, or segments joined by `::`)
// followed by `!` and a delimited group; the scan recurses into every
// group, so call sites nested in closures, blocks or other macros are
// found.
// ---------------------------------------------------------------------------

/// One token of a source file: an identifier, punctuation, a literal (with
/// its text value when it is a string literal), or a delimited group.
pub enum Tok {
    Ident(String),
    Punct(char),
    Literal(Option<String>),
    Group(Vec<Tok>),
}

/// Size of one token, groups counted with their contents.
pub open spec fn tok_size(t: Tok) -> nat
    decreases t,
{
    match t {
        Tok::Group(inner) => 1 + toks_size(inner@),
        _ => 1,
    }
}

/// Size of a token list, groups counted with their contents.
pub open spec fn toks_size(toks: Seq<Tok>) -> nat
    decreases toks,
{
    if toks.len() == 0 {
        0
    } else {
        tok_size(toks[0]) + toks_size(toks.subrange(1, toks.len() as int))
    }
}

pub proof fn lemma_tok_size_pos(t: Tok)
    ensures
        tok_size(t) >= 1,
{
}

pub proof fn lemma_toks_size_subrange(toks: Seq<Tok>, k: int)
    requires
        0 <= k <= toks.len(),
    ensures
        toks_size(toks.subrange(k, toks.len() as int)) + k <= toks_size(toks),
    decreases k,
{
    if k == 0 {
        assert(toks.subrange(0, toks.len() as int) =~= toks);
    } else {
        let rest = toks.subrange(1, toks.len() as int);
        lemma_toks_size_subrange(rest, k - 1);
        assert(rest.subrange(k - 1, rest.len() as int) =~= toks.subrange(k, toks.len() as int));
        lemma_tok_size_pos(toks[0]);
    }
}

pub proof fn lemma_toks_size_elem(toks: Seq<Tok>, i: int)
    requires
        0 <= i < toks.len(),
    ensures
        tok_size(toks[i]) <= toks_size(toks),
    decreases i,
{
    if i == 0 {
    } else {
        let rest = toks.subrange(1, toks.len() as int);
        lemma_toks_size_elem(rest, i - 1);
        assert(rest[i - 1] == toks[i]);
        lemma_tok_size_pos(toks[0]);
    }
}

/// The longest `ident(::ident)*` path at the front of the tokens: its
/// segment names and the number of tokens it spans.
pub open spec fn take_path(toks: Seq<Tok>) -> (Seq<Seq<char>>, int)
    recommends
        toks.len() > 0,
        toks[0] is Ident,
    decreases toks.len(),
{
    if toks.len() >= 4 && toks[1] is Punct && toks[1]->Punct_0 == ':' && toks[2] is Punct
        && toks[2]->Punct_0 == ':' && toks[3] is Ident {
        let r = take_path(toks.subrange(3, toks.len() as int));
        (seq![toks[0]->Ident_0@] + r.0, 3 + r.1)
    } else {
        (seq![toks[0]->Ident_0@], 1)
    }
}

pub proof fn lemma_take_path_bounds(toks: Seq<Tok>)
    requires
        toks.len() > 0,
        toks[0] is Ident,
    ensures
        1 <= take_path(toks).1 <= toks.len(),
        take_path(toks).0.len() >= 1,
    decreases toks.len(),
{
    if toks.len() >= 4 && toks[1] is Punct && toks[1]->Punct_0 == ':' && toks[2] is Punct
        && toks[2]->Punct_0 == ':' && toks[3] is Ident {
        lemma_take_path_bounds(toks.subrange(3, toks.len() as int));
    }
}

/// The value of the first string-literal token, scanning the top level
/// only.
pub open spec fn first_string_lit(toks: Seq<Tok>) -> Option<Seq<char>>
    decreases toks.len(),
{
    if toks.len() == 0 {
        None
    } else {
        match toks[0] {
            Tok::Literal(Some(v)) => Some(v@),
            _ => first_string_lit(toks.subrange(1, toks.len() as int)),
        }
    }
}

/// A path names the translation macro: the bare name `tr`, or exactly a
/// two-segment path whose first segment is `egui` or `egui_i18n` and whose
/// second is `tr`. A longer path invokes something else.
pub open spec fn recognized_path(segments: Seq<Seq<char>>) -> bool {
    if segments.len() == 1 {
        segments[0] == "tr"@
    } else if segments.len() == 2 {
        (segments[0] == "egui"@ || segments[0] == "egui_i18n"@) && segments[1] == "tr"@
    } else {
        false
    }
}

/// All keys extracted from a token list, in order: for every recognized
/// `path!(...)` invocation the first string literal of its argument tokens,
/// recursing into every group.
pub open spec fn scan_tokens(toks: Seq<Tok>) -> Seq<Seq<char>>
    decreases toks_size(toks),
    via scan_tokens_decreases
{
    if toks.len() == 0 {
        Seq::<Seq<char>>::empty()
    } else {
        match toks[0] {
            Tok::Group(inner) => scan_tokens(inner@) + scan_tokens(
                toks.subrange(1, toks.len() as int),
            ),
            Tok::Ident(_) => {
                let p = take_path(toks);
                let nxt = p.1;
                if nxt + 1 < toks.len() && toks[nxt] is Punct && toks[nxt]->Punct_0 == '!'
                    && toks[nxt + 1] is Group {
                    let inner = toks[nxt + 1]->Group_0;
                    let keys = if recognized_path(p.0) {
                        match first_string_lit(inner@) {
                            Some(v) => seq![v],
                            None => Seq::<Seq<char>>::empty(),
                        }
                    } else {
                        Seq::<Seq<char>>::empty()
                    };
                    keys + scan_tokens(inner@) + scan_tokens(
                        toks.subrange(nxt + 2, toks.len() as int),
                    )
                } else {
                    scan_tokens(toks.subrange(nxt, toks.len() as int))
                }
            },
            _ => scan_tokens(toks.subrange(1, toks.len() as int)),
        }
    }
}

#[via_fn]
proof fn scan_tokens_decreases(toks: Seq<Tok>) {
    if toks.len() > 0 {
        match toks[0] {
            Tok::Group(inner) => {
                lemma_toks_size_elem(toks, 0);
                lemma_toks_size_subrange(toks, 1);
                lemma_tok_size_pos(toks[0]);
            },
            Tok::Ident(_) => {
                lemma_take_path_bounds(toks);
                let nxt = take_path(toks).1;
                lemma_toks_size_subrange(toks, nxt);
                if nxt + 1 < toks.len() && toks[nxt] is Punct && toks[nxt]->Punct_0 == '!'
                    && toks[nxt + 1] is Group {
                    lemma_toks_size_elem(toks, nxt + 1);
                    lemma_toks_size_subrange(toks, nxt + 2);
                    lemma_tok_size_pos(toks[nxt + 1]);
                }
            },
            _ => {
                lemma_toks_size_subrange(toks, 1);
            },
        }
    }
}

// ---------------------------------------------------------------------------
// Executable scanner.
// ---------------------------------------------------------------------------

fn is_colon(t: &Tok) -> (r: bool)
    ensures
        r == (t is Punct && t->Punct_0 == ':'),
{
    match t {
        Tok::Punct(c) => *c == ':',
        _ => false,
    }
}

fn is_bang(t: &Tok) -> (r: bool)
    ensures
        r == (t is Punct && t->Punct_0 == '!'),
{
    match t {
        Tok::Punct(c) => *c == '!',
        _ => false,
    }
}

fn is_ident(t: &Tok) -> (r: bool)
    ensures
        r == (t is Ident),
{
    match t {
        Tok::Ident(_) => true,
        _ => false,
    }
}

fn is_group(t: &Tok) -> (r: bool)
    ensures
        r == (t is Group),
{
    match t {
        Tok::Group(_) => true,
        _ => false,
    }
}

/// Read the path starting at `start`: its segment names and the index just
/// past it.
fn read_path(toks: &Vec<Tok>, start: usize) -> (r: (Vec<String>, usize))
    requires
        start < toks@.len(),
        toks@[start as int] is Ident,
    ensures
        ({
            let p = take_path(toks@.subrange(start as int, toks@.len() as int));
            &&& r.0@.map_values(|s: String| s@) == p.0
            &&& r.1 == start + p.1
            &&& start < r.1 <= toks@.len()
        }),
    decreases toks@.len() - start,
{
    let ghost suffix = toks@.subrange(start as int, toks@.len() as int);
    proof {
        lemma_take_path_bounds(suffix);
        assert(suffix[0] == toks@[start as int]);
    }
    let name: String;
    match &toks[start] {
        Tok::Ident(s) => {
            name = s.clone();
        },
        _ => {
            proof {
                assert(false);
            }
            name = String::new();
        },
    }
    if toks.len() - start > 3 && is_colon(&toks[start + 1]) && is_colon(&toks[start + 2])
        && is_ident(&toks[start + 3]) {
        proof {
            assert(suffix.len() >= 4);
            assert(suffix[1] == toks@[start as int + 1]);
            assert(suffix[2] == toks@[start as int + 2]);
            assert(suffix[3] == toks@[start as int + 3]);
            assert(suffix.subrange(3, suffix.len() as int) =~= toks@.subrange(
                start as int + 3,
                toks@.len() as int,
            ));
        }
        let rest = read_path(toks, start + 3);
        let mut segs = rest.0;
        let ghost segs_before = segs@;
        segs.insert(0, name);
        proof {
            let p = take_path(suffix);
            let pr = take_path(suffix.subrange(3, suffix.len() as int));
            assert(segs@ == segs_before.insert(0, segs@[0]));
            assert forall|j: int| 0 <= j < segs@.len() implies segs@.map_values(|s: String| s@)[j]
                == #[trigger] p.0[j] by {
                if j == 0 {
                    assert(segs@[0]@ == suffix[0]->Ident_0@);
                } else {
                    assert(segs@[j] == segs_before[j - 1]);
                    assert(segs_before.map_values(|s: String| s@)[j - 1] == pr.0[j - 1]);
                }
            }
            assert(segs@.map_values(|s: String| s@) =~= p.0);
        }
        (segs, rest.1)
    } else {
        let mut segs: Vec<String> = Vec::new();
        segs.push(name);
        proof {
            let p = take_path(suffix);
            assert(p.1 == 1);
            assert(segs@.map_values(|s: String| s@) =~= p.0);
        }
        (segs, start + 1)
    }
}

/// The value of the first string-literal token, top level only.
pub fn first_string_literal(toks: &Vec<Tok>) -> (r: Option<String>)
    ensures
        match r {
            Some(v) => first_string_lit(toks@) == Some(v@),
            None => first_string_lit(toks@) is None,
        },
{
    let n = toks.len();
    let mut i: usize = 0;
    proof {
        assert(toks@.subrange(0, n as int) =~= toks@);
    }
    while i < n
        invariant
            n == toks@.len(),
            0 <= i <= n,
            first_string_lit(toks@.subrange(i as int, n as int)) == first_string_lit(toks@),
        decreases n - i,
    {
        let ghost suffix = toks@.subrange(i as int, n as int);
        proof {
            assert(suffix[0] == toks@[i as int]);
            assert(suffix.subrange(1, suffix.len() as int) =~= toks@.subrange(
                i as int + 1,
                n as int,
            ));
        }
        match &toks[i] {
            Tok::Literal(Some(v)) => {
                return Some(v.clone());
            },
            _ => {
            },
        }
        i += 1;
    }
    proof {
        assert(toks@.subrange(n as int, n as int) =~= Seq::<Tok>::empty());
    }
    None
}

/// Collects the translation keys found while scanning token trees.
pub struct TranslationVisitor {
    pub translations: Vec<String>,
}

impl TranslationVisitor {
    /// The recorded keys, in scan order.
    pub open spec fn recorded(&self) -> Seq<Seq<char>> {
        self.translations@.map_values(|s: String| s@)
    }

    /// A visitor with no recorded keys.
    pub fn new() -> (r: TranslationVisitor)
        ensures
            r.recorded() == Seq::<Seq<char>>::empty(),
    {
        let r = TranslationVisitor { translations: Vec::new() };
        proof {
            assert(r.recorded() =~= Seq::<Seq<char>>::empty());
        }
        r
    }

    /// Record one key.
    pub fn record_translation(&mut self, key: &str)
        ensures
            final(self).recorded() == old(self).recorded().push(key@),
    {
        let ghost before = self.translations@;
        self.translations.push(key.to_owned());
        proof {
            crate::text::lemma_views_push(before, self.translations@.last());
        }
    }

    /// Whether a path names the translation macro.
    pub fn is_from_egui_i18n(&self, segments: &Vec<String>) -> (r: bool)
        ensures
            r == recognized_path(segments@.map_values(|s: String| s@)),
    {
        let ghost sv = segments@.map_values(|s: String| s@);
        if segments.len() == 0 {
            return false;
        }
        proof {
            assert(sv[0] == segments@[0]@);
        }
        if segments.len() < 2 {
            return segments[0] == "tr".to_owned();
        }
        if segments.len() > 2 {
            return false;
        }
        proof {
            assert(sv[1] == segments@[1]@);
        }
        (segments[0] == "egui".to_owned() || segments[0] == "egui_i18n".to_owned()) && segments[1]
            == "tr".to_owned()
    }

    /// Scan a token list, recording every key of `scan_tokens`, in order.
    pub fn visit_tokens(&mut self, toks: &Vec<Tok>)
        ensures
            final(self).recorded() == old(self).recorded() + scan_tokens(toks@),
        decreases toks_size(toks@),
    {
        let ghost orig = self.translations@.map_values(|s: String| s@);
        let n = toks.len();
        let mut i: usize = 0;
        proof {
            assert(toks@.subrange(0, n as int) =~= toks@);
        }
        while i < n
            invariant
                n == toks@.len(),
                0 <= i <= n,
                self.recorded() + scan_tokens(toks@.subrange(i as int, n as int)) == orig
                    + scan_tokens(toks@),
                toks_size(toks@.subrange(i as int, n as int)) <= toks_size(toks@),
            decreases n - i,
        {
            let ghost suffix = toks@.subrange(i as int, n as int);
            let ghost rec_before = self.recorded();
            proof {
                assert(suffix[0] == toks@[i as int]);
                assert(suffix.subrange(1, suffix.len() as int) =~= toks@.subrange(
                    i as int + 1,
                    n as int,
                ));
                lemma_toks_size_subrange(suffix, 1);
                lemma_toks_size_subrange(toks@, i as int + 1);
            }
            match &toks[i] {
                Tok::Group(inner) => {
                    proof {
                        lemma_toks_size_elem(suffix, 0);
                        assert(tok_size(suffix[0]) == 1 + toks_size(inner@));
                    }
                    self.visit_tokens(inner);
                    proof {
                        assert(scan_tokens(suffix) == scan_tokens(inner@) + scan_tokens(
                            suffix.subrange(1, suffix.len() as int),
                        ));
                        assert(rec_before + (scan_tokens(inner@) + scan_tokens(
                            suffix.subrange(1, suffix.len() as int),
                        )) =~= (rec_before + scan_tokens(inner@)) + scan_tokens(
                            suffix.subrange(1, suffix.len() as int),
                        ));
                    }
                    i += 1;
                },
                Tok::Ident(_) => {
                    let rp = read_path(toks, i);
                    let segs = rp.0;
                    let nxt = rp.1;
                    let ghost p = take_path(suffix);
                    proof {
                        assert(nxt == i + p.1);
                        assert(suffix.subrange(p.1, suffix.len() as int) =~= toks@.subrange(
                            nxt as int,
                            n as int,
                        ));
                    }
                    let matched = n - nxt > 1 && is_bang(&toks[nxt]) && is_group(&toks[nxt + 1]);
                    if matched {
                        proof {
                            assert(suffix[p.1] == toks@[nxt as int]);
                            assert(suffix[p.1 + 1] == toks@[nxt as int + 1]);
                            assert(suffix.subrange(p.1 + 2, suffix.len() as int) =~= toks@
                                .subrange(nxt as int + 2, n as int));
                            lemma_toks_size_subrange(toks@, nxt as int + 2);
                        }
                        let recognized = self.is_from_egui_i18n(&segs);
                        match &toks[nxt + 1] {
                            Tok::Group(inner) => {
                                proof {
                                    lemma_toks_size_elem(suffix, p.1 + 1);
                                    assert(tok_size(suffix[p.1 + 1]) == 1 + toks_size(inner@));
                                }
                                let ghost keys = (if recognized_path(p.0) {
                                    match first_string_lit(inner@) {
                                        Some(v) => seq![v],
                                        None => Seq::<Seq<char>>::empty(),
                                    }
                                } else {
                                    Seq::<Seq<char>>::empty()
                                });
                                if recognized {
                                    match first_string_literal(inner) {
                                        Some(first_arg) => {
                                            self.record_translation(first_arg.as_str());
                                            proof {
                                                assert(self.recorded() =~= rec_before + keys);
                                            }
                                        },
                                        None => {
                                            proof {
                                                assert(self.recorded() =~= rec_before + keys);
                                            }
                                        },
                                    }
                                } else {
                                    proof {
                                        assert(self.recorded() =~= rec_before + keys);
                                    }
                                }
                                let ghost rec_mid = self.recorded();
                                self.visit_tokens(inner);
                                proof {
                                    assert(scan_tokens(suffix) == keys + scan_tokens(inner@)
                                        + scan_tokens(suffix.subrange(p.1 + 2, suffix.len() as int)));
                                    assert(self.recorded() + scan_tokens(
                                        suffix.subrange(p.1 + 2, suffix.len() as int),
                                    ) =~= rec_before + scan_tokens(suffix));
                                }
                            },
                            _ => {
                                proof {
                                    assert(false);
                                }
                            },
                        }
                        i = nxt + 2;
                    } else {
                        proof {
                            assert(scan_tokens(suffix) == scan_tokens(
                                suffix.subrange(p.1, suffix.len() as int),
                            ));
                            lemma_toks_size_subrange(suffix, p.1);
                            lemma_toks_size_subrange(toks@, nxt as int);
                        }
                        i = nxt;
                    }
                },
                _ => {
                    proof {
                        assert(scan_tokens(suffix) == scan_tokens(
                            suffix.subrange(1, suffix.len() as int),
                        ));
                    }
                    i += 1;
                },
            }
        }
        proof {
            assert(toks@.subrange(n as int, n as int) =~= Seq::<Tok>::empty());
            assert(scan_tokens(Seq::<Tok>::empty()) == Seq::<Seq<char>>::empty());
            assert(self.recorded() + Seq::<Seq<char>>::empty() =~= self.recorded());
        }
    }
}

} // verus!
