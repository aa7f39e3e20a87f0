use vstd::prelude::*;
use vstd::string::*;

use crate::catalog::{entries_map, Catalog};
use crate::codec::{parse_text, parse_translations, serialize_entries, serialize_spec};
use crate::format::{format_template, subst_spec};

verus! {

/// Mapping described by a sequence of loaded catalogs; a later load of the
/// same language wins.
pub open spec fn cat_map(s: Seq<(String, Catalog)>) -> Map<Seq<char>, Map<Seq<char>, Seq<char>>>
    decreases s.len(),
{
    if s.len() == 0 {
        Map::<Seq<char>, Map<Seq<char>, Seq<char>>>::empty()
    } else {
        cat_map(s.drop_last()).insert(s.last().0@, s.last().1@)
    }
}

pub proof fn lemma_cat_map_domain(s: Seq<(String, Catalog)>, k: Seq<char>)
    ensures
        cat_map(s).contains_key(k) <==> exists|i: int| 0 <= i < s.len() && s[i].0@ == k,
    decreases s.len(),
{
    if s.len() == 0 {
    } else {
        lemma_cat_map_domain(s.drop_last(), k);
        if cat_map(s).contains_key(k) {
            if s.last().0@ != k {
                let i = choose|i: int| 0 <= i < s.drop_last().len() && s.drop_last()[i].0@ == k;
                assert(s[i].0@ == k);
            }
        }
        if exists|i: int| 0 <= i < s.len() && s[i].0@ == k {
            let i = choose|i: int| 0 <= i < s.len() && s[i].0@ == k;
            if i < s.len() - 1 {
                assert(s.drop_last()[i].0@ == k);
            }
        }
    }
}

pub proof fn lemma_cat_map_at(s: Seq<(String, Catalog)>, i: int)
    requires
        0 <= i < s.len(),
        forall|p: int, q: int| 0 <= p < q < s.len() ==> s[p].0@ != s[q].0@,
    ensures
        cat_map(s).contains_key(s[i].0@),
        cat_map(s)[s[i].0@] == s[i].1@,
    decreases s.len(),
{
    if i == s.len() - 1 {
    } else {
        assert(s[i].0@ != s.last().0@);
        lemma_cat_map_at(s.drop_last(), i);
    }
}

pub proof fn lemma_cat_map_update(s: Seq<(String, Catalog)>, i: int, cat: Catalog)
    requires
        0 <= i < s.len(),
        forall|p: int, q: int| 0 <= p < q < s.len() ==> s[p].0@ != s[q].0@,
    ensures
        cat_map(s.update(i, (s[i].0, cat))) == cat_map(s).insert(s[i].0@, cat@),
    decreases s.len(),
{
    let t = s.update(i, (s[i].0, cat));
    if i == s.len() - 1 {
        assert(t.drop_last() =~= s.drop_last());
        assert(cat_map(t) == cat_map(s.drop_last()).insert(s[i].0@, cat@));
        assert(cat_map(s).insert(s[i].0@, cat@) =~= cat_map(s.drop_last()).insert(s[i].0@, cat@));
    } else {
        assert(t.drop_last() =~= s.drop_last().update(i, (s[i].0, cat)));
        lemma_cat_map_update(s.drop_last(), i, cat);
        assert(cat_map(t) == cat_map(s.drop_last()).insert(s[i].0@, cat@).insert(
            s.last().0@,
            s.last().1@,
        ));
        assert(s[i].0@ != s.last().0@);
        assert(cat_map(s.drop_last()).insert(s[i].0@, cat@).insert(s.last().0@, s.last().1@)
            =~= cat_map(s.drop_last()).insert(s.last().0@, s.last().1@).insert(s[i].0@, cat@));
    }
}

/// Look up `key` in the catalog of `lang` and substitute the arguments; the
/// empty string when the language is not loaded, the key is absent, or its
/// template is empty.
pub open spec fn lookup_spec(
    cats: Map<Seq<char>, Map<Seq<char>, Seq<char>>>,
    lang: Seq<char>,
    key: Seq<char>,
    args: Map<Seq<char>, Seq<char>>,
) -> Seq<char> {
    if cats.contains_key(lang) && cats[lang].contains_key(key) && cats[lang][key].len() > 0 {
        subst_spec(cats[lang][key], args)
    } else {
        Seq::<char>::empty()
    }
}

/// Two-tier resolution: empty language falls back to the fallback language;
/// an empty primary result is retried against the fallback language.
pub open spec fn translate_spec(
    cats: Map<Seq<char>, Map<Seq<char>, Seq<char>>>,
    lang: Seq<char>,
    fallback: Seq<char>,
    key: Seq<char>,
    args: Map<Seq<char>, Seq<char>>,
) -> Seq<char> {
    if lang.len() == 0 && fallback.len() == 0 {
        Seq::<char>::empty()
    } else {
        let eff = if lang.len() == 0 {
            fallback
        } else {
            lang
        };
        let first = lookup_spec(cats, eff, key, args);
        if first.len() > 0 {
            first
        } else {
            lookup_spec(cats, fallback, key, args)
        }
    }
}

/// The catalog set and the current/fallback language slots, held as an
/// explicit context.
pub struct Translations {
    catalogs: Vec<(String, Catalog)>,
    language: String,
    fallback: String,
}

impl Translations {
    /// The loaded catalogs: language -> (key -> template).
    pub closed spec fn catalogs(&self) -> Map<Seq<char>, Map<Seq<char>, Seq<char>>> {
        cat_map(self.catalogs@)
    }

    /// Loaded language identifiers, in load order.
    pub closed spec fn languages_seq(&self) -> Seq<Seq<char>> {
        self.catalogs@.map_values(|e: (String, Catalog)| e.0@)
    }

    /// The current language slot.
    pub closed spec fn current(&self) -> Seq<char> {
        self.language@
    }

    /// The fallback language slot.
    pub closed spec fn fallback_lang(&self) -> Seq<char> {
        self.fallback@
    }

    /// Languages are unique and every catalog is well formed.
    pub closed spec fn wf(&self) -> bool {
        &&& forall|p: int, q: int|
            0 <= p < q < self.catalogs@.len() ==> self.catalogs@[p].0@ != self.catalogs@[q].0@
        &&& forall|i: int| 0 <= i < self.catalogs@.len() ==> (#[trigger] self.catalogs@[i].1).wf()
    }

    /// The listed languages are exactly the loaded ones.
    pub proof fn lemma_languages_in_view(&self)
        ensures
            forall|k: Seq<char>|
                self.languages_seq().contains(k) <==> self.catalogs().contains_key(k),
    {
        assert forall|k: Seq<char>|
            self.languages_seq().contains(k) <==> self.catalogs().contains_key(k) by {
            lemma_cat_map_domain(self.catalogs@, k);
            if self.languages_seq().contains(k) {
                let i = choose|i: int|
                    0 <= i < self.languages_seq().len() && self.languages_seq()[i] == k;
                assert(self.catalogs@[i].0@ == k);
            }
            if exists|i: int| 0 <= i < self.catalogs@.len() && self.catalogs@[i].0@ == k {
                let i = choose|i: int| 0 <= i < self.catalogs@.len() && self.catalogs@[i].0@ == k;
                assert(self.languages_seq()[i] == k);
            }
        }
    }

    /// A well-formed context lists each loaded language once.
    pub proof fn lemma_languages_unique(&self)
        requires
            self.wf(),
        ensures
            forall|p: int, q: int|
                0 <= p < q < self.languages_seq().len() ==> self.languages_seq()[p]
                    != self.languages_seq()[q],
    {
        assert forall|p: int, q: int|
            0 <= p < q < self.languages_seq().len() implies self.languages_seq()[p]
            != self.languages_seq()[q] by {
            assert(self.languages_seq()[p] == self.catalogs@[p].0@);
            assert(self.languages_seq()[q] == self.catalogs@[q].0@);
        }
    }

    /// A fresh context: no catalogs, both language slots empty.
    pub fn new() -> (r: Translations)
        ensures
            r.wf(),
            r.catalogs() == Map::<Seq<char>, Map<Seq<char>, Seq<char>>>::empty(),
            r.languages_seq() == Seq::<Seq<char>>::empty(),
            r.current() == Seq::<char>::empty(),
            r.fallback_lang() == Seq::<char>::empty(),
    {
        let r = Translations { catalogs: Vec::new(), language: String::new(), fallback: String::new() };
        proof {
            assert(r.languages_seq() =~= Seq::<Seq<char>>::empty());
        }
        r
    }

    /// Set the current language.
    pub fn set_language(&mut self, locale: &str)
        ensures
            final(self).current() == locale@,
            final(self).fallback_lang() == old(self).fallback_lang(),
            final(self).catalogs() == old(self).catalogs(),
            final(self).languages_seq() == old(self).languages_seq(),
            final(self).wf() == old(self).wf(),
    {
        self.language = locale.to_owned();
    }

    /// Read the current language.
    pub fn get_language(&self) -> (r: String)
        ensures
            r@ == self.current(),
    {
        self.language.clone()
    }

    /// Set the fallback language.
    pub fn set_fallback(&mut self, locale: &str)
        ensures
            final(self).fallback_lang() == locale@,
            final(self).current() == old(self).current(),
            final(self).catalogs() == old(self).catalogs(),
            final(self).languages_seq() == old(self).languages_seq(),
            final(self).wf() == old(self).wf(),
    {
        self.fallback = locale.to_owned();
    }

    /// Read the fallback language.
    pub fn get_fallback(&self) -> (r: String)
        ensures
            r@ == self.fallback_lang(),
    {
        self.fallback.clone()
    }

    /// The loaded language identifiers, in load order.
    pub fn languages(&self) -> (r: Vec<String>)
        ensures
            r@.map_values(|s: String| s@) == self.languages_seq(),
    {
        let mut out: Vec<String> = Vec::new();
        let mut i: usize = 0;
        while i < self.catalogs.len()
            invariant
                0 <= i <= self.catalogs@.len(),
                out@.len() == i,
                out@.map_values(|s: String| s@) =~= self.languages_seq().subrange(0, i as int),
            decreases self.catalogs@.len() - i,
        {
            let ghost ob = out@;
            out.push(self.catalogs[i].0.clone());
            proof {
                crate::text::lemma_views_push(ob, out@.last());
                assert(out@.map_values(|s: String| s@) =~= self.languages_seq().subrange(
                    0,
                    i as int + 1,
                ));
            }
            i += 1;
        }
        proof {
            assert(self.languages_seq().subrange(0, self.catalogs@.len() as int)
                =~= self.languages_seq());
        }
        out
    }

    /// Replace (not merge) the catalog stored for `language`.
    fn store_catalog(&mut self, language: &str, cat: Catalog)
        requires
            old(self).wf(),
            cat.wf(),
        ensures
            final(self).wf(),
            final(self).catalogs() == old(self).catalogs().insert(language@, cat@),
            final(self).current() == old(self).current(),
            final(self).fallback_lang() == old(self).fallback_lang(),
            old(self).catalogs().contains_key(language@) ==> final(self).languages_seq() == old(
                self,
            ).languages_seq(),
            !old(self).catalogs().contains_key(language@) ==> final(self).languages_seq() == old(
                self,
            ).languages_seq().push(language@),
    {
        proof {
            lemma_cat_map_domain(self.catalogs@, language@);
        }
        let owned = language.to_owned();
        let mut i: usize = 0;
        while i < self.catalogs.len()
            invariant
                0 <= i <= self.catalogs@.len(),
                owned@ == language@,
                cat.wf(),
                old(self).wf(),
                forall|j: int| 0 <= j < i ==> self.catalogs@[j].0@ != language@,
                self.catalogs@ == old(self).catalogs@,
                self.language == old(self).language,
                self.fallback == old(self).fallback,
            decreases self.catalogs@.len() - i,
        {
            if self.catalogs[i].0 == owned {
                let entry = self.catalogs.remove(i);
                self.catalogs.insert(i, (entry.0, cat));
                proof {
                    let old_s = old(self).catalogs@;
                    lemma_cat_map_domain(old_s, language@);
                    assert(old_s[i as int].0@ == language@);
                    assert(self.catalogs@ =~= old_s.update(i as int, (old_s[i as int].0, cat)));
                    lemma_cat_map_update(old_s, i as int, cat);
                    assert(self.languages_seq() =~= old(self).languages_seq());
                    assert forall|r: int|
                        0 <= r < self.catalogs@.len() implies (
                    #[trigger] self.catalogs@[r].1).wf() by {
                        if r != i {
                            assert(self.catalogs@[r] == old_s[r]);
                        }
                    }
                }
                return ;
            }
            i += 1;
        }
        self.catalogs.push((owned, cat));
        proof {
            assert(self.catalogs@.drop_last() =~= old(self).catalogs@);
            assert(self.languages_seq() =~= old(self).languages_seq().push(language@));
            assert forall|r: int|
                0 <= r < self.catalogs@.len() implies (#[trigger] self.catalogs@[r].1).wf() by {
                if r < self.catalogs@.len() - 1 {
                    assert(self.catalogs@[r] == old(self).catalogs@[r]);
                }
            }
        }
    }

    /// Parse `content` and load it as the catalog of `language`, replacing
    /// any previous one. Empty-valued entries are dropped.
    pub fn load_translations_from_text(&mut self, language: &str, content: &str) -> (r: Result<
        (),
        String,
    >)
        requires
            old(self).wf(),
        ensures
            final(self).wf(),
            r is Ok,
            final(self).catalogs() == old(self).catalogs().insert(
                language@,
                parse_text(content@, true),
            ),
            final(self).current() == old(self).current(),
            final(self).fallback_lang() == old(self).fallback_lang(),
            old(self).catalogs().contains_key(language@) ==> final(self).languages_seq() == old(
                self,
            ).languages_seq(),
            !old(self).catalogs().contains_key(language@) ==> final(self).languages_seq() == old(
                self,
            ).languages_seq().push(language@),
    {
        let cat = parse_translations(content, true);
        self.store_catalog(language, cat);
        Ok(())
    }

    /// Serialize the entries as catalog lines and load them, as
    /// `load_translations_from_text` does.
    pub fn load_translations_from_map(&mut self, language: &str, translations: &Vec<
        (String, String),
    >) -> (r: Result<(), String>)
        requires
            old(self).wf(),
        ensures
            final(self).wf(),
            r is Ok,
            final(self).catalogs() == old(self).catalogs().insert(
                language@,
                parse_text(
                    serialize_spec(
                        translations@.map_values(|e: (String, String)| (e.0@, e.1@)),
                    ),
                    true,
                ),
            ),
            final(self).current() == old(self).current(),
            final(self).fallback_lang() == old(self).fallback_lang(),
            old(self).catalogs().contains_key(language@) ==> final(self).languages_seq() == old(
                self,
            ).languages_seq(),
            !old(self).catalogs().contains_key(language@) ==> final(self).languages_seq() == old(
                self,
            ).languages_seq().push(language@),
    {
        let content = serialize_entries(translations);
        self.load_translations_from_text(language, content.as_str())
    }

    /// One lookup tier: the formatted template of `key` in `language`, or
    /// the empty string.
    fn extract_translate(&self, language: &str, key: &str, args: &Vec<(String, String)>) -> (r:
        String)
        requires
            self.wf(),
        ensures
            r@ == lookup_spec(self.catalogs(), language@, key@, entries_map(args@)),
    {
        proof {
            lemma_cat_map_domain(self.catalogs@, language@);
        }
        let owned = language.to_owned();
        let mut i: usize = 0;
        while i < self.catalogs.len()
            invariant
                self.wf(),
                0 <= i <= self.catalogs@.len(),
                owned@ == language@,
                forall|j: int| 0 <= j < i ==> self.catalogs@[j].0@ != language@,
            decreases self.catalogs@.len() - i,
        {
            if self.catalogs[i].0 == owned {
                proof {
                    lemma_cat_map_at(self.catalogs@, i as int);
                }
                let cat = &self.catalogs[i].1;
                match cat.get(key) {
                    Some(template) => {
                        if template.as_str().unicode_len() > 0 {
                            return format_template(template.as_str(), args);
                        } else {
                            return String::new();
                        }
                    },
                    None => {
                        return String::new();
                    },
                }
            }
            i += 1;
        }
        String::new()
    }

    /// Resolve `key` with explicit current and fallback languages.
    pub fn translate(
        &self,
        language: &str,
        fallback_language: &str,
        key: &str,
        args: &Vec<(String, String)>,
    ) -> (r: String)
        requires
            self.wf(),
        ensures
            r@ == translate_spec(
                self.catalogs(),
                language@,
                fallback_language@,
                key@,
                entries_map(args@),
            ),
    {
        if language.unicode_len() == 0 && fallback_language.unicode_len() == 0 {
            return String::new();
        }
        let effective = if language.unicode_len() == 0 {
            fallback_language
        } else {
            language
        };
        let translated = self.extract_translate(effective, key, args);
        if translated.as_str().unicode_len() == 0 {
            return self.extract_translate(fallback_language, key, args);
        }
        translated
    }

    /// Resolve `key` with the stored current and fallback languages.
    pub fn translate_classic(&self, key: &str, args: &Vec<(String, String)>) -> (r: String)
        requires
            self.wf(),
        ensures
            r@ == translate_spec(
                self.catalogs(),
                self.current(),
                self.fallback_lang(),
                key@,
                entries_map(args@),
            ),
    {
        let language = self.get_language();
        let fallback = self.get_fallback();
        self.translate(language.as_str(), fallback.as_str(), key, args)
    }
}

} // verus!
