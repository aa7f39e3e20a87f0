use vstd::prelude::*;
use vstd::string::*;

use crate::catalog::entries_map;
use crate::text::{find_char, has_char, lemma_find_char, str_find_char};

verus! {

// ---------------------------------------------------------------------------
// Placeholder substitution: every `{name}` whose name is bound in the
// arguments is replaced by the bound value; an unbound placeholder is left
// literal. The scan is left to right and substituted values are not
// rescanned.
// ---------------------------------------------------------------------------

pub open spec fn subst_spec(t: Seq<char>, args: Map<Seq<char>, Seq<char>>) -> Seq<char>
    decreases t.len(),
{
    if t.len() == 0 {
        t
    } else if t[0] == '{' {
        let rest = t.subrange(1, t.len() as int);
        let j = find_char(rest, '}');
        if 0 <= j < rest.len() && args.contains_key(rest.subrange(0, j)) {
            args[rest.subrange(0, j)] + subst_spec(rest.subrange(j + 1, rest.len() as int), args)
        } else {
            seq![t[0]] + subst_spec(rest, args)
        }
    } else {
        seq![t[0]] + subst_spec(t.subrange(1, t.len() as int), args)
    }
}

/// The value bound to the last entry carrying `name`, if any.
fn lookup_arg<'a>(args: &'a Vec<(String, String)>, name: &str) -> (r: Option<&'a String>)
    ensures
        match r {
            Some(v) => entries_map(args@).contains_key(name@) && v@ == entries_map(args@)[name@],
            None => !entries_map(args@).contains_key(name@),
        },
{
    let owned = name.to_owned();
    let mut i: usize = args.len();
    while i > 0
        invariant
            0 <= i <= args@.len(),
            owned@ == name@,
            forall|j: int| i <= j < args@.len() ==> args@[j].0@ != name@,
        decreases i,
    {
        i -= 1;
        if args[i].0 == owned {
            proof {
                lemma_entries_map_last(args@, i as int);
            }
            return Some(&args[i].1);
        }
    }
    proof {
        crate::catalog::lemma_entries_map_domain(args@, name@);
    }
    None
}

/// The mapping keeps the value of the last entry holding a key.
proof fn lemma_entries_map_last(s: Seq<(String, String)>, i: int)
    requires
        0 <= i < s.len(),
        forall|j: int| i < j < s.len() ==> s[j].0@ != s[i].0@,
    ensures
        entries_map(s).contains_key(s[i].0@),
        entries_map(s)[s[i].0@] == s[i].1@,
    decreases s.len(),
{
    if i == s.len() - 1 {
    } else {
        lemma_entries_map_last(s.drop_last(), i);
        assert(s.last().0@ != s[i].0@);
    }
}

/// Substitute `{name}` placeholders in `template` from `args`.
pub fn format_template(template: &str, args: &Vec<(String, String)>) -> (r: String)
    ensures
        r@ == subst_spec(template@, entries_map(args@)),
{
    let ghost amap = entries_map(args@);
    let n = template.unicode_len();
    let mut out = String::new();
    let mut i: usize = 0;
    proof {
        assert(template@.subrange(0, n as int) =~= template@);
        assert(out@ + subst_spec(template@, amap) =~= subst_spec(template@, amap));
    }
    while i < n
        invariant
            n == template@.len(),
            0 <= i <= n,
            out@ + subst_spec(template@.subrange(i as int, n as int), amap) == subst_spec(
                template@,
                amap,
            ),
            amap == entries_map(args@),
        decreases n - i,
    {
        let ghost rem = template@.subrange(i as int, n as int);
        proof {
            assert(rem[0] == template@[i as int]);
            assert(rem.subrange(1, rem.len() as int) =~= template@.subrange(
                i as int + 1,
                n as int,
            ));
        }
        let ch = template.get_char(i);
        let mut plain = true;
        if ch == '{' {
            let rest = template.substring_char(i + 1, n);
            let j = str_find_char(rest, '}');
            proof {
                lemma_find_char(rest@, '}');
            }
            if j < rest.unicode_len() {
                let name = rest.substring_char(0, j);
                match lookup_arg(args, name) {
                    Some(v) => {
                        out.append(v.as_str());
                        proof {
                            let restv = rem.subrange(1, rem.len() as int);
                            assert(name@ == restv.subrange(0, j as int));
                            assert(restv.subrange(j as int + 1, restv.len() as int)
                                =~= template@.subrange(i as int + j + 2, n as int));
                            assert(subst_spec(rem, amap) == amap[name@] + subst_spec(
                                template@.subrange(i as int + j + 2, n as int),
                                amap,
                            ));
                        }
                        i = i + j + 2;
                        plain = false;
                    },
                    None => {
                    },
                }
            }
        }
        if plain {
            out.append(template.substring_char(i, i + 1));
            proof {
                assert(template@.subrange(i as int, i as int + 1) =~= seq![rem[0]]);
                assert(subst_spec(rem, amap) == seq![rem[0]] + subst_spec(
                    template@.subrange(i as int + 1, n as int),
                    amap,
                ));
            }
            i += 1;
        }
    }
    proof {
        assert(template@.subrange(i as int, n as int) =~= Seq::<char>::empty());
        assert(template@.subrange(0, n as int) =~= template@);
        assert(subst_spec(Seq::<char>::empty(), amap) == Seq::<char>::empty());
        assert(out@ + Seq::<char>::empty() =~= out@);
    }
    out
}

} // verus!
