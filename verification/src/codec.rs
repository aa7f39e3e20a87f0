use vstd::prelude::*;
use vstd::string::*;

use crate::catalog::Catalog;
use crate::text::{
    find_char, has_char, is_trimmed, join_char, join_with, lemma_find_char, lemma_join_split,
    lemma_split_free, lemma_split_join, lemma_split_on_concat, lemma_split_on_len,
    lemma_split_on_segments_free,
    split_on, split_str, str_find_char, str_has_char, trim_end_spec, trim_spec, trim_start_spec,
    trim_str,
};

verus! {

// ---------------------------------------------------------------------------
// The catalog file format, as specification functions.
//
// A catalog file is a sequence of lines. A line containing `=` starts an
// entry `key = value`; a line without `=` continues the pending value. A
// literal `=` inside a key or value is escaped as `\=` on the line holding
// the key, and the parser resolves those segments before choosing the first
// remaining `=` as the separator.
// ---------------------------------------------------------------------------

/// `key` with every `=` written as `\=`.
pub open spec fn escape_eq(s: Seq<char>) -> Seq<char>
    decreases s.len(),
{
    if s.len() == 0 {
        s
    } else if s[0] == '=' {
        seq!['\\', '='] + escape_eq(s.subrange(1, s.len() as int))
    } else {
        seq![s[0]] + escape_eq(s.subrange(1, s.len() as int))
    }
}

/// `s` contains the two-character escape `\=`.
pub open spec fn has_esc(s: Seq<char>) -> bool {
    exists|i: int| 0 <= i && i + 1 < s.len() && #[trigger] s[i] == '\\' && s[i + 1] == '='
}

/// Split `s` on every occurrence of the two-character escape `\=`.
pub open spec fn split_esc(s: Seq<char>) -> Seq<Seq<char>>
    decreases s.len(),
{
    if s.len() < 2 {
        seq![s]
    } else if s[0] == '\\' && s[1] == '=' {
        seq![Seq::<char>::empty()] + split_esc(s.subrange(2, s.len() as int))
    } else {
        let rest = split_esc(s.subrange(1, s.len() as int));
        seq![seq![s[0]] + rest[0]] + rest.subrange(1, rest.len() as int)
    }
}

/// Key parts taken from the `\=`-separated segments: every segment before
/// the first one holding `=` is a key part, and so is the text left of the
/// first `=` of that segment; all parts are trimmed.
pub open spec fn esc_names(items: Seq<Seq<char>>) -> Seq<Seq<char>>
    decreases items.len(),
{
    if items.len() == 0 {
        seq![]
    } else if has_char(items[0], '=') {
        seq![trim_spec(items[0].subrange(0, find_char(items[0], '=')))]
    } else {
        seq![trim_spec(items[0])] + esc_names(items.subrange(1, items.len() as int))
    }
}

/// Value parts taken from the `\=`-separated segments: the text right of
/// the first `=` of the first segment holding one (trimmed), then the
/// remaining segments unchanged.
pub open spec fn esc_values(items: Seq<Seq<char>>) -> Seq<Seq<char>>
    decreases items.len(),
{
    if items.len() == 0 {
        seq![]
    } else if has_char(items[0], '=') {
        seq![trim_spec(items[0].subrange(find_char(items[0], '=') + 1, items[0].len() as int))]
            + items.subrange(1, items.len() as int)
    } else {
        esc_values(items.subrange(1, items.len() as int))
    }
}

/// The key declared by a delimiter-bearing line.
pub open spec fn line_name(line: Seq<char>) -> Seq<char> {
    if has_esc(line) {
        join_with(esc_names(split_esc(line)), '=')
    } else {
        trim_spec(line.subrange(0, find_char(line, '=')))
    }
}

/// The first value line declared by a delimiter-bearing line.
pub open spec fn line_value(line: Seq<char>) -> Seq<char> {
    if has_esc(line) {
        join_with(esc_values(split_esc(line)), '=')
    } else {
        trim_spec(line.subrange(find_char(line, '=') + 1, line.len() as int))
    }
}

/// Close the pending entry: join its value lines, trim, and keep it unless
/// the name is empty, or the value is empty and `clean_empty` asks to drop
/// such entries.
pub open spec fn flush_entry(
    m: Map<Seq<char>, Seq<char>>,
    name: Seq<char>,
    values: Seq<Seq<char>>,
    clean_empty: bool,
) -> Map<Seq<char>, Seq<char>> {
    if name.len() == 0 {
        m
    } else {
        let value = trim_spec(join_with(values, '\n'));
        if value.len() == 0 && clean_empty {
            m
        } else {
            m.insert(name, value)
        }
    }
}

/// Fold of the parser over the remaining lines, carrying the pending entry.
pub open spec fn parse_lines(
    lines: Seq<Seq<char>>,
    clean_empty: bool,
    name: Seq<char>,
    values: Seq<Seq<char>>,
    m: Map<Seq<char>, Seq<char>>,
) -> Map<Seq<char>, Seq<char>>
    decreases lines.len(),
{
    if lines.len() == 0 {
        flush_entry(m, name, values, clean_empty)
    } else {
        let line = lines[0];
        let rest = lines.subrange(1, lines.len() as int);
        if !has_char(line, '=') {
            parse_lines(rest, clean_empty, name, values.push(line), m)
        } else if name.len() == 0 {
            parse_lines(rest, clean_empty, line_name(line), values.push(line_value(line)), m)
        } else {
            parse_lines(
                rest,
                clean_empty,
                line_name(line),
                seq![line_value(line)],
                flush_entry(m, name, values, clean_empty),
            )
        }
    }
}

/// The mapping described by a catalog text.
pub open spec fn parse_text(content: Seq<char>, clean_empty: bool) -> Map<Seq<char>, Seq<char>> {
    parse_lines(
        split_on(content, '\n'),
        clean_empty,
        Seq::<char>::empty(),
        Seq::<Seq<char>>::empty(),
        Map::<Seq<char>, Seq<char>>::empty(),
    )
}

/// The pending entry (name and value lines) left after consuming `lines`.
pub open spec fn pend_after(lines: Seq<Seq<char>>, name: Seq<char>, values: Seq<Seq<char>>) -> (
    Seq<char>,
    Seq<Seq<char>>,
)
    decreases lines.len(),
{
    if lines.len() == 0 {
        (name, values)
    } else {
        let line = lines[0];
        let rest = lines.subrange(1, lines.len() as int);
        if !has_char(line, '=') {
            pend_after(rest, name, values.push(line))
        } else if name.len() == 0 {
            pend_after(rest, line_name(line), values.push(line_value(line)))
        } else {
            pend_after(rest, line_name(line), seq![line_value(line)])
        }
    }
}

/// The mapping accumulated after consuming `lines`, the pending entry not
/// yet flushed.
pub open spec fn acc_after(
    lines: Seq<Seq<char>>,
    clean_empty: bool,
    name: Seq<char>,
    values: Seq<Seq<char>>,
    m: Map<Seq<char>, Seq<char>>,
) -> Map<Seq<char>, Seq<char>>
    decreases lines.len(),
{
    if lines.len() == 0 {
        m
    } else {
        let line = lines[0];
        let rest = lines.subrange(1, lines.len() as int);
        if !has_char(line, '=') {
            acc_after(rest, clean_empty, name, values.push(line), m)
        } else if name.len() == 0 {
            acc_after(rest, clean_empty, line_name(line), values.push(line_value(line)), m)
        } else {
            acc_after(
                rest,
                clean_empty,
                line_name(line),
                seq![line_value(line)],
                flush_entry(m, name, values, clean_empty),
            )
        }
    }
}

/// Parsing concatenated line lists composes through the intermediate
/// pending entry and accumulated mapping.
pub proof fn lemma_parse_concat(
    l1: Seq<Seq<char>>,
    l2: Seq<Seq<char>>,
    clean_empty: bool,
    name: Seq<char>,
    values: Seq<Seq<char>>,
    m: Map<Seq<char>, Seq<char>>,
)
    ensures
        parse_lines(l1 + l2, clean_empty, name, values, m) == parse_lines(
            l2,
            clean_empty,
            pend_after(l1, name, values).0,
            pend_after(l1, name, values).1,
            acc_after(l1, clean_empty, name, values, m),
        ),
    decreases l1.len(),
{
    if l1.len() == 0 {
        assert(l1 + l2 =~= l2);
    } else {
        let lines = l1 + l2;
        let line = l1[0];
        assert(lines[0] == line);
        let rest1 = l1.subrange(1, l1.len() as int);
        assert(lines.subrange(1, lines.len() as int) =~= rest1 + l2);
        if !has_char(line, '=') {
            lemma_parse_concat(rest1, l2, clean_empty, name, values.push(line), m);
        } else if name.len() == 0 {
            lemma_parse_concat(
                rest1,
                l2,
                clean_empty,
                line_name(line),
                values.push(line_value(line)),
                m,
            );
        } else {
            lemma_parse_concat(
                rest1,
                l2,
                clean_empty,
                line_name(line),
                seq![line_value(line)],
                flush_entry(m, name, values, clean_empty),
            );
        }
    }
}

/// A non-empty pending name always carries at least one value line.
pub proof fn lemma_pend_nonempty(lines: Seq<Seq<char>>, name: Seq<char>, values: Seq<Seq<char>>)
    requires
        name.len() > 0 ==> values.len() >= 1,
    ensures
        pend_after(lines, name, values).0.len() > 0 ==> pend_after(lines, name, values).1.len()
            >= 1,
    decreases lines.len(),
{
    if lines.len() == 0 {
    } else {
        let line = lines[0];
        let rest = lines.subrange(1, lines.len() as int);
        if !has_char(line, '=') {
            lemma_pend_nonempty(rest, name, values.push(line));
        } else if name.len() == 0 {
            lemma_pend_nonempty(rest, line_name(line), values.push(line_value(line)));
        } else {
            lemma_pend_nonempty(rest, line_name(line), seq![line_value(line)]);
        }
    }
}

/// The line written for a filled entry.
pub open spec fn filled_line(key: Seq<char>, value: Seq<char>) -> Seq<char> {
    escape_eq(key) + seq![' ', '=', ' '] + value
}

/// The line written for an empty placeholder entry.
pub open spec fn placeholder_line(key: Seq<char>) -> Seq<char> {
    escape_eq(key) + seq![' ', '=']
}

/// The text written for a list of entries.
pub open spec fn serialize_spec(entries: Seq<(Seq<char>, Seq<char>)>) -> Seq<char> {
    join_with(entries.map_values(|e: (Seq<char>, Seq<char>)| filled_line(e.0, e.1)), '\n')
}

// ---------------------------------------------------------------------------
// Executable codec.
// ---------------------------------------------------------------------------

/// `key` with every `=` escaped as `\=`.
pub fn escape_key(key: &str) -> (r: String)
    ensures
        r@ == escape_eq(key@),
{
    let n = key.unicode_len();
    let mut out = String::new();
    let mut i: usize = 0;
    while i < n
        invariant
            n == key@.len(),
            0 <= i <= n,
            out@ == escape_eq(key@.subrange(0, i as int)),
        decreases n - i,
    {
        let ch = key.get_char(i);
        if ch == '=' {
            out.append("\\=");
        } else {
            out.append(key.substring_char(i, i + 1));
        }
        proof {
            reveal_strlit("\\=");
            let pre = key@.subrange(0, i as int);
            lemma_escape_concat(pre, seq![key@[i as int]]);
            assert(pre + seq![key@[i as int]] =~= key@.subrange(0, i as int + 1));
            assert(seq![key@[i as int]].subrange(1, 1) =~= Seq::<char>::empty());
            assert(escape_eq(Seq::<char>::empty()) == Seq::<char>::empty());
            if ch == '=' {
                assert(escape_eq(seq![key@[i as int]]) =~= seq!['\\', '=']);
                assert("\\="@ =~= seq!['\\', '=']);
            } else {
                assert(escape_eq(seq![key@[i as int]]) =~= seq![key@[i as int]]);
                assert(key@.subrange(i as int, i as int + 1) =~= seq![key@[i as int]]);
            }
        }
        i += 1;
    }
    proof {
        assert(key@.subrange(0, n as int) =~= key@);
    }
    out
}

/// Escaping distributes over concatenation.
pub proof fn lemma_escape_concat(a: Seq<char>, b: Seq<char>)
    ensures
        escape_eq(a + b) == escape_eq(a) + escape_eq(b),
    decreases a.len(),
{
    if a.len() == 0 {
        assert(a + b =~= b);
        assert(escape_eq(a) + escape_eq(b) =~= escape_eq(b));
    } else {
        let a1 = a.subrange(1, a.len() as int);
        lemma_escape_concat(a1, b);
        assert((a + b).subrange(1, (a + b).len() as int) =~= a1 + b);
        if a[0] == '=' {
            assert(escape_eq(a + b) == seq!['\\', '='] + (escape_eq(a1) + escape_eq(b)));
            assert(seq!['\\', '='] + (escape_eq(a1) + escape_eq(b)) =~= (seq!['\\', '=']
                + escape_eq(a1)) + escape_eq(b));
        } else {
            assert(escape_eq(a + b) == seq![a[0]] + (escape_eq(a1) + escape_eq(b)));
            assert(seq![a[0]] + (escape_eq(a1) + escape_eq(b)) =~= (seq![a[0]] + escape_eq(a1))
                + escape_eq(b));
        }
    }
}

/// Whether `s` contains the escape `\=`.
pub fn str_has_esc(s: &str) -> (r: bool)
    ensures
        r == has_esc(s@),
{
    let n = s.unicode_len();
    if n < 2 {
        return false;
    }
    let mut i: usize = 0;
    while i + 1 < n
        invariant
            n == s@.len(),
            0 <= i,
            i + 1 <= n,
            forall|j: int| 0 <= j && j + 1 < i + 1 ==> !(#[trigger] s@[j] == '\\' && s@[j + 1]
                == '='),
        decreases n - i,
    {
        if s.get_char(i) == '\\' && s.get_char(i + 1) == '=' {
            return true;
        }
        i += 1;
    }
    false
}

pub proof fn lemma_split_esc_len(s: Seq<char>)
    ensures
        split_esc(s).len() >= 1,
    decreases s.len(),
{
    if s.len() < 2 {
    } else if s[0] == '\\' && s[1] == '=' {
        lemma_split_esc_len(s.subrange(2, s.len() as int));
    } else {
        lemma_split_esc_len(s.subrange(1, s.len() as int));
    }
}

/// Splitting a concatenation on `\=`, when no escape spans the boundary.
pub proof fn lemma_split_esc_concat(a: Seq<char>, b: Seq<char>)
    requires
        !(a.len() > 0 && b.len() > 0 && a[a.len() - 1] == '\\' && b[0] == '='),
    ensures
        ({
            let sa = split_esc(a);
            let sb = split_esc(b);
            split_esc(a + b) == sa.subrange(0, sa.len() - 1) + seq![sa.last() + sb.first()]
                + sb.subrange(1, sb.len() as int)
        }),
    decreases a.len(),
{
    lemma_split_esc_len(a);
    lemma_split_esc_len(b);
    let sa = split_esc(a);
    let sb = split_esc(b);
    if a.len() == 0 {
        assert(a + b =~= b);
        assert(sa == seq![a]);
        assert(sa.last() + sb.first() =~= sb.first());
        assert(sa.subrange(0, 0) =~= Seq::<Seq<char>>::empty());
        assert(sa.subrange(0, sa.len() - 1) + seq![sa.last() + sb.first()] + sb.subrange(
            1,
            sb.len() as int,
        ) =~= sb);
    } else if a.len() == 1 {
        let ab = a + b;
        assert(sa == seq![a]);
        assert(sa.subrange(0, 0) =~= Seq::<Seq<char>>::empty());
        if b.len() == 0 {
            assert(ab =~= a);
            assert(sb == seq![b]);
            assert(sa.last() + sb.first() =~= a);
            assert(sa.subrange(0, sa.len() - 1) + seq![sa.last() + sb.first()] + sb.subrange(
                1,
                sb.len() as int,
            ) =~= seq![a]);
        } else {
            assert(ab.len() >= 2);
            assert(ab[0] == a[0] && ab[1] == b[0]);
            assert(!(ab[0] == '\\' && ab[1] == '='));
            let rest = split_esc(ab.subrange(1, ab.len() as int));
            assert(ab.subrange(1, ab.len() as int) =~= b);
            assert(split_esc(ab) == seq![seq![a[0]] + sb[0]] + sb.subrange(1, sb.len() as int));
            assert(seq![a[0]] + sb[0] =~= a + sb.first());
            assert(split_esc(ab) =~= sa.subrange(0, sa.len() - 1) + seq![sa.last() + sb.first()]
                + sb.subrange(1, sb.len() as int));
        }
    } else {
        let ab = a + b;
        assert(ab.len() >= 2);
        assert(ab[0] == a[0] && ab[1] == a[1]);
        if a[0] == '\\' && a[1] == '=' {
            let a2 = a.subrange(2, a.len() as int);
            assert(a2.len() > 0 ==> a2[a2.len() - 1] == a[a.len() - 1]);
            lemma_split_esc_concat(a2, b);
            lemma_split_esc_len(a2);
            assert(ab.subrange(2, ab.len() as int) =~= a2 + b);
            let sa2 = split_esc(a2);
            assert(split_esc(ab) == seq![Seq::<char>::empty()] + split_esc(a2 + b));
            assert(sa == seq![Seq::<char>::empty()] + sa2);
            assert(sa.last() == sa2.last());
            assert(sa.subrange(0, sa.len() - 1) =~= seq![Seq::<char>::empty()] + sa2.subrange(
                0,
                sa2.len() - 1,
            ));
            assert(split_esc(ab) =~= sa.subrange(0, sa.len() - 1) + seq![sa.last() + sb.first()]
                + sb.subrange(1, sb.len() as int));
        } else {
            let a1 = a.subrange(1, a.len() as int);
            assert(a1[a1.len() - 1] == a[a.len() - 1]);
            lemma_split_esc_concat(a1, b);
            lemma_split_esc_len(a1);
            assert(ab.subrange(1, ab.len() as int) =~= a1 + b);
            let sa1 = split_esc(a1);
            let r = split_esc(a1 + b);
            assert(split_esc(ab) == seq![seq![ab[0]] + r[0]] + r.subrange(1, r.len() as int));
            assert(sa == seq![seq![a[0]] + sa1[0]] + sa1.subrange(1, sa1.len() as int));
            if sa1.len() == 1 {
                assert(r[0] == sa1.last() + sb.first());
                assert(sa.last() == seq![a[0]] + sa1[0]);
                assert(seq![a[0]] + r[0] =~= sa.last() + sb.first());
                assert(r.subrange(1, r.len() as int) =~= sb.subrange(1, sb.len() as int));
                assert(sa.subrange(0, sa.len() - 1) =~= Seq::<Seq<char>>::empty());
                assert(split_esc(ab) =~= sa.subrange(0, sa.len() - 1) + seq![sa.last()
                    + sb.first()] + sb.subrange(1, sb.len() as int));
            } else {
                assert(r[0] == sa1[0]);
                assert(sa.last() == sa1.last());
                assert(sa.subrange(0, sa.len() - 1) =~= seq![seq![a[0]] + sa1[0]] + sa1.subrange(
                    0,
                    sa1.len() - 1,
                ).subrange(1, sa1.len() - 1));
                assert(split_esc(ab) =~= sa.subrange(0, sa.len() - 1) + seq![sa.last()
                    + sb.first()] + sb.subrange(1, sb.len() as int));
            }
        }
    }
}

/// Split `s` on every occurrence of `\=`.
pub fn split_esc_str(s: &str) -> (r: Vec<String>)
    ensures
        r@.map_values(|p: String| p@) == split_esc(s@),
{
    let n = s.unicode_len();
    let mut parts: Vec<String> = Vec::new();
    let mut seg_start: usize = 0;
    let mut i: usize = 0;
    proof {
        assert(s@.subrange(0, 0) =~= Seq::<char>::empty());
        assert(parts@.map_values(|p: String| p@).push(s@.subrange(0, 0)) =~~= split_esc(
            s@.subrange(0, 0),
        ));
    }
    while i < n
        invariant
            n == s@.len(),
            0 <= seg_start <= i <= n,
            0 < i < n ==> !(s@[i - 1] == '\\' && s@[i as int] == '='),
            parts@.map_values(|p: String| p@).push(s@.subrange(seg_start as int, i as int))
                == split_esc(s@.subrange(0, i as int)),
        decreases n - i,
    {
        let ghost pre = s@.subrange(0, i as int);
        let ghost sa = split_esc(pre);
        let ghost views_before = parts@.map_values(|p: String| p@);
        proof {
            lemma_split_esc_len(pre);
            assert(sa == views_before.push(s@.subrange(seg_start as int, i as int)));
            assert(sa.last() == s@.subrange(seg_start as int, i as int));
            assert(sa.subrange(0, sa.len() - 1) =~= views_before);
        }
        if i + 1 < n && s.get_char(i) == '\\' && s.get_char(i + 1) == '=' {
            parts.push(s.substring_char(seg_start, i).to_owned());
            proof {
                let ghost ext = s@.subrange(0, i as int + 2);
                lemma_split_esc_concat(pre, seq!['\\', '=']);
                assert(pre + seq!['\\', '='] =~= ext);
                assert(seq!['\\', '='].subrange(2, 2) =~= Seq::<char>::empty());
                assert(split_esc(seq!['\\', '=']) == seq![Seq::<char>::empty()] + split_esc(
                    seq!['\\', '='].subrange(2, 2),
                ));
                assert(split_esc(seq!['\\', '='].subrange(2, 2)) == seq![Seq::<char>::empty()]);
                let sb = split_esc(seq!['\\', '=']);
                assert(sb =~= seq![Seq::<char>::empty(), Seq::<char>::empty()]);
                assert(sa.last() + sb.first() =~= sa.last());
                assert(sb.subrange(1, 2) =~= seq![Seq::<char>::empty()]);
                assert(split_esc(ext) =~= sa.push(Seq::<char>::empty()));
                assert(parts@.map_values(|p: String| p@) =~= sa);
                assert(s@.subrange(i as int + 2, i as int + 2) =~= Seq::<char>::empty());
                assert(parts@.map_values(|p: String| p@).push(
                    s@.subrange(i as int + 2, i as int + 2),
                ) == split_esc(ext));
            }
            seg_start = i + 2;
            i += 2;
        } else {
            proof {
                let ghost ext = s@.subrange(0, i as int + 1);
                lemma_split_esc_concat(pre, seq![s@[i as int]]);
                assert(pre + seq![s@[i as int]] =~= ext);
                let sb = split_esc(seq![s@[i as int]]);
                assert(sb == seq![seq![s@[i as int]]]);
                assert(sb.subrange(1, 1) =~= Seq::<Seq<char>>::empty());
                assert(sa.last() + sb.first() =~= s@.subrange(seg_start as int, i as int + 1));
                assert(split_esc(ext) =~= views_before.push(
                    s@.subrange(seg_start as int, i as int + 1),
                ));
            }
            i += 1;
        }
    }
    parts.push(s.substring_char(seg_start, n).to_owned());
    proof {
        assert(s@.subrange(0, n as int) =~= s@);
        assert(parts@.map_values(|p: String| p@) =~= split_esc(s@));
    }
    parts
}

/// The key and value parts determined by the position of the first
/// `=`-bearing segment.
pub proof fn lemma_esc_walk(items: Seq<Seq<char>>, stop: int)
    requires
        0 <= stop <= items.len(),
        forall|j: int| 0 <= j < stop ==> !has_char(#[trigger] items[j], '='),
        stop < items.len() ==> has_char(items[stop], '='),
    ensures
        esc_names(items) == items.subrange(0, stop).map_values(|t: Seq<char>| trim_spec(t)) + (
        if stop < items.len() {
            seq![trim_spec(items[stop].subrange(0, find_char(items[stop], '=')))]
        } else {
            Seq::<Seq<char>>::empty()
        }),
        esc_values(items) == (if stop < items.len() {
            seq![
                trim_spec(
                    items[stop].subrange(find_char(items[stop], '=') + 1, items[stop].len() as int),
                ),
            ] + items.subrange(stop + 1, items.len() as int)
        } else {
            Seq::<Seq<char>>::empty()
        }),
    decreases items.len(),
{
    if stop == 0 {
        if items.len() == 0 {
            assert(esc_names(items) =~= items.subrange(0, 0).map_values(|t: Seq<char>| trim_spec(t))
                + Seq::<Seq<char>>::empty());
        } else {
            assert(items.subrange(0, 0).map_values(|t: Seq<char>| trim_spec(t)) =~= Seq::<
                Seq<char>,
            >::empty());
            assert(esc_names(items) =~= items.subrange(0, 0).map_values(|t: Seq<char>| trim_spec(t))
                + seq![trim_spec(items[0].subrange(0, find_char(items[0], '=')))]);
        }
    } else {
        let rest = items.subrange(1, items.len() as int);
        lemma_esc_walk(rest, stop - 1);
        assert(!has_char(items[0], '='));
        assert(rest.subrange(0, stop - 1) =~= items.subrange(1, stop));
        if stop < items.len() {
            assert(rest[stop - 1] == items[stop]);
            assert(rest.subrange(stop, rest.len() as int) =~= items.subrange(
                stop + 1,
                items.len() as int,
            ));
        }
        assert(seq![trim_spec(items[0])] + rest.subrange(0, stop - 1).map_values(
            |t: Seq<char>| trim_spec(t),
        ) =~= items.subrange(0, stop).map_values(|t: Seq<char>| trim_spec(t)));
        assert(esc_names(items) =~= items.subrange(0, stop).map_values(|t: Seq<char>| trim_spec(t))
            + (if stop < items.len() {
            seq![trim_spec(items[stop].subrange(0, find_char(items[stop], '=')))]
        } else {
            Seq::<Seq<char>>::empty()
        }));
    }
}

/// Index of the first item containing `=`; the item count when none does.
fn find_eq_item(items: &Vec<String>) -> (r: usize)
    ensures
        r <= items@.len(),
        forall|j: int| 0 <= j < r ==> !has_char(#[trigger] items@[j]@, '='),
        r < items@.len() ==> has_char(items@[r as int]@, '='),
{
    let mut i: usize = 0;
    while i < items.len()
        invariant
            0 <= i <= items@.len(),
            forall|j: int| 0 <= j < i ==> !has_char(#[trigger] items@[j]@, '='),
        decreases items@.len() - i,
    {
        if str_has_char(items[i].as_str(), '=') {
            return i;
        }
        i += 1;
    }
    i
}

/// Split a delimiter-bearing line into its key and its first value line,
/// resolving `\=` escapes.
pub fn split_entry_line(line: &str) -> (r: (String, String))
    requires
        has_char(line@, '='),
    ensures
        r.0@ == line_name(line@),
        r.1@ == line_value(line@),
{
    let n = line.unicode_len();
    if !str_has_esc(line) {
        let p = str_find_char(line, '=');
        proof {
            lemma_find_char(line@, '=');
        }
        let name = trim_str(line.substring_char(0, p));
        let value = trim_str(line.substring_char(p + 1, n));
        return (name, value);
    }
    let items = split_esc_str(line);
    let ghost iv = items@.map_values(|p: String| p@);
    let stop = find_eq_item(&items);
    proof {
        lemma_esc_walk(iv, stop as int);
    }
    let mut names: Vec<String> = Vec::new();
    let mut k: usize = 0;
    while k < stop
        invariant
            iv == items@.map_values(|p: String| p@),
            0 <= k <= stop <= items@.len(),
            names@.map_values(|v: String| v@) == iv.subrange(0, k as int).map_values(
                |t: Seq<char>| trim_spec(t),
            ),
        decreases stop - k,
    {
        let ghost nv_before = names@;
        names.push(trim_str(items[k].as_str()));
        proof {
            crate::text::lemma_views_push(nv_before, names@.last());
            assert(iv.subrange(0, k as int + 1).map_values(|t: Seq<char>| trim_spec(t)) =~= iv
                .subrange(0, k as int).map_values(|t: Seq<char>| trim_spec(t)).push(
                trim_spec(iv[k as int]),
            ));
        }
        k += 1;
    }
    let mut values: Vec<String> = Vec::new();
    if stop < items.len() {
        let item_len = items[stop].as_str().unicode_len();
        let p = str_find_char(items[stop].as_str(), '=');
        proof {
            lemma_find_char(iv[stop as int], '=');
        }
        let ghost nv_before = names@;
        names.push(trim_str(items[stop].as_str().substring_char(0, p)));
        proof {
            crate::text::lemma_views_push(nv_before, names@.last());
            assert(names@.map_values(|v: String| v@) =~= esc_names(iv));
        }
        let ghost vv_before = values@;
        values.push(trim_str(items[stop].as_str().substring_char(p + 1, item_len)));
        proof {
            crate::text::lemma_views_push(vv_before, values@.last());
        }
        let mut k2: usize = stop + 1;
        while k2 < items.len()
            invariant
                iv == items@.map_values(|p: String| p@),
                stop < k2 <= items@.len(),
                stop < iv.len(),
                has_char(iv[stop as int], '='),
                values@.map_values(|v: String| v@) == seq![
                    trim_spec(
                        iv[stop as int].subrange(
                            find_char(iv[stop as int], '=') + 1,
                            iv[stop as int].len() as int,
                        ),
                    ),
                ] + iv.subrange(stop as int + 1, k2 as int),
            decreases items@.len() - k2,
        {
            let ghost vv = values@;
            values.push(items[k2].clone());
            proof {
                crate::text::lemma_views_push(vv, values@.last());
                assert(values@.map_values(|v: String| v@) =~= seq![
                    trim_spec(
                        iv[stop as int].subrange(
                            find_char(iv[stop as int], '=') + 1,
                            iv[stop as int].len() as int,
                        ),
                    ),
                ] + iv.subrange(stop as int + 1, k2 as int + 1));
            }
            k2 += 1;
        }
        proof {
            assert(values@.map_values(|v: String| v@) =~= esc_values(iv));
        }
    } else {
        proof {
            assert(names@.map_values(|v: String| v@) =~= esc_names(iv));
            assert(values@.map_values(|v: String| v@) =~= esc_values(iv));
            assert(iv.subrange(0, iv.len() as int) =~= iv);
        }
    }
    proof {
        reveal_strlit("=");
        assert("="@[0] == '=');
    }
    let name = join_char(&names, "=");
    let value = join_char(&values, "=");
    (name, value)
}

/// Close the pending entry into the catalog.
fn flush_into(cat: &mut Catalog, name: &String, values: &Vec<String>, clean_empty: bool)
    requires
        old(cat).wf(),
    ensures
        final(cat).wf(),
        final(cat)@ == flush_entry(
            old(cat)@,
            name@,
            values@.map_values(|v: String| v@),
            clean_empty,
        ),
{
    proof {
        reveal_strlit("\n");
    }
    if name.as_str().unicode_len() == 0 {
        return ;
    }
    let joined = join_char(values, "\n");
    let value = trim_str(joined.as_str());
    if value.as_str().unicode_len() == 0 && clean_empty {
        return ;
    }
    cat.insert(name.clone(), value);
}

/// Parse a catalog text. When `clean_empty` is true, entries whose value
/// resolves to the empty string are dropped; otherwise they are kept.
pub fn parse_translations(content: &str, clean_empty: bool) -> (r: Catalog)
    ensures
        r.wf(),
        r@ == parse_text(content@, clean_empty),
{
    let lines = split_str(content, '\n');
    let ghost lv = lines@.map_values(|p: String| p@);
    let mut cat = Catalog::new();
    let mut name = String::new();
    let mut values: Vec<String> = Vec::new();
    let mut idx: usize = 0;
    proof {
        assert(lv.subrange(0, lv.len() as int) =~= lv);
        assert(values@.map_values(|v: String| v@) =~= Seq::<Seq<char>>::empty());
    }
    while idx < lines.len()
        invariant
            lv == lines@.map_values(|p: String| p@),
            0 <= idx <= lv.len(),
            cat.wf(),
            parse_lines(
                lv.subrange(idx as int, lv.len() as int),
                clean_empty,
                name@,
                values@.map_values(|v: String| v@),
                cat@,
            ) == parse_text(content@, clean_empty),
        decreases lv.len() - idx,
    {
        let ghost rem = lv.subrange(idx as int, lv.len() as int);
        proof {
            assert(rem[0] == lv[idx as int]);
            assert(rem.subrange(1, rem.len() as int) =~= lv.subrange(
                idx as int + 1,
                lv.len() as int,
            ));
        }
        let has_delim = str_has_char(lines[idx].as_str(), '=');
        if !has_delim {
            let ghost vv = values@;
            values.push(lines[idx].clone());
            proof {
                crate::text::lemma_views_push(vv, values@.last());
            }
        } else {
            let nv = split_entry_line(lines[idx].as_str());
            if name.as_str().unicode_len() == 0 {
                let ghost vv = values@;
                name = nv.0;
                values.push(nv.1);
                proof {
                    crate::text::lemma_views_push(vv, values@.last());
                }
            } else {
                flush_into(&mut cat, &name, &values, clean_empty);
                values.clear();
                let ghost vv = values@;
                name = nv.0;
                values.push(nv.1);
                proof {
                    crate::text::lemma_views_push(vv, values@.last());
                    assert(values@.map_values(|v: String| v@) =~= seq![line_value(rem[0])]);
                }
            }
        }
        idx += 1;
    }
    flush_into(&mut cat, &name, &values, clean_empty);
    proof {
        assert(lv.subrange(lv.len() as int, lv.len() as int) =~= Seq::<Seq<char>>::empty());
    }
    cat
}

/// The line `key = value`, with `=` escaped inside the key.
pub fn filled_entry_line(key: &str, value: &str) -> (r: String)
    ensures
        r@ == filled_line(key@, value@),
{
    let mut out = escape_key(key);
    out.append(" = ");
    out.append(value);
    proof {
        reveal_strlit(" = ");
        assert(" = "@ =~= seq![' ', '=', ' ']);
    }
    out
}

/// The line `key =`, with `=` escaped inside the key.
pub fn placeholder_entry_line(key: &str) -> (r: String)
    ensures
        r@ == placeholder_line(key@),
{
    let mut out = escape_key(key);
    out.append(" =");
    proof {
        reveal_strlit(" =");
        assert(" ="@ =~= seq![' ', '=']);
    }
    out
}

// ---------------------------------------------------------------------------
// Round-trip laws.
// ---------------------------------------------------------------------------

/// A key the format can carry on one line and recover exactly: non-empty,
/// no newline, and no whitespace against either end of any `=` inside it
/// (the parser trims each escaped segment).
pub open spec fn wf_key(k: Seq<char>) -> bool {
    &&& k.len() > 0
    &&& !has_char(k, '\n')
    &&& forall|j: int|
        0 <= j < split_on(k, '=').len() ==> is_trimmed(#[trigger] split_on(k, '=')[j])
}

/// A value the format can carry on one line and recover exactly: no
/// newline, no literal `\=`, already trimmed.
pub open spec fn wf_value(v: Seq<char>) -> bool {
    &&& !has_char(v, '\n')
    &&& !has_esc(v)
    &&& is_trimmed(v)
}

/// A value the format can carry and recover exactly, possibly spanning
/// several lines: the whole value and its first line are trimmed, the
/// first line holds no literal `\=`, and no later line holds `=` (such a
/// line would start a new entry rather than continue this value).
pub open spec fn wf_value_lines(v: Seq<char>) -> bool {
    let ls = split_on(v, '\n');
    &&& is_trimmed(v)
    &&& is_trimmed(ls[0])
    &&& !has_esc(ls[0])
    &&& forall|j: int| 1 <= j < ls.len() ==> !has_char(#[trigger] ls[j], '=')
}

/// A one-line value satisfies the multi-line conditions.
pub proof fn lemma_wf_value_lines(v: Seq<char>)
    requires
        wf_value(v),
    ensures
        wf_value_lines(v),
{
    lemma_split_free(v, '\n');
}

pub proof fn lemma_trim_of_trimmed(s: Seq<char>)
    requires
        is_trimmed(s),
    ensures
        trim_spec(s) == s,
{
    if s.len() > 0 {
        assert(trim_start_spec(s) == s);
        assert(trim_end_spec(s) == s);
    }
}

pub proof fn lemma_trim_right_space(s: Seq<char>)
    requires
        is_trimmed(s),
    ensures
        trim_spec(s.push(' ')) == s,
{
    let t = s.push(' ');
    if s.len() == 0 {
        assert(t[0] == ' ');
        assert(t.subrange(1, 1) =~= Seq::<char>::empty());
        assert(trim_start_spec(Seq::<char>::empty()) == Seq::<char>::empty());
        assert(trim_start_spec(t) == trim_start_spec(t.subrange(1, 1)));
        assert(trim_start_spec(t) == Seq::<char>::empty());
    } else {
        assert(t[0] == s[0]);
        assert(trim_start_spec(t) == t);
        assert(t[t.len() - 1] == ' ');
        assert(t.subrange(0, t.len() - 1) =~= s);
        assert(trim_end_spec(t) == trim_end_spec(s));
        assert(trim_end_spec(s) == s);
    }
}

pub proof fn lemma_trim_left_space(v: Seq<char>)
    requires
        is_trimmed(v),
    ensures
        trim_spec(seq![' '] + v) == v,
{
    let t = seq![' '] + v;
    assert(t[0] == ' ');
    assert(t.subrange(1, t.len() as int) =~= v);
    assert(trim_start_spec(t) == trim_start_spec(v));
    if v.len() == 0 {
        assert(trim_start_spec(v) == v);
    } else {
        assert(trim_start_spec(v) == v);
        assert(trim_end_spec(v) == v);
    }
}

/// Escaping touches only `=`, so other characters stay absent.
pub proof fn lemma_escape_keeps_free(k: Seq<char>, c: char)
    requires
        !has_char(k, c),
        c != '\\',
        c != '=',
    ensures
        !has_char(escape_eq(k), c),
    decreases k.len(),
{
    if k.len() == 0 {
    } else {
        let rest = k.subrange(1, k.len() as int);
        assert forall|i: int| 0 <= i < rest.len() implies rest[i] != c by {
            assert(k[i + 1] == rest[i]);
        }
        lemma_escape_keeps_free(rest, c);
        let e = escape_eq(k);
        let er = escape_eq(rest);
        if k[0] == '=' {
            assert(e == seq!['\\', '='] + er);
            assert forall|i: int| 0 <= i < e.len() implies e[i] != c by {
                if i >= 2 {
                    assert(er[i - 2] == e[i]);
                }
            }
        } else {
            assert(e == seq![k[0]] + er);
            assert forall|i: int| 0 <= i < e.len() implies e[i] != c by {
                if i >= 1 {
                    assert(er[i - 1] == e[i]);
                }
            }
        }
    }
}

/// A key without `=` is written unchanged.
pub proof fn lemma_escape_id(k: Seq<char>)
    requires
        !has_char(k, '='),
    ensures
        escape_eq(k) == k,
    decreases k.len(),
{
    if k.len() == 0 {
    } else {
        let rest = k.subrange(1, k.len() as int);
        assert forall|i: int| 0 <= i < rest.len() implies rest[i] != '=' by {
            assert(k[i + 1] == rest[i]);
        }
        lemma_escape_id(rest);
        assert(k[0] != '=');
        assert(escape_eq(k) == seq![k[0]] + rest);
        assert(seq![k[0]] + rest =~= k);
    }
}

/// The first character an escape produces.
pub proof fn lemma_escape_first(s: Seq<char>)
    requires
        s.len() > 0,
    ensures
        escape_eq(s).len() > 0,
        escape_eq(s)[0] == (if s[0] == '=' {
            '\\'
        } else {
            s[0]
        }),
{
}

/// The first occurrence of `c`, located by a witness.
pub proof fn lemma_find_char_at(s: Seq<char>, c: char, j: int)
    requires
        0 <= j < s.len(),
        s[j] == c,
        forall|p: int| 0 <= p < j ==> s[p] != c,
    ensures
        find_char(s, c) == j,
        has_char(s, c),
{
    lemma_find_char(s, c);
    assert(has_char(s, c));
    let f = find_char(s, c);
    if f < j {
        assert(s[f] == c);
        assert(false);
    }
    if f > j {
        assert(s[j] != c);
        assert(false);
    }
}

/// Splitting the escaped key on `\=` yields the `=`-separated segments of
/// the key itself.
pub proof fn lemma_split_esc_escape(k: Seq<char>)
    ensures
        split_esc(escape_eq(k)) == split_on(k, '='),
    decreases k.len(),
{
    if k.len() == 0 {
        assert(split_esc(escape_eq(k)) =~~= split_on(k, '='));
    } else {
        let rest = k.subrange(1, k.len() as int);
        lemma_split_esc_escape(rest);
        let e = escape_eq(k);
        let er = escape_eq(rest);
        if k[0] == '=' {
            assert(e == seq!['\\', '='] + er);
            assert(e.len() >= 2 && e[0] == '\\' && e[1] == '=');
            assert(e.subrange(2, e.len() as int) =~= er);
            assert(split_esc(e) == seq![Seq::<char>::empty()] + split_esc(er));
            assert(split_on(k, '=') == seq![Seq::<char>::empty()] + split_on(rest, '='));
            assert(split_esc(e) =~= split_on(k, '='));
        } else {
            assert(e == seq![k[0]] + er);
            if rest.len() == 0 {
                assert(er =~= Seq::<char>::empty());
                assert(e =~= seq![k[0]]);
                assert(e.len() < 2);
                assert(split_esc(e) == seq![e]);
                assert(split_on(rest, '=') == seq![Seq::<char>::empty()]);
                assert(split_on(k, '=') == seq![seq![k[0]] + Seq::<char>::empty()]);
                assert(split_esc(e) =~= split_on(k, '='));
            } else {
                lemma_escape_first(rest);
                assert(e.len() >= 2);
                assert(e[0] == k[0]);
                assert(e[1] == er[0]);
                assert(er[0] != '=');
                assert(!(e[0] == '\\' && e[1] == '='));
                assert(e.subrange(1, e.len() as int) =~= er);
                let r = split_esc(er);
                lemma_split_esc_len(er);
                assert(split_esc(e) == seq![seq![e[0]] + r[0]] + r.subrange(1, r.len() as int));
                let q = split_on(rest, '=');
                lemma_split_on_len(rest, '=');
                assert(split_on(k, '=') == seq![seq![k[0]] + q[0]] + q.subrange(1, q.len() as int));
                assert(split_esc(e) =~= split_on(k, '='));
            }
        }
    }
}

/// A text without `\=` splits into itself alone.
pub proof fn lemma_split_esc_free(s: Seq<char>)
    requires
        !has_esc(s),
    ensures
        split_esc(s) == seq![s],
    decreases s.len(),
{
    if s.len() < 2 {
    } else {
        assert(!(s[0] == '\\' && s[1] == '='));
        let rest = s.subrange(1, s.len() as int);
        assert forall|i: int| 0 <= i && i + 1 < rest.len() implies !(#[trigger] rest[i] == '\\'
            && rest[i + 1] == '=') by {
            assert(s[i + 1] == rest[i]);
            assert(s[i + 2] == rest[i + 1]);
        }
        lemma_split_esc_free(rest);
        assert(split_esc(s) == seq![seq![s[0]] + rest]);
        assert(seq![s[0]] + rest =~= s);
        assert(split_esc(s) =~= seq![s]);
    }
}

/// A line made of an escaped key and a tail beginning ` =` parses back
/// to that key, and to the trimmed text after the `=` as the value line.
proof fn lemma_key_line_splits(k: Seq<char>, tail: Seq<char>)
    requires
        wf_key(k),
        tail.len() >= 2,
        tail[0] == ' ',
        tail[1] == '=',
        !has_esc(tail),
    ensures
        has_char(escape_eq(k) + tail, '='),
        line_name(escape_eq(k) + tail) == k,
        line_value(escape_eq(k) + tail) == trim_spec(tail.subrange(2, tail.len() as int)),
{
    let e = escape_eq(k);
    let line = e + tail;
    lemma_split_on_segments_free(k, '=');
    lemma_split_on_len(k, '=');
    let sa = split_on(k, '=');
    // the separator is present
    assert(line[e.len() as int + 1] == '=');
    assert(has_char(line, '='));
    if !has_char(k, '=') {
        // unescaped path: the key is written as itself
        lemma_escape_id(k);
        assert(!has_esc(line)) by {
            if has_esc(line) {
                let i = choose|i: int|
                    0 <= i && i + 1 < line.len() && #[trigger] line[i] == '\\' && line[i + 1]
                        == '=';
                if i + 1 < k.len() {
                    assert(k[i + 1] == '=');
                    assert(false);
                } else if i + 1 == k.len() {
                    assert(line[i + 1] == ' ');
                    assert(false);
                } else {
                    assert(tail[i - k.len()] == line[i] && tail[i - k.len() + 1] == line[i + 1]);
                    assert(false);
                }
            }
        }
        assert forall|p: int| 0 <= p < k.len() + 1 implies line[p] != '=' by {
            if p < k.len() {
                assert(line[p] == k[p]);
            } else {
                assert(line[p] == ' ');
            }
        }
        lemma_find_char_at(line, '=', k.len() as int + 1);
        assert(line.subrange(0, k.len() as int + 1) =~= k.push(' '));
        assert(sa[0] == k) by {
            lemma_split_free(k, '=');
        }
        assert(is_trimmed(k));
        lemma_trim_right_space(k);
        assert(line_name(line) == k);
        assert(line.subrange(k.len() as int + 2, line.len() as int) =~= tail.subrange(
            2,
            tail.len() as int,
        ));
        assert(line_value(line) == trim_spec(tail.subrange(2, tail.len() as int)));
    } else {
        // escaped path: split on `\=` recovers the key segments
        lemma_split_esc_escape(k);
        // the escaped key contains `\=`
        let w = choose|w: int| 0 <= w < k.len() && k[w] == '=';
        assert(has_esc(e + tail)) by {
            lemma_esc_present(k, w);
            let u = choose|u: int|
                0 <= u && u + 1 < e.len() && #[trigger] e[u] == '\\' && e[u + 1] == '=';
            assert(line[u] == '\\' && line[u + 1] == '=');
        }
        assert(has_esc(line));
        lemma_split_esc_free(tail);
        assert(e.len() == 0 || e[e.len() - 1] != '\\' || tail[0] != '=');
        lemma_split_esc_concat(e, tail);
        let items = split_esc(line);
        assert(items == sa.subrange(0, sa.len() - 1) + seq![sa.last() + tail]);
        assert(items.len() == sa.len());
        // every item before the last is an `=`-free key segment
        assert forall|j: int| 0 <= j < items.len() - 1 implies !has_char(#[trigger] items[j], '=')
            by {
            assert(items[j] == sa[j]);
        }
        // the last item holds the separator
        let last = sa.last() + tail;
        assert(items[items.len() - 1] == last);
        assert(last[sa.last().len() as int + 1] == '=');
        assert(has_char(last, '='));
        lemma_esc_walk(items, items.len() - 1);
        // first `=` of the last item sits right after the last key segment
        assert forall|p: int| 0 <= p < sa.last().len() + 1 implies last[p] != '=' by {
            if p < sa.last().len() {
                assert(last[p] == sa.last()[p]);
                assert(!has_char(sa.last(), '='));
            } else {
                assert(last[p] == ' ');
            }
        }
        lemma_find_char_at(last, '=', sa.last().len() as int + 1);
        assert(last.subrange(0, sa.last().len() as int + 1) =~= sa.last().push(' '));
        assert(is_trimmed(sa.last()));
        lemma_trim_right_space(sa.last());
        // names: the trimmed segments are the segments themselves
        assert(items.subrange(0, items.len() - 1) =~= sa.subrange(0, sa.len() - 1));
        assert forall|j: int| 0 <= j < sa.len() - 1 implies sa.subrange(0, sa.len() - 1)
            .map_values(|t: Seq<char>| trim_spec(t))[j] == #[trigger] sa[j] by {
            assert(is_trimmed(sa[j]));
            lemma_trim_of_trimmed(sa[j]);
        }
        assert(esc_names(items) =~= sa);
        lemma_join_split(k, '=');
        assert(line_name(line) == k);
        // value: what follows the first `=` of the last item, trimmed
        assert(last.subrange(sa.last().len() as int + 2, last.len() as int) =~= tail.subrange(
            2,
            tail.len() as int,
        ));
        assert(items.subrange(items.len() as int, items.len() as int) =~= Seq::<
            Seq<char>,
        >::empty());
        assert(esc_values(items) =~= seq![trim_spec(tail.subrange(2, tail.len() as int))]);
        assert(join_with(seq![trim_spec(tail.subrange(2, tail.len() as int))], '=')
            == trim_spec(tail.subrange(2, tail.len() as int)));
        assert(line_value(line) == trim_spec(tail.subrange(2, tail.len() as int)));
    }
}

/// The entry line of a well-formed key and value parses back to exactly
/// that key and value. The escaping law: a key containing `=` serializes
/// with `\=` and is recovered unchanged.
pub proof fn lemma_filled_line_splits(k: Seq<char>, v: Seq<char>)
    requires
        wf_key(k),
        wf_value(v),
    ensures
        has_char(filled_line(k, v), '='),
        line_name(filled_line(k, v)) == k,
        line_value(filled_line(k, v)) == v,
{
    let tail = seq![' ', '=', ' '] + v;
    assert(!has_esc(tail)) by {
        if has_esc(tail) {
            let i = choose|i: int|
                0 <= i && i + 1 < tail.len() && #[trigger] tail[i] == '\\' && tail[i + 1] == '=';
            if i >= 3 {
                assert(v[i - 3] == '\\' && v[i - 2] == '=');
                assert(has_esc(v));
            }
            assert(false);
        }
    }
    lemma_key_line_splits(k, tail);
    assert(filled_line(k, v) =~= escape_eq(k) + tail);
    assert(tail.subrange(2, tail.len() as int) =~= seq![' '] + v);
    lemma_trim_left_space(v);
}

/// The placeholder line of a well-formed key parses back to that key with
/// an empty value line.
pub proof fn lemma_placeholder_line_splits(k: Seq<char>)
    requires
        wf_key(k),
    ensures
        has_char(placeholder_line(k), '='),
        line_name(placeholder_line(k)) == k,
        line_value(placeholder_line(k)) == Seq::<char>::empty(),
{
    let tail = seq![' ', '='];
    assert(!has_esc(tail)) by {
        if has_esc(tail) {
            let i = choose|i: int|
                0 <= i && i + 1 < tail.len() && #[trigger] tail[i] == '\\' && tail[i + 1] == '=';
            assert(i == 0 && tail[0] == ' ');
            assert(false);
        }
    }
    lemma_key_line_splits(k, tail);
    assert(placeholder_line(k) =~= escape_eq(k) + tail);
    assert(tail.subrange(2, 2) =~= Seq::<char>::empty());
    assert(trim_start_spec(Seq::<char>::empty()) == Seq::<char>::empty());
    assert(trim_end_spec(Seq::<char>::empty()) == Seq::<char>::empty());
}

/// An `=` in the key puts a `\=` into the escaped key.
proof fn lemma_esc_present(k: Seq<char>, w: int)
    requires
        0 <= w < k.len(),
        k[w] == '=',
    ensures
        has_esc(escape_eq(k)),
    decreases k.len(),
{
    let e = escape_eq(k);
    if w == 0 {
        assert(e[0] == '\\' && e[1] == '=');
    } else {
        let rest = k.subrange(1, k.len() as int);
        lemma_esc_present(rest, w - 1);
        let er = escape_eq(rest);
        let u = choose|u: int|
            0 <= u && u + 1 < er.len() && #[trigger] er[u] == '\\' && er[u + 1] == '=';
        if k[0] == '=' {
            assert(e == seq!['\\', '='] + er);
            assert(e[u + 2] == '\\' && e[u + 3] == '=');
        } else {
            assert(e == seq![k[0]] + er);
            assert(e[u + 1] == '\\' && e[u + 2] == '=');
        }
    }
}

/// The mapping described by entries processed in order, over `m`.
pub open spec fn map_of_entries(
    entries: Seq<(Seq<char>, Seq<char>)>,
    m: Map<Seq<char>, Seq<char>>,
) -> Map<Seq<char>, Seq<char>>
    decreases entries.len(),
{
    if entries.len() == 0 {
        m
    } else {
        map_of_entries(
            entries.subrange(1, entries.len() as int),
            m.insert(entries[0].0, entries[0].1),
        )
    }
}

/// The physical lines one rendered entry occupies: the key line carrying
/// the value's first line, then the value's remaining lines.
proof fn lemma_entry_physical_lines(k: Seq<char>, v: Seq<char>)
    requires
        wf_key(k),
        wf_value_lines(v),
    ensures
        ({
            let ls = split_on(v, '\n');
            let first = escape_eq(k) + seq![' ', '=', ' '] + ls[0];
            &&& split_on(filled_line(k, v), '\n') == seq![first] + ls.subrange(1, ls.len() as int)
            &&& has_char(first, '=')
            &&& line_name(first) == k
            &&& line_value(first) == ls[0]
        }),
{
    let ls = split_on(v, '\n');
    lemma_split_on_len(v, '\n');
    let e = escape_eq(k);
    let mid = seq![' ', '=', ' '];
    let prefix = e + mid;
    lemma_escape_keeps_free(k, '\n');
    assert(!has_char(prefix, '\n')) by {
        if has_char(prefix, '\n') {
            let i = choose|i: int| 0 <= i < prefix.len() && prefix[i] == '\n';
            if i < e.len() {
                assert(e[i] == '\n');
            } else {
                assert(prefix[i] == ' ' || prefix[i] == '=');
            }
            assert(false);
        }
    }
    lemma_split_free(prefix, '\n');
    lemma_split_on_concat(prefix, v, '\n');
    let sp = split_on(prefix, '\n');
    assert(sp == seq![prefix]);
    assert(filled_line(k, v) =~= prefix + v);
    let first = e + mid + ls[0];
    assert(sp.subrange(0, 0) =~= Seq::<Seq<char>>::empty());
    assert(sp.last() + ls.first() =~= first);
    assert(split_on(filled_line(k, v), '\n') =~= seq![first] + ls.subrange(1, ls.len() as int));
    // the key line parses to the key and the value's first line
    let tail = mid + ls[0];
    assert(!has_esc(tail)) by {
        if has_esc(tail) {
            let i = choose|i: int|
                0 <= i && i + 1 < tail.len() && #[trigger] tail[i] == '\\' && tail[i + 1] == '=';
            if i >= 3 {
                assert(ls[0][i - 3] == '\\' && ls[0][i - 2] == '=');
                assert(has_esc(ls[0]));
            }
            assert(false);
        }
    }
    assert(tail.len() >= 2 && tail[0] == ' ' && tail[1] == '=');
    lemma_key_line_splits(k, tail);
    assert(first =~= e + tail);
    assert(tail.subrange(2, tail.len() as int) =~= seq![' '] + ls[0]);
    lemma_trim_left_space(ls[0]);
}

/// The physical line list of rendered entries.
pub open spec fn rendered_lines(entries: Seq<(Seq<char>, Seq<char>)>) -> Seq<Seq<char>>
    decreases entries.len(),
{
    if entries.len() == 0 {
        Seq::<Seq<char>>::empty()
    } else {
        split_on(filled_line(entries[0].0, entries[0].1), '\n') + rendered_lines(
            entries.subrange(1, entries.len() as int),
        )
    }
}

/// Lines without `=` only extend the pending value.
proof fn lemma_parse_continuations(
    cont: Seq<Seq<char>>,
    rest: Seq<Seq<char>>,
    clean_empty: bool,
    name: Seq<char>,
    values: Seq<Seq<char>>,
    m: Map<Seq<char>, Seq<char>>,
)
    requires
        forall|j: int| 0 <= j < cont.len() ==> !has_char(#[trigger] cont[j], '='),
    ensures
        parse_lines(cont + rest, clean_empty, name, values, m) == parse_lines(
            rest,
            clean_empty,
            name,
            values + cont,
            m,
        ),
    decreases cont.len(),
{
    if cont.len() == 0 {
        assert(cont + rest =~= rest);
        assert(values + cont =~= values);
    } else {
        let lines = cont + rest;
        assert(lines[0] == cont[0]);
        assert(!has_char(lines[0], '='));
        let cont1 = cont.subrange(1, cont.len() as int);
        assert(lines.subrange(1, lines.len() as int) =~= cont1 + rest);
        assert forall|j: int| 0 <= j < cont1.len() implies !has_char(#[trigger] cont1[j], '=') by {
            assert(cont1[j] == cont[j + 1]);
        }
        lemma_parse_continuations(cont1, rest, clean_empty, name, values.push(cont[0]), m);
        assert(values.push(cont[0]) + cont1 =~= values + cont);
        assert(parse_lines(lines, clean_empty, name, values, m) == parse_lines(
            lines.subrange(1, lines.len() as int),
            clean_empty,
            name,
            values.push(lines[0]),
            m,
        ));
    }
}

/// Parsing the physical lines of well-formed entries: each key line closes
/// the pending entry, and the value's remaining lines extend the new one.
/// When empty values are dropped, every entry's value must be non-empty.
proof fn lemma_parse_rendered(
    entries: Seq<(Seq<char>, Seq<char>)>,
    clean_empty: bool,
    name: Seq<char>,
    pv: Seq<char>,
    values: Seq<Seq<char>>,
    m: Map<Seq<char>, Seq<char>>,
)
    requires
        forall|j: int| 0 <= j < entries.len() ==> wf_key(#[trigger] entries[j].0),
        forall|j: int| 0 <= j < entries.len() ==> wf_value_lines(#[trigger] entries[j].1),
        clean_empty ==> forall|j: int|
            0 <= j < entries.len() ==> (#[trigger] entries[j].1).len() > 0,
        name.len() == 0 ==> values == Seq::<Seq<char>>::empty(),
        name.len() > 0 ==> values == split_on(pv, '\n') && wf_value_lines(pv),
    ensures
        parse_lines(rendered_lines(entries), clean_empty, name, values, m) == map_of_entries(
            entries,
            flush_entry(m, name, values, clean_empty),
        ),
    decreases entries.len(),
{
    let lines = rendered_lines(entries);
    if entries.len() == 0 {
    } else {
        let k0 = entries[0].0;
        let v0 = entries[0].1;
        assert(wf_key(k0) && wf_value_lines(v0));
        if clean_empty {
            assert(v0.len() > 0);
        }
        let ls0 = split_on(v0, '\n');
        lemma_split_on_len(v0, '\n');
        lemma_entry_physical_lines(k0, v0);
        let first = escape_eq(k0) + seq![' ', '=', ' '] + ls0[0];
        let cont = ls0.subrange(1, ls0.len() as int);
        let rest_entries = entries.subrange(1, entries.len() as int);
        let rest_rendered = rendered_lines(rest_entries);
        assert(lines == (seq![first] + cont) + rest_rendered);
        assert(lines[0] == first);
        assert(lines.subrange(1, lines.len() as int) =~= cont + rest_rendered);
        assert forall|j: int| 0 <= j < rest_entries.len() implies wf_key(
            #[trigger] rest_entries[j].0,
        ) by {
            assert(rest_entries[j] == entries[j + 1]);
        }
        assert forall|j: int| 0 <= j < rest_entries.len() implies wf_value_lines(
            #[trigger] rest_entries[j].1,
        ) by {
            assert(rest_entries[j] == entries[j + 1]);
        }
        if clean_empty {
            assert forall|j: int| 0 <= j < rest_entries.len() implies (
            #[trigger] rest_entries[j].1).len() > 0 by {
                assert(rest_entries[j] == entries[j + 1]);
            }
        }
        assert forall|j: int| 0 <= j < cont.len() implies !has_char(#[trigger] cont[j], '=') by {
            assert(cont[j] == ls0[j + 1]);
        }
        // after the key line, the value resolves to exactly v0
        lemma_join_split(v0, '\n');
        lemma_trim_of_trimmed(v0);
        if name.len() == 0 {
            assert(parse_lines(lines, clean_empty, name, values, m) == parse_lines(
                cont + rest_rendered,
                clean_empty,
                line_name(first),
                values.push(line_value(first)),
                m,
            ));
            lemma_parse_continuations(
                cont,
                rest_rendered,
                clean_empty,
                k0,
                values.push(ls0[0]),
                m,
            );
            assert(values.push(ls0[0]) + cont =~= ls0);
            lemma_parse_rendered(rest_entries, clean_empty, k0, v0, ls0, m);
            assert(flush_entry(m, name, values, clean_empty) == m);
            assert(flush_entry(m, k0, ls0, clean_empty) == m.insert(k0, v0));
        } else {
            let acc = flush_entry(m, name, values, clean_empty);
            assert(parse_lines(lines, clean_empty, name, values, m) == parse_lines(
                cont + rest_rendered,
                clean_empty,
                line_name(first),
                seq![line_value(first)],
                acc,
            ));
            lemma_parse_continuations(cont, rest_rendered, clean_empty, k0, seq![ls0[0]], acc);
            assert(seq![ls0[0]] + cont =~= ls0);
            lemma_parse_rendered(rest_entries, clean_empty, k0, v0, ls0, acc);
            assert(flush_entry(acc, k0, ls0, clean_empty) == acc.insert(k0, v0));
        }
    }
}

/// Splitting the serialized text on newlines yields each entry's physical
/// lines in order.
proof fn lemma_serialize_lines(entries: Seq<(Seq<char>, Seq<char>)>)
    requires
        entries.len() >= 1,
    ensures
        split_on(serialize_spec(entries), '\n') == rendered_lines(entries),
    decreases entries.len(),
{
    let lines = entries.map_values(|e: (Seq<char>, Seq<char>)| filled_line(e.0, e.1));
    if entries.len() == 1 {
        assert(join_with(lines, '\n') == lines[0]);
        assert(lines[0] == filled_line(entries[0].0, entries[0].1));
        assert(rendered_lines(entries) == split_on(filled_line(entries[0].0, entries[0].1), '\n')
            + rendered_lines(entries.subrange(1, entries.len() as int)));
        assert(entries.subrange(1, entries.len() as int).len() == 0);
        assert(rendered_lines(entries.subrange(1, entries.len() as int)) == Seq::<
            Seq<char>,
        >::empty());
        assert(rendered_lines(entries) =~= split_on(serialize_spec(entries), '\n'));
    } else {
        let rest_entries = entries.subrange(1, entries.len() as int);
        lemma_serialize_lines(rest_entries);
        let rest_lines = rest_entries.map_values(|e: (Seq<char>, Seq<char>)| filled_line(e.0, e.1));
        assert(lines.subrange(1, lines.len() as int) =~= rest_lines);
        assert(serialize_spec(entries) == lines[0] + seq!['\n'] + join_with(rest_lines, '\n'));
        let b = seq!['\n'] + serialize_spec(rest_entries);
        assert(lines[0] + b =~= serialize_spec(entries));
        lemma_split_on_concat(lines[0], b, '\n');
        assert(b[0] == '\n');
        assert(b.subrange(1, b.len() as int) =~= serialize_spec(rest_entries));
        assert(split_on(b, '\n') == seq![Seq::<char>::empty()] + split_on(
            serialize_spec(rest_entries),
            '\n',
        ));
        let sa = split_on(lines[0], '\n');
        lemma_split_on_len(lines[0], '\n');
        let sb = split_on(b, '\n');
        assert(sb.first() == Seq::<char>::empty());
        assert(sa.last() + sb.first() =~= sa.last());
        assert(sb.subrange(1, sb.len() as int) =~= split_on(serialize_spec(rest_entries), '\n'));
        assert(split_on(serialize_spec(entries), '\n') =~= sa + split_on(
            serialize_spec(rest_entries),
            '\n',
        ));
        assert(lines[0] == filled_line(entries[0].0, entries[0].1));
        assert(rendered_lines(entries) == split_on(lines[0], '\n') + rendered_lines(rest_entries));
    }
}

/// Shared body of the two round-trip laws.
proof fn lemma_round_trip_general(entries: Seq<(Seq<char>, Seq<char>)>, clean_empty: bool)
    requires
        forall|j: int| 0 <= j < entries.len() ==> wf_key(#[trigger] entries[j].0),
        forall|j: int| 0 <= j < entries.len() ==> wf_value_lines(#[trigger] entries[j].1),
        clean_empty ==> forall|j: int|
            0 <= j < entries.len() ==> (#[trigger] entries[j].1).len() > 0,
    ensures
        parse_text(serialize_spec(entries), clean_empty) == map_of_entries(
            entries,
            Map::<Seq<char>, Seq<char>>::empty(),
        ),
{
    let text = serialize_spec(entries);
    if entries.len() == 0 {
        let lines = entries.map_values(|e: (Seq<char>, Seq<char>)| filled_line(e.0, e.1));
        assert(lines.len() == 0);
        assert(text == Seq::<char>::empty());
        assert(split_on(text, '\n') == seq![Seq::<char>::empty()]);
        let l0 = split_on(text, '\n');
        assert(l0[0] == Seq::<char>::empty());
        assert(!has_char(l0[0], '='));
        assert(l0.subrange(1, 1) =~= Seq::<Seq<char>>::empty());
        let pushed = Seq::<Seq<char>>::empty().push(Seq::<char>::empty());
        assert(parse_lines(
            l0,
            clean_empty,
            Seq::<char>::empty(),
            Seq::<Seq<char>>::empty(),
            Map::<Seq<char>, Seq<char>>::empty(),
        ) == parse_lines(
            l0.subrange(1, 1),
            clean_empty,
            Seq::<char>::empty(),
            pushed,
            Map::<Seq<char>, Seq<char>>::empty(),
        ));
        assert(parse_lines(
            l0.subrange(1, 1),
            clean_empty,
            Seq::<char>::empty(),
            pushed,
            Map::<Seq<char>, Seq<char>>::empty(),
        ) == flush_entry(
            Map::<Seq<char>, Seq<char>>::empty(),
            Seq::<char>::empty(),
            pushed,
            clean_empty,
        ));
    } else {
        lemma_serialize_lines(entries);
        lemma_parse_rendered(
            entries,
            clean_empty,
            Seq::<char>::empty(),
            Seq::<char>::empty(),
            Seq::<Seq<char>>::empty(),
            Map::<Seq<char>, Seq<char>>::empty(),
        );
    }
}

/// Round trip: serializing well-formed entries and parsing the text back
/// (keeping empty values) reproduces exactly the entries' mapping, later
/// entries winning. Values may span several lines, none of which holds an
/// `=` after the first.
pub proof fn lemma_round_trip(entries: Seq<(Seq<char>, Seq<char>)>)
    requires
        forall|j: int| 0 <= j < entries.len() ==> wf_key(#[trigger] entries[j].0),
        forall|j: int| 0 <= j < entries.len() ==> wf_value_lines(#[trigger] entries[j].1),
    ensures
        parse_text(serialize_spec(entries), false) == map_of_entries(
            entries,
            Map::<Seq<char>, Seq<char>>::empty(),
        ),
{
    lemma_round_trip_general(entries, false);
}

/// Round trip on the loading path, where empty values are dropped while
/// parsing: with every value non-empty, the mapping still comes back
/// exactly. Composed with `load_translations_from_map`'s contract, the
/// catalog stored for a language is precisely the mapping handed in.
pub proof fn lemma_round_trip_clean(entries: Seq<(Seq<char>, Seq<char>)>)
    requires
        forall|j: int| 0 <= j < entries.len() ==> wf_key(#[trigger] entries[j].0),
        forall|j: int| 0 <= j < entries.len() ==> wf_value_lines(#[trigger] entries[j].1),
        forall|j: int| 0 <= j < entries.len() ==> (#[trigger] entries[j].1).len() > 0,
    ensures
        parse_text(serialize_spec(entries), true) == map_of_entries(
            entries,
            Map::<Seq<char>, Seq<char>>::empty(),
        ),
{
    lemma_round_trip_general(entries, true);
}

/// Serialize entries, one `key = value` line each.
pub fn serialize_entries(entries: &Vec<(String, String)>) -> (r: String)
    ensures
        r@ == serialize_spec(entries@.map_values(|e: (String, String)| (e.0@, e.1@))),
{
    let ghost ev = entries@.map_values(|e: (String, String)| (e.0@, e.1@));
    let mut lines: Vec<String> = Vec::new();
    let mut i: usize = 0;
    while i < entries.len()
        invariant
            ev == entries@.map_values(|e: (String, String)| (e.0@, e.1@)),
            0 <= i <= ev.len(),
            lines@.map_values(|v: String| v@) == ev.subrange(0, i as int).map_values(
                |e: (Seq<char>, Seq<char>)| filled_line(e.0, e.1),
            ),
        decreases ev.len() - i,
    {
        let ghost lb = lines@;
        lines.push(filled_entry_line(entries[i].0.as_str(), entries[i].1.as_str()));
        proof {
            crate::text::lemma_views_push(lb, lines@.last());
            assert(lines@.map_values(|v: String| v@) =~= ev.subrange(0, i as int + 1).map_values(
                |e: (Seq<char>, Seq<char>)| filled_line(e.0, e.1),
            ));
        }
        i += 1;
    }
    proof {
        reveal_strlit("\n");
        assert("\n"@[0] == '\n');
        assert(ev.subrange(0, ev.len() as int) =~= ev);
    }
    join_char(&lines, "\n")
}

} // verus!
