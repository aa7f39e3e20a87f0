use vstd::prelude::*;
use vstd::string::*;

use crate::is_space;

verus! {

// ---------------------------------------------------------------------------
// Specification-level string helpers.
// ---------------------------------------------------------------------------

/// `s` contains the character `c`.
pub open spec fn has_char(s: Seq<char>, c: char) -> bool {
    exists|i: int| 0 <= i < s.len() && s[i] == c
}

/// Index of the first occurrence of `c` in `s`; `s.len()` when `c` is absent.
pub open spec fn find_char(s: Seq<char>, c: char) -> int
    decreases s.len(),
{
    if s.len() == 0 {
        0
    } else if s[0] == c {
        0
    } else {
        1 + find_char(s.subrange(1, s.len() as int), c)
    }
}

/// Split `s` on every occurrence of `c`; always yields at least one segment,
/// and none of the segments contains `c`.
pub open spec fn split_on(s: Seq<char>, c: char) -> Seq<Seq<char>>
    decreases s.len(),
{
    if s.len() == 0 {
        seq![Seq::<char>::empty()]
    } else if s[0] == c {
        seq![Seq::<char>::empty()] + split_on(s.subrange(1, s.len() as int), c)
    } else {
        let rest = split_on(s.subrange(1, s.len() as int), c);
        seq![seq![s[0]] + rest[0]] + rest.subrange(1, rest.len() as int)
    }
}

/// Join segments with the single character `c` between them.
pub open spec fn join_with(parts: Seq<Seq<char>>, c: char) -> Seq<char>
    decreases parts.len(),
{
    if parts.len() == 0 {
        Seq::<char>::empty()
    } else if parts.len() == 1 {
        parts[0]
    } else {
        parts[0] + seq![c] + join_with(parts.subrange(1, parts.len() as int), c)
    }
}

/// Drop leading whitespace.
pub open spec fn trim_start_spec(s: Seq<char>) -> Seq<char>
    decreases s.len(),
{
    if s.len() == 0 {
        s
    } else if is_space(s[0]) {
        trim_start_spec(s.subrange(1, s.len() as int))
    } else {
        s
    }
}

/// Drop trailing whitespace.
pub open spec fn trim_end_spec(s: Seq<char>) -> Seq<char>
    decreases s.len(),
{
    if s.len() == 0 {
        s
    } else if is_space(s[s.len() - 1]) {
        trim_end_spec(s.subrange(0, s.len() - 1))
    } else {
        s
    }
}

/// Drop leading and trailing whitespace.
pub open spec fn trim_spec(s: Seq<char>) -> Seq<char> {
    trim_end_spec(trim_start_spec(s))
}

/// No whitespace at either end.
pub open spec fn is_trimmed(s: Seq<char>) -> bool {
    s.len() > 0 ==> !is_space(s[0]) && !is_space(s[s.len() - 1])
}

// ---------------------------------------------------------------------------
// Lemmas.
// ---------------------------------------------------------------------------

pub proof fn lemma_find_char(s: Seq<char>, c: char)
    ensures
        0 <= find_char(s, c) <= s.len(),
        has_char(s, c) ==> find_char(s, c) < s.len() && s[find_char(s, c)] == c,
        forall|j: int| 0 <= j < find_char(s, c) ==> s[j] != c,
        !has_char(s, c) ==> find_char(s, c) == s.len(),
    decreases s.len(),
{
    if s.len() == 0 {
    } else if s[0] == c {
    } else {
        let rest = s.subrange(1, s.len() as int);
        lemma_find_char(rest, c);
        if has_char(s, c) {
            let i = choose|i: int| 0 <= i < s.len() && s[i] == c;
            assert(rest[i - 1] == c);
            assert(has_char(rest, c));
        }
        if has_char(rest, c) {
            let i = choose|i: int| 0 <= i < rest.len() && rest[i] == c;
            assert(s[i + 1] == c);
            assert(has_char(s, c));
        }
        assert forall|j: int| 0 <= j < find_char(s, c) implies s[j] != c by {
            if j > 0 {
                assert(rest[j - 1] == s[j]);
            }
        }
    }
}

pub proof fn lemma_split_on_len(s: Seq<char>, c: char)
    ensures
        split_on(s, c).len() >= 1,
    decreases s.len(),
{
    if s.len() == 0 {
    } else {
        lemma_split_on_len(s.subrange(1, s.len() as int), c);
    }
}

/// Splitting a concatenation: the two splits meet in the middle segment.
pub proof fn lemma_split_on_concat(a: Seq<char>, b: Seq<char>, c: char)
    ensures
        ({
            let sa = split_on(a, c);
            let sb = split_on(b, c);
            split_on(a + b, c) == sa.subrange(0, sa.len() - 1) + seq![sa.last() + sb.first()]
                + sb.subrange(1, sb.len() as int)
        }),
    decreases a.len(),
{
    lemma_split_on_len(a, c);
    lemma_split_on_len(b, c);
    let sa = split_on(a, c);
    let sb = split_on(b, c);
    if a.len() == 0 {
        assert(a + b =~= b);
        assert(sa == seq![Seq::<char>::empty()]);
        assert(sa.subrange(0, sa.len() - 1) =~= Seq::<Seq<char>>::empty());
        assert(sa.last() + sb.first() =~= sb.first());
        assert(sa.subrange(0, sa.len() - 1) + seq![sa.last() + sb.first()]
            + sb.subrange(1, sb.len() as int) =~= sb);
    } else {
        let a1 = a.subrange(1, a.len() as int);
        lemma_split_on_concat(a1, b, c);
        lemma_split_on_len(a1, c);
        let sa1 = split_on(a1, c);
        let ab = a + b;
        assert(ab[0] == a[0]);
        assert(ab.subrange(1, ab.len() as int) =~= a1 + b);
        if a[0] == c {
            assert(sa == seq![Seq::<char>::empty()] + sa1);
            assert(split_on(ab, c) == seq![Seq::<char>::empty()] + split_on(a1 + b, c));
            assert(sa.last() == sa1.last());
            assert(sa.subrange(0, sa.len() - 1) =~= seq![Seq::<char>::empty()] + sa1.subrange(
                0,
                sa1.len() - 1,
            ));
            assert(split_on(ab, c) =~= sa.subrange(0, sa.len() - 1) + seq![sa.last() + sb.first()]
                + sb.subrange(1, sb.len() as int));
        } else {
            let r = split_on(a1 + b, c);
            lemma_split_on_len(a1 + b, c);
            assert(split_on(ab, c) == seq![seq![a[0]] + r[0]] + r.subrange(1, r.len() as int));
            assert(sa == seq![seq![a[0]] + sa1[0]] + sa1.subrange(1, sa1.len() as int));
            if sa1.len() == 1 {
                assert(r[0] == sa1.last() + sb.first());
                assert(sa.last() == seq![a[0]] + sa1[0]);
                assert(seq![a[0]] + r[0] =~= sa.last() + sb.first());
                assert(r.subrange(1, r.len() as int) =~= sb.subrange(1, sb.len() as int));
                assert(sa.subrange(0, sa.len() - 1) =~= Seq::<Seq<char>>::empty());
                assert(split_on(ab, c) =~= sa.subrange(0, sa.len() - 1) + seq![sa.last()
                    + sb.first()] + sb.subrange(1, sb.len() as int));
            } else {
                assert(r[0] == sa1[0]);
                assert(sa.subrange(0, sa.len() - 1) =~= seq![seq![a[0]] + sa1[0]] + sa1.subrange(
                    0,
                    sa1.len() - 1,
                ).subrange(1, sa1.len() - 1));
                assert(sa.last() == sa1.last());
                assert(split_on(ab, c) =~= sa.subrange(0, sa.len() - 1) + seq![sa.last()
                    + sb.first()] + sb.subrange(1, sb.len() as int));
            }
        }
    }
}

/// No segment of a split contains the separator.
pub proof fn lemma_split_on_segments_free(s: Seq<char>, c: char)
    ensures
        forall|k: int|
            0 <= k < split_on(s, c).len() ==> !has_char(#[trigger] split_on(s, c)[k], c),
    decreases s.len(),
{
    if s.len() == 0 {
    } else {
        let s1 = s.subrange(1, s.len() as int);
        lemma_split_on_segments_free(s1, c);
        lemma_split_on_len(s1, c);
        let rest = split_on(s1, c);
        if s[0] == c {
        } else {
            assert forall|k: int|
                0 <= k < split_on(s, c).len() implies !has_char(
                #[trigger] split_on(s, c)[k],
                c,
            ) by {
                if k == 0 {
                    assert(!has_char(rest[0], c));
                    let seg = seq![s[0]] + rest[0];
                    assert forall|i: int| 0 <= i < seg.len() implies seg[i] != c by {
                        if i > 0 {
                            assert(rest[0][i - 1] == seg[i]);
                        }
                    }
                } else {
                    assert(split_on(s, c)[k] == rest[k]);
                }
            }
        }
    }
}

/// Joining a split restores the text that was split.
pub proof fn lemma_join_split(s: Seq<char>, c: char)
    ensures
        join_with(split_on(s, c), c) == s,
    decreases s.len(),
{
    lemma_split_on_len(s, c);
    if s.len() == 0 {
    } else {
        let s1 = s.subrange(1, s.len() as int);
        lemma_join_split(s1, c);
        lemma_split_on_len(s1, c);
        let rest = split_on(s1, c);
        if s[0] == c {
            assert(split_on(s, c).subrange(1, split_on(s, c).len() as int) =~= rest);
            assert(join_with(split_on(s, c), c) =~= Seq::<char>::empty() + seq![c] + s1);
            assert(Seq::<char>::empty() + seq![c] + s1 =~= s);
        } else {
            if rest.len() == 1 {
                assert(split_on(s, c) == seq![seq![s[0]] + rest[0]]);
                assert(join_with(rest, c) == rest[0]);
                assert(seq![s[0]] + rest[0] =~= s);
            } else {
                let sp = split_on(s, c);
                assert(sp.subrange(1, sp.len() as int) =~= rest.subrange(1, rest.len() as int));
                assert(join_with(sp, c) == sp[0] + seq![c] + join_with(
                    rest.subrange(1, rest.len() as int),
                    c,
                ));
                assert(join_with(rest, c) == rest[0] + seq![c] + join_with(
                    rest.subrange(1, rest.len() as int),
                    c,
                ));
                assert(seq![s[0]] + rest[0] + seq![c] + join_with(
                    rest.subrange(1, rest.len() as int),
                    c,
                ) =~= seq![s[0]] + (rest[0] + seq![c] + join_with(
                    rest.subrange(1, rest.len() as int),
                    c,
                )));
                assert(seq![s[0]] + s1 =~= s);
            }
        }
    }
}

/// Splitting a join restores the segments, when no segment contains the
/// separator.
pub proof fn lemma_split_join(parts: Seq<Seq<char>>, c: char)
    requires
        parts.len() >= 1,
        forall|k: int| 0 <= k < parts.len() ==> !has_char(#[trigger] parts[k], c),
    ensures
        split_on(join_with(parts, c), c) == parts,
    decreases parts.len(),
{
    if parts.len() == 1 {
        lemma_split_free(parts[0], c);
        assert(split_on(join_with(parts, c), c) =~= parts);
    } else {
        let rest = parts.subrange(1, parts.len() as int);
        lemma_split_join(rest, c);
        lemma_split_free(parts[0], c);
        lemma_split_on_len(join_with(rest, c), c);
        let j = join_with(parts, c);
        assert(j == parts[0] + seq![c] + join_with(rest, c));
        lemma_split_on_concat(parts[0], seq![c] + join_with(rest, c), c);
        let tail = seq![c] + join_with(rest, c);
        assert(tail[0] == c);
        assert(tail.subrange(1, tail.len() as int) =~= join_with(rest, c));
        assert(split_on(tail, c) == seq![Seq::<char>::empty()] + rest);
        let sa = split_on(parts[0], c);
        assert(sa == seq![parts[0]]);
        assert(parts[0] + tail =~= j);
        assert(split_on(j, c) =~= sa.subrange(0, sa.len() - 1) + seq![sa.last() + Seq::<
            char,
        >::empty()] + (seq![Seq::<char>::empty()] + rest).subrange(
            1,
            (seq![Seq::<char>::empty()] + rest).len() as int,
        ));
        assert(sa.last() + Seq::<char>::empty() =~= parts[0]);
        assert((seq![Seq::<char>::empty()] + rest).subrange(
            1,
            (seq![Seq::<char>::empty()] + rest).len() as int,
        ) =~= rest);
        assert(split_on(j, c) =~= parts);
    }
}

/// A text without the separator splits into itself alone.
pub proof fn lemma_split_free(s: Seq<char>, c: char)
    requires
        !has_char(s, c),
    ensures
        split_on(s, c) == seq![s],
    decreases s.len(),
{
    if s.len() == 0 {
        assert(split_on(s, c) == seq![Seq::<char>::empty()]);
        assert(split_on(s, c) =~~= seq![s]);
    } else {
        let s1 = s.subrange(1, s.len() as int);
        assert(s[0] != c);
        assert forall|i: int| 0 <= i < s1.len() implies s1[i] != c by {
            assert(s[i + 1] == s1[i]);
        }
        lemma_split_free(s1, c);
        assert(split_on(s, c) == seq![seq![s[0]] + s1]);
        assert(seq![s[0]] + s1 =~= s);
        assert(split_on(s, c) =~= seq![s]);
    }
}

// ---------------------------------------------------------------------------
// Executable counterparts.
// ---------------------------------------------------------------------------

/// Pushing onto a sequence of strings commutes with taking views.
pub proof fn lemma_views_push(s: Seq<String>, x: String)
    ensures
        (s.push(x)).map_values(|v: String| v@) == s.map_values(|v: String| v@).push(x@),
{
    assert(forall|j: int|
        0 <= j < s.len() ==> #[trigger] (s.push(x))[j] == s[j]);
    assert((s.push(x))[s.len() as int] == x);
    assert((s.push(x)).map_values(|v: String| v@) =~= s.map_values(|v: String| v@).push(x@));
}

/// Whether `c` is treated as whitespace by the trimming rule.
pub fn is_space_char(c: char) -> (r: bool)
    ensures
        r == is_space(c),
{
    let n = c as u32;
    n == 0x09 || n == 0x0A || n == 0x0B || n == 0x0C || n == 0x0D || n == 0x20 || n == 0x85 || n
        == 0xA0 || n == 0x1680 || (0x2000 <= n && n <= 0x200A) || n == 0x2028 || n == 0x2029 || n
        == 0x202F || n == 0x205F || n == 0x3000
}

/// Whether `s` contains the character `c`.
pub fn str_has_char(s: &str, c: char) -> (r: bool)
    ensures
        r == has_char(s@, c),
{
    let n = s.unicode_len();
    let mut i: usize = 0;
    while i < n
        invariant
            n == s@.len(),
            0 <= i <= n,
            forall|j: int| 0 <= j < i ==> s@[j] != c,
        decreases n - i,
    {
        if s.get_char(i) == c {
            return true;
        }
        i += 1;
    }
    false
}

/// First index of `c` in `s`; `s@.len()` when absent.
pub fn str_find_char(s: &str, c: char) -> (r: usize)
    ensures
        r as int == find_char(s@, c),
{
    let n = s.unicode_len();
    let mut i: usize = 0;
    while i < n
        invariant
            n == s@.len(),
            0 <= i <= n,
            forall|j: int| 0 <= j < i ==> s@[j] != c,
        decreases n - i,
    {
        if s.get_char(i) == c {
            proof {
                lemma_find_char(s@, c);
                assert(has_char(s@, c));
            }
            return i;
        }
        i += 1;
    }
    proof {
        lemma_find_char(s@, c);
        assert(!has_char(s@, c));
    }
    n
}

/// Copy of `s` without leading and trailing whitespace.
pub fn trim_str(s: &str) -> (r: String)
    ensures
        r@ == trim_spec(s@),
{
    let n = s.unicode_len();
    let mut start: usize = 0;
    while start < n && is_space_char(s.get_char(start))
        invariant
            n == s@.len(),
            0 <= start <= n,
            forall|j: int| 0 <= j < start ==> is_space(s@[j]),
        decreases n - start,
    {
        start += 1;
    }
    let mut end: usize = n;
    while end > start && is_space_char(s.get_char(end - 1))
        invariant
            n == s@.len(),
            start <= end <= n,
            forall|j: int| end <= j < n ==> is_space(s@[j]),
        decreases end,
    {
        end -= 1;
    }
    proof {
        lemma_trim_start_at(s@, start as int);
        let t = s@.subrange(start as int, n as int);
        lemma_trim_end_at(t, end - start);
        assert(t.subrange(0, end - start) =~= s@.subrange(start as int, end as int));
    }
    s.substring_char(start, end).to_owned()
}

pub proof fn lemma_trim_start_at(s: Seq<char>, i: int)
    requires
        0 <= i <= s.len(),
        forall|j: int| 0 <= j < i ==> is_space(s[j]),
        i < s.len() ==> !is_space(s[i]),
    ensures
        trim_start_spec(s) == s.subrange(i, s.len() as int),
    decreases i,
{
    if i == 0 {
        assert(s.subrange(0, s.len() as int) =~= s);
    } else {
        let s1 = s.subrange(1, s.len() as int);
        lemma_trim_start_at(s1, i - 1);
        assert(s1.subrange(i - 1, s1.len() as int) =~= s.subrange(i, s.len() as int));
    }
}

pub proof fn lemma_trim_end_at(s: Seq<char>, i: int)
    requires
        0 <= i <= s.len(),
        forall|j: int| i <= j < s.len() ==> is_space(s[j]),
        i > 0 ==> !is_space(s[i - 1]),
    ensures
        trim_end_spec(s) == s.subrange(0, i),
    decreases s.len() - i,
{
    if i == s.len() {
        lemma_trim_end_of_trimmed(s);
    } else {
        let s1 = s.subrange(0, s.len() - 1);
        lemma_trim_end_at(s1, i);
        assert(s1.subrange(0, i) =~= s.subrange(0, i));
    }
}

/// Appending one whitespace character does not change the trimmed text.
pub proof fn lemma_trim_push_space(s: Seq<char>, c: char)
    requires
        is_space(c),
    ensures
        trim_spec(s.push(c)) == trim_spec(s),
    decreases s.len(),
{
    let t = s.push(c);
    if s.len() == 0 {
        assert(t[0] == c);
        assert(t.subrange(1, 1) =~= Seq::<char>::empty());
        assert(trim_start_spec(t) == trim_start_spec(t.subrange(1, 1)));
        assert(trim_start_spec(Seq::<char>::empty()) == Seq::<char>::empty());
    } else if is_space(s[0]) {
        let s1 = s.subrange(1, s.len() as int);
        lemma_trim_push_space(s1, c);
        assert(t[0] == s[0]);
        assert(t.subrange(1, t.len() as int) =~= s1.push(c));
        assert(trim_start_spec(t) == trim_start_spec(s1.push(c)));
        assert(trim_start_spec(s) == trim_start_spec(s1));
    } else {
        assert(t[0] == s[0]);
        assert(trim_start_spec(t) == t);
        assert(trim_start_spec(s) == s);
        assert(t[t.len() - 1] == c);
        assert(t.subrange(0, t.len() - 1) =~= s);
        assert(trim_end_spec(t) == trim_end_spec(s));
    }
}

/// Helper: when the last character is not whitespace (or the text is empty up
/// to `i == len`), nothing is dropped. Stated for the exact boundary case.
proof fn lemma_trim_end_of_trimmed(s: Seq<char>)
    requires
        s.len() > 0 ==> !is_space(s[s.len() - 1]),
    ensures
        trim_end_spec(s) == s.subrange(0, s.len() as int),
{
    assert(s.subrange(0, s.len() as int) =~= s);
}

/// Split `s` on the character `sep`.
pub fn split_str(s: &str, sep: char) -> (r: Vec<String>)
    ensures
        r@.map_values(|p: String| p@) == split_on(s@, sep),
{
    let n = s.unicode_len();
    let mut parts: Vec<String> = Vec::new();
    let mut seg_start: usize = 0;
    let mut i: usize = 0;
    proof {
        assert(s@.subrange(0, 0) =~= Seq::<char>::empty());
        assert(parts@.map_values(|p: String| p@).push(s@.subrange(0, 0)) =~~= split_on(
            s@.subrange(0, 0),
            sep,
        ));
    }
    while i < n
        invariant
            n == s@.len(),
            0 <= seg_start <= i <= n,
            forall|j: int| seg_start <= j < i ==> s@[j] != sep,
            parts@.map_values(|p: String| p@).push(s@.subrange(seg_start as int, i as int))
                == split_on(s@.subrange(0, i as int), sep),
        decreases n - i,
    {
        let ghost pre = s@.subrange(0, i as int);
        let ghost ext = s@.subrange(0, i as int + 1);
        let ghost sa = split_on(pre, sep);
        let ghost views_before = parts@.map_values(|p: String| p@);
        proof {
            lemma_split_on_len(pre, sep);
            assert(sa == views_before.push(s@.subrange(seg_start as int, i as int)));
            assert(sa.last() == s@.subrange(seg_start as int, i as int));
            assert(sa.subrange(0, sa.len() - 1) =~= views_before);
        }
        let ch = s.get_char(i);
        if ch == sep {
            parts.push(s.substring_char(seg_start, i).to_owned());
            proof {
                lemma_split_on_concat(pre, seq![sep], sep);
                assert(pre + seq![sep] =~= ext);
                assert(seq![sep].subrange(1, 1) =~= Seq::<char>::empty());
                assert(split_on(seq![sep], sep) == seq![Seq::<char>::empty()] + split_on(
                    seq![sep].subrange(1, 1),
                    sep,
                ));
                assert(split_on(seq![sep].subrange(1, 1), sep) == seq![Seq::<char>::empty()]);
                assert(split_on(seq![sep], sep) =~= seq![
                    Seq::<char>::empty(),
                    Seq::<char>::empty(),
                ]);
                let sb = seq![Seq::<char>::empty(), Seq::<char>::empty()];
                assert(sa.last() + sb.first() =~= sa.last());
                assert(sb.subrange(1, 2) =~= seq![Seq::<char>::empty()]);
                assert(split_on(ext, sep) =~= sa.push(Seq::<char>::empty()));
                assert(parts@.map_values(|p: String| p@) =~= sa);
                assert(s@.subrange(i as int + 1, i as int + 1) =~= Seq::<char>::empty());
                assert(parts@.map_values(|p: String| p@).push(
                    s@.subrange(i as int + 1, i as int + 1),
                ) == split_on(ext, sep));
            }
            seg_start = i + 1;
        } else {
            proof {
                lemma_split_on_concat(pre, seq![s@[i as int]], sep);
                assert(pre + seq![s@[i as int]] =~= ext);
                assert(!has_char(seq![s@[i as int]], sep));
                lemma_split_free(seq![s@[i as int]], sep);
                let sb = seq![seq![s@[i as int]]];
                assert(sb.subrange(1, 1) =~= Seq::<Seq<char>>::empty());
                assert(sa.last() + sb.first() =~= s@.subrange(seg_start as int, i as int + 1));
                assert(split_on(ext, sep) =~= views_before.push(
                    s@.subrange(seg_start as int, i as int + 1),
                ));
            }
        }
        i += 1;
    }
    parts.push(s.substring_char(seg_start, n).to_owned());
    proof {
        assert(s@.subrange(0, n as int) =~= s@);
        assert(parts@.map_values(|p: String| p@) =~= split_on(s@, sep));
    }
    parts
}

pub proof fn lemma_join_with_push(parts: Seq<Seq<char>>, x: Seq<char>, c: char)
    requires
        parts.len() >= 1,
    ensures
        join_with(parts.push(x), c) == join_with(parts, c) + seq![c] + x,
    decreases parts.len(),
{
    if parts.len() == 1 {
        let p = parts.push(x);
        assert(p.subrange(1, p.len() as int) =~= seq![x]);
        assert(join_with(seq![x], c) == x);
        assert(join_with(p, c) == parts[0] + seq![c] + x);
    } else {
        let rest = parts.subrange(1, parts.len() as int);
        lemma_join_with_push(rest, x, c);
        let p = parts.push(x);
        assert(p.subrange(1, p.len() as int) =~= rest.push(x));
        assert(join_with(p, c) == parts[0] + seq![c] + join_with(rest.push(x), c));
        assert(parts[0] + seq![c] + (join_with(rest, c) + seq![c] + x) =~= (parts[0] + seq![c]
            + join_with(rest, c)) + seq![c] + x);
    }
}

/// Join parts with a one-character separator.
pub fn join_char(parts: &Vec<String>, sep: &str) -> (r: String)
    requires
        sep@.len() == 1,
    ensures
        r@ == join_with(parts@.map_values(|p: String| p@), sep@[0]),
{
    let ghost views = parts@.map_values(|p: String| p@);
    if parts.len() == 0 {
        let out = String::new();
        return out;
    }
    let mut out = parts[0].clone();
    let mut i: usize = 1;
    while i < parts.len()
        invariant
            views == parts@.map_values(|p: String| p@),
            1 <= i <= views.len(),
            sep@.len() == 1,
            out@ == join_with(views.subrange(0, i as int), sep@[0]),
        decreases parts@.len() - i,
    {
        out.append(sep);
        out.append(parts[i].as_str());
        proof {
            let pre = views.subrange(0, i as int);
            lemma_join_with_push(pre, views[i as int], sep@[0]);
            assert(pre.push(views[i as int]) =~= views.subrange(0, i as int + 1));
        }
        i += 1;
    }
    proof {
        assert(views.subrange(0, views.len() as int) =~= views);
    }
    out
}

} // verus!
