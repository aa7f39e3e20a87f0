use vstd::prelude::*;
use vstd::string::*;

use crate::catalog::Catalog;
use crate::codec::{
    acc_after, escape_eq, filled_entry_line, filled_line, flush_entry, lemma_escape_keeps_free,
    lemma_filled_line_splits, lemma_parse_concat, lemma_pend_nonempty,
    lemma_placeholder_line_splits, lemma_trim_of_trimmed, line_name, line_value, parse_lines,
    parse_text, parse_translations, pend_after, placeholder_entry_line, placeholder_line, wf_key,
    wf_value,
};
use crate::text::{
    has_char, is_trimmed, join_char, join_with, lemma_join_with_push, lemma_split_join,
    lemma_split_on_concat, lemma_trim_push_space, lemma_views_push, split_on,
};

verus! {

// ---------------------------------------------------------------------------
// The synchronizer: diff discovered keys against a language's existing
// catalog and emit one line per missing key, deduplicating within the run.
// ---------------------------------------------------------------------------

/// The ordered subsequence of `discovered` whose keys are not in `seen`,
/// each kept once.
pub open spec fn missing_keys(discovered: Seq<Seq<char>>, seen: Set<Seq<char>>) -> Seq<Seq<char>>
    decreases discovered.len(),
{
    if discovered.len() == 0 {
        Seq::<Seq<char>>::empty()
    } else {
        let rest = discovered.subrange(1, discovered.len() as int);
        if seen.contains(discovered[0]) {
            missing_keys(rest, seen)
        } else {
            seq![discovered[0]] + missing_keys(rest, seen.insert(discovered[0]))
        }
    }
}

/// The catalog line written for each new key: the key doubles as its own
/// translation for the default language, and is left blank otherwise.
pub open spec fn sync_lines(keys: Seq<Seq<char>>, is_default: bool) -> Seq<Seq<char>> {
    keys.map_values(
        |k: Seq<char>|
            if is_default {
                filled_line(k, k)
            } else {
                placeholder_line(k)
            },
    )
}

/// A second run over keys already absorbed finds nothing to add.
///
/// Law: synchronizing the same discovered keys against a key set that
/// already includes everything the first run emitted yields no entries.
pub proof fn lemma_sync_idempotent(discovered: Seq<Seq<char>>, seen: Set<Seq<char>>)
    ensures
        missing_keys(discovered, seen.union(missing_keys(discovered, seen).to_set()))
            == Seq::<Seq<char>>::empty(),
    decreases discovered.len(),
{
    if discovered.len() == 0 {
    } else {
        let rest = discovered.subrange(1, discovered.len() as int);
        let m = missing_keys(discovered, seen);
        if seen.contains(discovered[0]) {
            lemma_sync_idempotent(rest, seen);
            assert(seen.union(m.to_set()).contains(discovered[0]));
        } else {
            let m1 = missing_keys(rest, seen.insert(discovered[0]));
            lemma_sync_idempotent(rest, seen.insert(discovered[0]));
            assert(m == seq![discovered[0]] + m1);
            assert((seq![discovered[0]] + m1)[0] == discovered[0]);
            assert(m.contains(discovered[0]));
            assert(m.to_set().contains(discovered[0]));
            assert(seen.union(m.to_set()).contains(discovered[0]));
            assert(seen.union(m.to_set()) =~= seen.insert(discovered[0]).union(m1.to_set())) by {
                assert forall|k: Seq<char>| m.to_set().contains(k) <==> (k == discovered[0]
                    || m1.to_set().contains(k)) by {
                    if m.to_set().contains(k) {
                        let i = choose|i: int| 0 <= i < m.len() && m[i] == k;
                        if i > 0 {
                            assert(m1[i - 1] == k);
                            assert(m1.contains(k));
                        }
                    }
                    if m1.to_set().contains(k) {
                        let i = choose|i: int| 0 <= i < m1.len() && m1[i] == k;
                        assert(m[i + 1] == k);
                        assert(m.contains(k));
                    }
                    if k == discovered[0] {
                        assert(m[0] == k);
                        assert(m.contains(k));
                    }
                }
            }
        }
    }
}

/// The mapping the appended block describes: each key bound to itself for
/// the default language, and to the empty template otherwise.
pub open spec fn seeded_map(
    keys: Seq<Seq<char>>,
    is_default: bool,
    m: Map<Seq<char>, Seq<char>>,
) -> Map<Seq<char>, Seq<char>>
    decreases keys.len(),
{
    if keys.len() == 0 {
        m
    } else {
        seeded_map(
            keys.subrange(1, keys.len() as int),
            is_default,
            m.insert(
                keys[0],
                if is_default {
                    keys[0]
                } else {
                    Seq::<char>::empty()
                },
            ),
        )
    }
}

/// An extra empty value line changes nothing when the entry is kept.
proof fn lemma_flush_extra_empty(
    m: Map<Seq<char>, Seq<char>>,
    name: Seq<char>,
    values: Seq<Seq<char>>,
)
    requires
        name.len() > 0 ==> values.len() >= 1,
    ensures
        flush_entry(m, name, values.push(Seq::<char>::empty()), false) == flush_entry(
            m,
            name,
            values,
            false,
        ),
{
    if name.len() > 0 {
        lemma_join_with_push(values, Seq::<char>::empty(), '\n');
        assert(join_with(values, '\n') + seq!['\n'] + Seq::<char>::empty() =~= join_with(
            values,
            '\n',
        ).push('\n'));
        lemma_trim_push_space(join_with(values, '\n'), '\n');
    }
}

/// Parsing the synchronizer's lines plus the trailing blank line: every
/// line closes the pending entry and opens the next one.
proof fn lemma_parse_sync_block(
    keys: Seq<Seq<char>>,
    is_default: bool,
    name: Seq<char>,
    values: Seq<Seq<char>>,
    m: Map<Seq<char>, Seq<char>>,
)
    requires
        forall|j: int| 0 <= j < keys.len() ==> wf_key(#[trigger] keys[j]),
        is_default ==> forall|j: int| 0 <= j < keys.len() ==> wf_value(#[trigger] keys[j]),
        name.len() == 0 ==> values.len() == 0,
        name.len() > 0 ==> values.len() == 1 && is_trimmed(values[0]),
    ensures
        parse_lines(
            sync_lines(keys, is_default).push(Seq::<char>::empty()),
            false,
            name,
            values,
            m,
        ) == seeded_map(keys, is_default, flush_entry(m, name, values, false)),
    decreases keys.len(),
{
    let lines = sync_lines(keys, is_default).push(Seq::<char>::empty());
    if keys.len() == 0 {
        assert(lines.len() == 1);
        assert(lines[0] == Seq::<char>::empty());
        assert(!has_char(lines[0], '='));
        assert(lines.subrange(1, 1) =~= Seq::<Seq<char>>::empty());
        let pushed = values.push(Seq::<char>::empty());
        assert(parse_lines(lines, false, name, values, m) == parse_lines(
            lines.subrange(1, 1),
            false,
            name,
            pushed,
            m,
        ));
        assert(parse_lines(lines.subrange(1, 1), false, name, pushed, m) == flush_entry(
            m,
            name,
            pushed,
            false,
        ));
        lemma_flush_extra_empty(m, name, values);
    } else {
        let k0 = keys[0];
        let v0: Seq<char> = if is_default {
            k0
        } else {
            Seq::<char>::empty()
        };
        let line0 = lines[0];
        assert(line0 == sync_lines(keys, is_default)[0]);
        if is_default {
            assert(line0 == filled_line(k0, k0));
            lemma_filled_line_splits(k0, k0);
        } else {
            assert(line0 == placeholder_line(k0));
            lemma_placeholder_line_splits(k0);
        }
        assert(has_char(line0, '='));
        assert(line_name(line0) == k0);
        assert(line_value(line0) == v0);
        let rest_keys = keys.subrange(1, keys.len() as int);
        assert forall|j: int| 0 <= j < rest_keys.len() implies wf_key(#[trigger] rest_keys[j]) by {
            assert(rest_keys[j] == keys[j + 1]);
        }
        if is_default {
            assert forall|j: int| 0 <= j < rest_keys.len() implies wf_value(
                #[trigger] rest_keys[j],
            ) by {
                assert(rest_keys[j] == keys[j + 1]);
            }
        }
        assert(lines.subrange(1, lines.len() as int) =~= sync_lines(rest_keys, is_default).push(
            Seq::<char>::empty(),
        ));
        assert(is_trimmed(v0));
        assert(join_with(seq![v0], '\n') == v0);
        lemma_trim_of_trimmed(v0);
        let rest_lines = lines.subrange(1, lines.len() as int);
        let acc = flush_entry(m, name, values, false);
        assert(seeded_map(keys, is_default, acc) == seeded_map(
            rest_keys,
            is_default,
            acc.insert(k0, v0),
        ));
        if name.len() == 0 {
            assert(parse_lines(lines, false, name, values, m) == parse_lines(
                rest_lines,
                false,
                line_name(line0),
                values.push(line_value(line0)),
                m,
            ));
            assert(values.push(line_value(line0)) =~= seq![v0]);
            lemma_parse_sync_block(rest_keys, is_default, k0, seq![v0], m);
            assert(acc == m);
            assert(flush_entry(m, k0, seq![v0], false) == m.insert(k0, v0));
        } else {
            assert(parse_lines(lines, false, name, values, m) == parse_lines(
                rest_lines,
                false,
                line_name(line0),
                seq![line_value(line0)],
                acc,
            ));
            lemma_parse_sync_block(rest_keys, is_default, k0, seq![v0], acc);
            assert(flush_entry(acc, k0, seq![v0], false) == acc.insert(k0, v0));
        }
    }
}

/// No synchronizer line holds a newline.
proof fn lemma_sync_lines_newline_free(keys: Seq<Seq<char>>, is_default: bool)
    requires
        forall|j: int| 0 <= j < keys.len() ==> wf_key(#[trigger] keys[j]),
    ensures
        forall|j: int|
            0 <= j < keys.len() ==> !has_char(#[trigger] sync_lines(keys, is_default)[j], '\n'),
{
    assert forall|j: int| 0 <= j < keys.len() implies !has_char(
        #[trigger] sync_lines(keys, is_default)[j],
        '\n',
    ) by {
        let k = keys[j];
        let line = sync_lines(keys, is_default)[j];
        lemma_escape_keeps_free(k, '\n');
        if has_char(line, '\n') {
            let i = choose|i: int| 0 <= i < line.len() && line[i] == '\n';
            let e = escape_eq(k);
            if is_default {
                assert(line == filled_line(k, k));
                if i < e.len() {
                    assert(e[i] == '\n');
                } else if i < e.len() + 3 {
                    assert(line[i] == ' ' || line[i] == '=');
                } else {
                    assert(k[i - e.len() - 3] == '\n');
                }
            } else {
                assert(line == placeholder_line(k));
                if i < e.len() {
                    assert(e[i] == '\n');
                } else {
                    assert(line[i] == ' ' || line[i] == '=');
                }
            }
            assert(false);
        }
    }
}

/// The set a key sequence covers, taken one element at a time.
proof fn lemma_to_set_unfold(s: Seq<Seq<char>>)
    requires
        s.len() > 0,
    ensures
        s.to_set() == s.subrange(1, s.len() as int).to_set().insert(s[0]),
{
    let rest = s.subrange(1, s.len() as int);
    assert forall|k: Seq<char>| s.to_set().contains(k) <==> (rest.to_set().contains(k) || k
        == s[0]) by {
        if s.contains(k) {
            let i = choose|i: int| 0 <= i < s.len() && s[i] == k;
            if i > 0 {
                assert(rest[i - 1] == k);
            }
        }
        if rest.contains(k) {
            let i = choose|i: int| 0 <= i < rest.len() && rest[i] == k;
            assert(s[i + 1] == k);
        }
        if k == s[0] {
            assert(s.contains(k));
        }
    }
    assert(s.to_set() =~= rest.to_set().insert(s[0]));
}

/// Every missing key is one of the discovered keys.
proof fn lemma_missing_in_discovered(discovered: Seq<Seq<char>>, seen: Set<Seq<char>>)
    ensures
        forall|i: int|
            0 <= i < missing_keys(discovered, seen).len() ==> discovered.contains(
                #[trigger] missing_keys(discovered, seen)[i],
            ),
    decreases discovered.len(),
{
    if discovered.len() == 0 {
    } else {
        let rest = discovered.subrange(1, discovered.len() as int);
        let m = missing_keys(discovered, seen);
        assert forall|i: int| 0 <= i < m.len() implies discovered.contains(#[trigger] m[i]) by {
            if seen.contains(discovered[0]) {
                lemma_missing_in_discovered(rest, seen);
                assert(m == missing_keys(rest, seen));
                assert(missing_keys(rest, seen)[i] == m[i]);
                assert(rest.contains(m[i]));
                let j = choose|j: int| 0 <= j < rest.len() && rest[j] == m[i];
                assert(discovered[j + 1] == m[i]);
            } else {
                let m1 = missing_keys(rest, seen.insert(discovered[0]));
                assert(m == seq![discovered[0]] + m1);
                if i == 0 {
                    assert(m[0] == discovered[0]);
                } else {
                    lemma_missing_in_discovered(rest, seen.insert(discovered[0]));
                    assert(m[i] == m1[i - 1]);
                    assert(rest.contains(m1[i - 1]));
                    let j = choose|j: int| 0 <= j < rest.len() && rest[j] == m[i];
                    assert(discovered[j + 1] == m[i]);
                }
            }
        }
    }
}

/// Once a key set covers the first run's starting set and everything that
/// run emitted, a run against it emits nothing.
proof fn lemma_missing_superset(
    discovered: Seq<Seq<char>>,
    s1: Set<Seq<char>>,
    s2: Set<Seq<char>>,
)
    requires
        s1.union(missing_keys(discovered, s1).to_set()).subset_of(s2),
    ensures
        missing_keys(discovered, s2) == Seq::<Seq<char>>::empty(),
    decreases discovered.len(),
{
    if discovered.len() == 0 {
    } else {
        let d0 = discovered[0];
        let rest = discovered.subrange(1, discovered.len() as int);
        let m = missing_keys(discovered, s1);
        if s1.contains(d0) {
            assert(s2.contains(d0));
            lemma_missing_superset(rest, s1, s2);
        } else {
            let m1 = missing_keys(rest, s1.insert(d0));
            assert(m == seq![d0] + m1);
            assert(m[0] == d0);
            assert(m.contains(d0));
            assert(m.to_set().contains(d0));
            assert(s2.contains(d0));
            assert(s1.insert(d0).union(m1.to_set()).subset_of(s2)) by {
                assert forall|k: Seq<char>|
                    s1.insert(d0).union(m1.to_set()).contains(k) implies s2.contains(k) by {
                    if m1.to_set().contains(k) {
                        let i = choose|i: int| 0 <= i < m1.len() && m1[i] == k;
                        assert(m[i + 1] == k);
                        assert(m.contains(k));
                        assert(s1.union(m.to_set()).contains(k));
                    } else {
                        assert(s1.union(m.to_set()).contains(k));
                    }
                }
            }
            lemma_missing_superset(rest, s1.insert(d0), s2);
        }
    }
}

/// The keys of the appended block's mapping: the base mapping's keys plus
/// the emitted keys.
proof fn lemma_seeded_dom(keys: Seq<Seq<char>>, is_default: bool, m: Map<Seq<char>, Seq<char>>)
    ensures
        seeded_map(keys, is_default, m).dom() == m.dom().union(keys.to_set()),
    decreases keys.len(),
{
    if keys.len() == 0 {
        assert(keys.to_set() =~= Set::<Seq<char>>::empty()) by {
            assert(forall|k: Seq<char>| !keys.contains(k));
        }
        assert(m.dom().union(keys.to_set()) =~= m.dom());
    } else {
        let k0 = keys[0];
        let v0: Seq<char> = if is_default {
            k0
        } else {
            Seq::<char>::empty()
        };
        let rest = keys.subrange(1, keys.len() as int);
        lemma_seeded_dom(rest, is_default, m.insert(k0, v0));
        lemma_to_set_unfold(keys);
        assert(seeded_map(keys, is_default, m).dom() =~= m.dom().union(keys.to_set()));
    }
}

/// The keys present after parsing the synchronizer's block from any
/// pending state: whatever a flush of that state holds, plus the block's
/// keys. (The pending value lines may be arbitrary; only the keys are
/// pinned here.)
proof fn lemma_parse_sync_block_dom(
    keys: Seq<Seq<char>>,
    is_default: bool,
    name: Seq<char>,
    values: Seq<Seq<char>>,
    m: Map<Seq<char>, Seq<char>>,
)
    requires
        forall|j: int| 0 <= j < keys.len() ==> wf_key(#[trigger] keys[j]),
        is_default ==> forall|j: int| 0 <= j < keys.len() ==> wf_value(#[trigger] keys[j]),
        name.len() > 0 ==> values.len() >= 1,
    ensures
        parse_lines(
            sync_lines(keys, is_default).push(Seq::<char>::empty()),
            false,
            name,
            values,
            m,
        ).dom() == flush_entry(m, name, values, false).dom().union(keys.to_set()),
    decreases keys.len(),
{
    let lines = sync_lines(keys, is_default).push(Seq::<char>::empty());
    if keys.len() == 0 {
        assert(lines.len() == 1);
        assert(lines[0] == Seq::<char>::empty());
        assert(!has_char(lines[0], '='));
        assert(lines.subrange(1, 1) =~= Seq::<Seq<char>>::empty());
        let pushed = values.push(Seq::<char>::empty());
        assert(parse_lines(lines, false, name, values, m) == parse_lines(
            lines.subrange(1, 1),
            false,
            name,
            pushed,
            m,
        ));
        assert(parse_lines(lines.subrange(1, 1), false, name, pushed, m) == flush_entry(
            m,
            name,
            pushed,
            false,
        ));
        lemma_flush_extra_empty(m, name, values);
        assert(keys.to_set() =~= Set::<Seq<char>>::empty()) by {
            assert(forall|k: Seq<char>| !keys.contains(k));
        }
        assert(flush_entry(m, name, values, false).dom().union(keys.to_set()) =~= flush_entry(
            m,
            name,
            values,
            false,
        ).dom());
    } else {
        let k0 = keys[0];
        let v0: Seq<char> = if is_default {
            k0
        } else {
            Seq::<char>::empty()
        };
        let line0 = lines[0];
        assert(line0 == sync_lines(keys, is_default)[0]);
        if is_default {
            assert(line0 == filled_line(k0, k0));
            lemma_filled_line_splits(k0, k0);
        } else {
            assert(line0 == placeholder_line(k0));
            lemma_placeholder_line_splits(k0);
        }
        assert(has_char(line0, '='));
        assert(line_name(line0) == k0);
        assert(line_value(line0) == v0);
        let rest_keys = keys.subrange(1, keys.len() as int);
        assert forall|j: int| 0 <= j < rest_keys.len() implies wf_key(#[trigger] rest_keys[j]) by {
            assert(rest_keys[j] == keys[j + 1]);
        }
        if is_default {
            assert forall|j: int| 0 <= j < rest_keys.len() implies wf_value(
                #[trigger] rest_keys[j],
            ) by {
                assert(rest_keys[j] == keys[j + 1]);
            }
        }
        let rest_lines = lines.subrange(1, lines.len() as int);
        assert(rest_lines =~= sync_lines(rest_keys, is_default).push(Seq::<char>::empty()));
        lemma_to_set_unfold(keys);
        if name.len() == 0 {
            assert(parse_lines(lines, false, name, values, m) == parse_lines(
                rest_lines,
                false,
                line_name(line0),
                values.push(line_value(line0)),
                m,
            ));
            lemma_parse_sync_block_dom(rest_keys, is_default, k0, values.push(v0), m);
            assert(flush_entry(m, k0, values.push(v0), false).dom() =~= m.dom().insert(k0));
            assert(flush_entry(m, name, values, false) == m);
            assert(m.dom().insert(k0).union(rest_keys.to_set()) =~= m.dom().union(keys.to_set()));
        } else {
            let acc = flush_entry(m, name, values, false);
            assert(parse_lines(lines, false, name, values, m) == parse_lines(
                rest_lines,
                false,
                line_name(line0),
                seq![line_value(line0)],
                acc,
            ));
            lemma_parse_sync_block_dom(rest_keys, is_default, k0, seq![v0], acc);
            assert(flush_entry(acc, k0, seq![v0], false).dom() =~= acc.dom().insert(k0));
            assert(acc.dom().insert(k0).union(rest_keys.to_set()) =~= acc.dom().union(
                keys.to_set(),
            ));
        }
    }
}

/// Law: the block the synchronizer appends, parsed on its own with empty
/// placeholders kept, binds exactly the emitted keys — each to itself for
/// the default language and to the empty template otherwise. Keys the
/// format cannot carry on one line (empty, holding a newline, whitespace
/// against an inner `=`, or — when self-seeded — a literal `\=`) are
/// outside this law.
pub proof fn lemma_additions_parse_back(keys: Seq<Seq<char>>, is_default: bool)
    requires
        forall|j: int| 0 <= j < keys.len() ==> wf_key(#[trigger] keys[j]),
        is_default ==> forall|j: int| 0 <= j < keys.len() ==> wf_value(#[trigger] keys[j]),
    ensures
        parse_text(
            join_with(sync_lines(keys, is_default).push(Seq::<char>::empty()), '\n'),
            false,
        ) == seeded_map(keys, is_default, Map::<Seq<char>, Seq<char>>::empty()),
{
    let lines = sync_lines(keys, is_default).push(Seq::<char>::empty());
    lemma_sync_lines_newline_free(keys, is_default);
    assert forall|j: int| 0 <= j < lines.len() implies !has_char(#[trigger] lines[j], '\n') by {
        if j < keys.len() {
            assert(lines[j] == sync_lines(keys, is_default)[j]);
        } else {
            assert(lines[j] == Seq::<char>::empty());
        }
    }
    lemma_split_join(lines, '\n');
    lemma_parse_sync_block(
        keys,
        is_default,
        Seq::<char>::empty(),
        Seq::<Seq<char>>::empty(),
        Map::<Seq<char>, Seq<char>>::empty(),
    );
}

/// Law: running the synchronizer twice against the same file adds nothing
/// the second time. For a catalog text that is empty or ends with a
/// newline, appending the first run's block leaves no discovered key
/// missing, so a second run with the same keys emits no entries and the
/// file is left untouched. Keys the format cannot carry on one line are
/// outside this law, as for the block's own parse.
pub proof fn lemma_sync_file_idempotent(
    t: Seq<char>,
    discovered: Seq<Seq<char>>,
    is_default: bool,
)
    requires
        t.len() > 0 ==> t[t.len() - 1] == '\n',
        forall|j: int| 0 <= j < discovered.len() ==> wf_key(#[trigger] discovered[j]),
        is_default ==> forall|j: int|
            0 <= j < discovered.len() ==> wf_value(#[trigger] discovered[j]),
    ensures
        ({
            let existing = parse_text(t, false).dom();
            let emitted = missing_keys(discovered, existing);
            let appended = join_with(
                sync_lines(emitted, is_default).push(Seq::<char>::empty()),
                '\n',
            );
            missing_keys(discovered, parse_text(t + appended, false).dom())
                == Seq::<Seq<char>>::empty()
        }),
{
    let existing = parse_text(t, false).dom();
    let emitted = missing_keys(discovered, existing);
    let block = sync_lines(emitted, is_default).push(Seq::<char>::empty());
    let appended = join_with(block, '\n');
    // the emitted keys are discovered keys, so they are well formed
    lemma_missing_in_discovered(discovered, existing);
    assert forall|j: int| 0 <= j < emitted.len() implies wf_key(#[trigger] emitted[j]) by {
        assert(discovered.contains(emitted[j]));
        let w = choose|w: int| 0 <= w < discovered.len() && discovered[w] == emitted[j];
        assert(wf_key(discovered[w]));
    }
    if is_default {
        assert forall|j: int| 0 <= j < emitted.len() implies wf_value(#[trigger] emitted[j]) by {
            assert(discovered.contains(emitted[j]));
            let w = choose|w: int| 0 <= w < discovered.len() && discovered[w] == emitted[j];
            assert(wf_value(discovered[w]));
        }
    }
    // the block's physical lines are recovered by splitting
    lemma_sync_lines_newline_free(emitted, is_default);
    assert forall|j: int| 0 <= j < block.len() implies !has_char(#[trigger] block[j], '\n') by {
        if j < emitted.len() {
            assert(block[j] == sync_lines(emitted, is_default)[j]);
        } else {
            assert(block[j] == Seq::<char>::empty());
        }
    }
    lemma_split_join(block, '\n');
    if t.len() == 0 {
        assert(t + appended =~= appended);
        // an empty text parses to the empty catalog
        assert(split_on(t, '\n') == seq![Seq::<char>::empty()]);
        let l0 = split_on(t, '\n');
        assert(l0[0] == Seq::<char>::empty());
        assert(!has_char(l0[0], '='));
        assert(l0.subrange(1, 1) =~= Seq::<Seq<char>>::empty());
        let pushed = Seq::<Seq<char>>::empty().push(Seq::<char>::empty());
        assert(parse_lines(
            l0,
            false,
            Seq::<char>::empty(),
            Seq::<Seq<char>>::empty(),
            Map::<Seq<char>, Seq<char>>::empty(),
        ) == parse_lines(
            l0.subrange(1, 1),
            false,
            Seq::<char>::empty(),
            pushed,
            Map::<Seq<char>, Seq<char>>::empty(),
        ));
        assert(parse_lines(
            l0.subrange(1, 1),
            false,
            Seq::<char>::empty(),
            pushed,
            Map::<Seq<char>, Seq<char>>::empty(),
        ) == Map::<Seq<char>, Seq<char>>::empty());
        assert(existing =~= Set::<Seq<char>>::empty());
        // the appended block alone holds exactly the emitted keys
        lemma_parse_sync_block_dom(
            emitted,
            is_default,
            Seq::<char>::empty(),
            Seq::<Seq<char>>::empty(),
            Map::<Seq<char>, Seq<char>>::empty(),
        );
        assert(parse_text(t + appended, false).dom() =~= existing.union(emitted.to_set()));
    } else {
        let t1 = t.subrange(0, t.len() - 1);
        assert(t =~= t1 + seq!['\n']);
        // splitting the text: its lines, ending with an empty one
        lemma_split_on_concat(t1, seq!['\n'], '\n');
        assert(seq!['\n'].subrange(1, 1) =~= Seq::<char>::empty());
        assert(split_on(seq!['\n'], '\n') == seq![Seq::<char>::empty()] + split_on(
            seq!['\n'].subrange(1, 1),
            '\n',
        ));
        assert(split_on(seq!['\n'].subrange(1, 1), '\n') == seq![Seq::<char>::empty()]);
        let sa = split_on(t1, '\n');
        crate::text::lemma_split_on_len(t1, '\n');
        let sb = split_on(seq!['\n'], '\n');
        assert(sb =~= seq![Seq::<char>::empty(), Seq::<char>::empty()]);
        assert(sa.last() + sb.first() =~= sa.last());
        assert(sb.subrange(1, 2) =~= seq![Seq::<char>::empty()]);
        assert(split_on(t, '\n') =~= sa + seq![Seq::<char>::empty()]);
        // splitting text plus block: its lines, then the block's lines
        let b2 = seq!['\n'] + appended;
        assert(t + appended =~= t1 + b2);
        lemma_split_on_concat(t1, b2, '\n');
        assert(b2[0] == '\n');
        assert(b2.subrange(1, b2.len() as int) =~= appended);
        assert(split_on(b2, '\n') == seq![Seq::<char>::empty()] + split_on(appended, '\n'));
        let sb2 = split_on(b2, '\n');
        assert(sb2.first() == Seq::<char>::empty());
        assert(sa.last() + sb2.first() =~= sa.last());
        assert(sb2.subrange(1, sb2.len() as int) =~= block);
        assert(split_on(t + appended, '\n') =~= sa + block);
        // both parses run through the same state after the text's lines
        let p = pend_after(sa, Seq::<char>::empty(), Seq::<Seq<char>>::empty());
        let a = acc_after(
            sa,
            false,
            Seq::<char>::empty(),
            Seq::<Seq<char>>::empty(),
            Map::<Seq<char>, Seq<char>>::empty(),
        );
        lemma_parse_concat(
            sa,
            seq![Seq::<char>::empty()],
            false,
            Seq::<char>::empty(),
            Seq::<Seq<char>>::empty(),
            Map::<Seq<char>, Seq<char>>::empty(),
        );
        assert(sa + seq![Seq::<char>::empty()] =~= split_on(t, '\n'));
        let one = seq![Seq::<char>::empty()];
        assert(one[0] == Seq::<char>::empty());
        assert(!has_char(one[0], '='));
        assert(one.subrange(1, 1) =~= Seq::<Seq<char>>::empty());
        assert(parse_lines(one, false, p.0, p.1, a) == parse_lines(
            one.subrange(1, 1),
            false,
            p.0,
            p.1.push(Seq::<char>::empty()),
            a,
        ));
        assert(parse_lines(one.subrange(1, 1), false, p.0, p.1.push(Seq::<char>::empty()), a)
            == flush_entry(a, p.0, p.1.push(Seq::<char>::empty()), false));
        lemma_pend_nonempty(sa, Seq::<char>::empty(), Seq::<Seq<char>>::empty());
        lemma_flush_extra_empty(a, p.0, p.1);
        assert(parse_text(t, false) == flush_entry(a, p.0, p.1, false));
        lemma_parse_concat(
            sa,
            block,
            false,
            Seq::<char>::empty(),
            Seq::<Seq<char>>::empty(),
            Map::<Seq<char>, Seq<char>>::empty(),
        );
        assert(sa + block =~= split_on(t + appended, '\n'));
        lemma_parse_sync_block_dom(emitted, is_default, p.0, p.1, a);
        assert(parse_text(t + appended, false).dom() =~= existing.union(emitted.to_set()));
    }
    // nothing is missing against the widened key set
    assert(existing.union(missing_keys(discovered, existing).to_set()).subset_of(
        existing.union(emitted.to_set()),
    ));
    lemma_missing_superset(discovered, existing, existing.union(emitted.to_set()));
    assert(missing_keys(discovered, parse_text(t + appended, false).dom()) == missing_keys(
        discovered,
        existing.union(emitted.to_set()),
    ));
}

/// Whether any of the strings in `v` views to `s`.
fn contains_string(v: &Vec<String>, s: &str) -> (r: bool)
    ensures
        r == v@.map_values(|x: String| x@).contains(s@),
{
    let owned = s.to_owned();
    let mut i: usize = 0;
    while i < v.len()
        invariant
            0 <= i <= v@.len(),
            owned@ == s@,
            forall|j: int| 0 <= j < i ==> v@[j]@ != s@,
        decreases v@.len() - i,
    {
        if v[i] == owned {
            proof {
                assert(v@.map_values(|x: String| x@)[i as int] == s@);
            }
            return true;
        }
        i += 1;
    }
    proof {
        if v@.map_values(|x: String| x@).contains(s@) {
            assert(exists|j: int| 0 <= j < v@.len() && (#[trigger] v@[j])@ == s@);
            assert(false);
        }
    }
    false
}

/// The discovered keys not yet in the existing catalog, each once, in
/// discovery order.
pub fn plan_new_keys(discovered: &Vec<String>, existing: &Catalog) -> (r: Vec<String>)
    ensures
        r@.map_values(|k: String| k@) == missing_keys(
            discovered@.map_values(|k: String| k@),
            existing@.dom(),
        ),
{
    let ghost dv = discovered@.map_values(|k: String| k@);
    let mut kept: Vec<String> = Vec::new();
    let mut i: usize = 0;
    proof {
        assert(dv.subrange(0, dv.len() as int) =~= dv);
        assert(kept@.map_values(|k: String| k@).to_set() =~= Set::<Seq<char>>::empty());
        assert(existing@.dom().union(kept@.map_values(|k: String| k@).to_set()) =~= existing@.dom());
    }
    while i < discovered.len()
        invariant
            dv == discovered@.map_values(|k: String| k@),
            0 <= i <= dv.len(),
            kept@.map_values(|k: String| k@) + missing_keys(
                dv.subrange(i as int, dv.len() as int),
                existing@.dom().union(kept@.map_values(|k: String| k@).to_set()),
            ) == missing_keys(dv, existing@.dom()),
        decreases dv.len() - i,
    {
        let ghost rem = dv.subrange(i as int, dv.len() as int);
        let ghost seen = existing@.dom().union(kept@.map_values(|k: String| k@).to_set());
        proof {
            assert(rem[0] == dv[i as int]);
            assert(rem.subrange(1, rem.len() as int) =~= dv.subrange(
                i as int + 1,
                dv.len() as int,
            ));
        }
        let key = &discovered[i];
        let in_existing = existing.contains_key(key.as_str());
        let in_kept = contains_string(&kept, key.as_str());
        proof {
            assert(in_kept == kept@.map_values(|k: String| k@).to_set().contains(key@));
            assert((in_existing || in_kept) == seen.contains(rem[0]));
        }
        if !(in_existing || in_kept) {
            let ghost kb = kept@;
            kept.push(key.clone());
            proof {
                lemma_views_push(kb, kept@.last());
                let kv1 = kb.map_values(|k: String| k@);
                let kv2 = kept@.map_values(|k: String| k@);
                assert(kv2 == kv1.push(key@));
                assert forall|k: Seq<char>| kv2.contains(k) <==> (kv1.contains(k) || k
                    == key@) by {
                    if kv2.contains(k) {
                        let ix = choose|ix: int| 0 <= ix < kv2.len() && kv2[ix] == k;
                        if ix < kv1.len() {
                            assert(kv1[ix] == k);
                        } else {
                            assert(k == key@);
                        }
                    }
                    if kv1.contains(k) {
                        let ix = choose|ix: int| 0 <= ix < kv1.len() && kv1[ix] == k;
                        assert(kv2[ix] == k);
                    }
                    if k == key@ {
                        assert(kv2[kv1.len() as int] == k);
                    }
                }
                assert(kept@.map_values(|k: String| k@).to_set() =~= kb.map_values(
                    |k: String| k@,
                ).to_set().insert(key@));
                assert(existing@.dom().union(kept@.map_values(|k: String| k@).to_set())
                    =~= seen.insert(rem[0]));
                assert(kb.map_values(|k: String| k@) + (seq![rem[0]] + missing_keys(
                    rem.subrange(1, rem.len() as int),
                    seen.insert(rem[0]),
                )) =~= kept@.map_values(|k: String| k@) + missing_keys(
                    rem.subrange(1, rem.len() as int),
                    seen.insert(rem[0]),
                ));
            }
        }
        i += 1;
    }
    proof {
        assert(dv.subrange(dv.len() as int, dv.len() as int) =~= Seq::<Seq<char>>::empty());
        assert(kept@.map_values(|k: String| k@) + Seq::<Seq<char>>::empty() =~= kept@.map_values(
            |k: String| k@,
        ));
    }
    kept
}

/// The lines to append for `keys`: `key = key` for the default language,
/// `key =` otherwise.
pub fn render_sync_lines(keys: &Vec<String>, is_default: bool) -> (r: Vec<String>)
    ensures
        r@.map_values(|l: String| l@) == sync_lines(keys@.map_values(|k: String| k@), is_default),
{
    let ghost kv = keys@.map_values(|k: String| k@);
    let mut lines: Vec<String> = Vec::new();
    let mut i: usize = 0;
    while i < keys.len()
        invariant
            kv == keys@.map_values(|k: String| k@),
            0 <= i <= kv.len(),
            lines@.map_values(|l: String| l@) == sync_lines(kv.subrange(0, i as int), is_default),
        decreases kv.len() - i,
    {
        let ghost lb = lines@;
        if is_default {
            lines.push(filled_entry_line(keys[i].as_str(), keys[i].as_str()));
        } else {
            lines.push(placeholder_entry_line(keys[i].as_str()));
        }
        proof {
            lemma_views_push(lb, lines@.last());
            assert(lines@.map_values(|l: String| l@) =~= sync_lines(
                kv.subrange(0, i as int + 1),
                is_default,
            ));
        }
        i += 1;
    }
    proof {
        assert(kv.subrange(0, kv.len() as int) =~= kv);
    }
    lines
}

/// The text to append to the catalog file of one language, or `None` when
/// every discovered key is already present. The existing content is parsed
/// keeping empty placeholders; the appended text ends with a newline so
/// that a later run appends on a fresh line.
pub fn language_additions(
    existing_content: Option<&String>,
    discovered: &Vec<String>,
    is_default: bool,
) -> (r: Option<String>)
    ensures
        ({
            let existing = match existing_content {
                Some(t) => parse_text(t@, false),
                None => Map::<Seq<char>, Seq<char>>::empty(),
            };
            let keys = missing_keys(discovered@.map_values(|k: String| k@), existing.dom());
            match r {
                Some(text) => keys.len() > 0 && text@ == join_with(
                    sync_lines(keys, is_default).push(Seq::<char>::empty()),
                    '\n',
                ),
                None => keys.len() == 0,
            }
        }),
{
    let existing_catalog = match existing_content {
        Some(t) => parse_translations(t.as_str(), false),
        None => Catalog::new(),
    };
    let keys = plan_new_keys(discovered, &existing_catalog);
    if keys.len() == 0 {
        proof {
            assert(keys@.map_values(|k: String| k@).len() == 0);
        }
        return None;
    }
    let mut lines = render_sync_lines(&keys, is_default);
    let ghost lv = lines@;
    lines.push(String::new());
    proof {
        lemma_views_push(lv, lines@.last());
        reveal_strlit("\n");
        assert("\n"@[0] == '\n');
    }
    Some(join_char(&lines, "\n"))
}

} // verus!
