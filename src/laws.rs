//! Laws that relate the parser and the resolver, proved from their
//! specifications.
use vstd::prelude::*;

use crate::model::KeyParsingMode;
use crate::parser::{
    escape_dollars, export_word, first_unescaped, is_permissive_key_char, is_quote, is_strict_key_char,
    key_index, lookup, normalize, parse_from, parse_statement_spec, parse_text, parse_value_spec,
    statement_end, upsert, valid_key, EntryModel, ErrorModel,
};
use crate::substitution::{
    assoc_get, expand_spec, resolve_from, resolve_key_spec, resolved_values, Assoc,
    ResolveContext,
};
use crate::text::{backslash_run, is_escaped, is_ws, trim_end, trim_start};

verus! {

/// What an unquoted value text stands for: the text up to its first
/// unescaped `#`, without whitespace at either end.
pub open spec fn unquoted_value(v: Seq<char>) -> Seq<char> {
    let t = trim_start(v);
    match first_unescaped(t, '#', 0) {
        Some(h) => trim_end(t.subrange(0, h)),
        None => trim_end(t),
    }
}

pub open spec fn no_line_breaks(s: Seq<char>) -> bool {
    forall|i: int| 0 <= i < s.len() ==> s[i] != '\n' && s[i] != '\r'
}

proof fn lemma_normalize_plain(s: Seq<char>)
    requires
        forall|i: int| 0 <= i < s.len() ==> s[i] != '\r',
    ensures
        normalize(s) == s,
    decreases s.len(),
{
    if s.len() > 0 {
        lemma_normalize_plain(s.drop_first());
        assert(seq![s[0]] + s.drop_first() =~= s);
    }
}

proof fn lemma_statement_end_no_newline(s: Seq<char>, i: int, quote: Option<char>, started: bool)
    requires
        0 <= i <= s.len(),
        forall|k: int| i <= k < s.len() ==> s[k] != '\n',
    ensures
        statement_end(s, i, quote, started) == s.len(),
    decreases s.len() - i,
{
    if i < s.len() {
        lemma_statement_end_no_newline(s, i + 1, None, started);
        lemma_statement_end_no_newline(s, i + 1, None, true);
        lemma_statement_end_no_newline(s, i + 1, quote, started);
        lemma_statement_end_no_newline(s, i + 1, Some(s[i]), started);
    }
}

proof fn lemma_strict_char_facts(c: char)
    requires
        is_strict_key_char(c),
    ensures
        !is_ws(c),
        c != '=',
        c != '#',
        c != '\\',
        !is_quote(c),
        is_permissive_key_char(c),
{
}

proof fn lemma_strict_key_valid(key: Seq<char>, mode: KeyParsingMode)
    requires
        valid_key(key, KeyParsingMode::Strict),
    ensures
        valid_key(key, mode),
{
    assert forall|i: int| 0 <= i < key.len() implies crate::parser::is_key_char(
        #[trigger] key[i],
        mode,
    ) by {
        lemma_strict_char_facts(key[i]);
    }
}

/// In `key + "=" + rest`, the first unescaped `=` is the one after the key.
proof fn lemma_first_equals(line: Seq<char>, key: Seq<char>, j: int)
    requires
        key.len() > 0,
        valid_key(key, KeyParsingMode::Strict),
        line.len() > key.len(),
        line.subrange(0, key.len() as int) == key,
        line[key.len() as int] == '=',
        0 <= j <= key.len(),
    ensures
        first_unescaped(line, '=', j) == Some(key.len() as int),
    decreases key.len() - j,
{
    if j < key.len() {
        assert(line[j] == key[j]);
        lemma_strict_char_facts(key[j]);
        lemma_first_equals(line, key, j + 1);
    } else {
        assert(line[j - 1] == key[j - 1]);
        lemma_strict_char_facts(key[j - 1]);
        assert(backslash_run(line, j) == 0);
    }
}

/// A statement `key=rest` on one line: the key and what follows the `=`.
proof fn lemma_statement_split(
    line: Seq<char>,
    key: Seq<char>,
    rest: Seq<char>,
    mode: KeyParsingMode,
    preserve_dollar: bool,
)
    requires
        key.len() > 0,
        valid_key(key, KeyParsingMode::Strict),
        line == key + seq!['='] + rest,
    ensures
        parse_statement_spec(line, mode, preserve_dollar) == match parse_value_spec(
            trim_start(rest),
            (crate::text::utf8_len(line.subrange(0, line.len() - trim_start(rest).len())) + 1) as int,
            preserve_dollar,
        ) {
            Ok(value) => Ok(Some((key, value))),
            Err(e) => Err(e),
        },
{
    let k = key.len() as int;
    lemma_strict_char_facts(key[0]);
    assert(line[0] == key[0]);
    assert(trim_start(line) == line);
    if line.len() > 6 && line.subrange(0, 6) == export_word() {
        if k < 6 {
            assert(line.subrange(0, 6)[k] == '=');
            assert(export_word()[k] != '=');
        } else if k == 6 {
            assert(line[6] == '=');
        } else {
            assert(line[6] == key[6]);
            lemma_strict_char_facts(key[6]);
        }
    }
    assert(line.subrange(0, k) =~= key);
    lemma_first_equals(line, key, 0);
    lemma_strict_char_facts(key[k - 1]);
    assert(key.drop_last().len() < key.len());
    assert(trim_end(key) == key);
    lemma_strict_key_valid(key, mode);
    assert(line.subrange(k + 1, line.len() as int) =~= rest);
}

/// Parsing a single unquoted `KEY=VALUE` line gives one entry, and looking up
/// `KEY` gives `VALUE` with surrounding whitespace and any `#` comment
/// removed.
pub proof fn law_unquoted_line_lookup(
    key: Seq<char>,
    value: Seq<char>,
    mode: KeyParsingMode,
    preserve_dollar: bool,
)
    requires
        key.len() > 0,
        valid_key(key, KeyParsingMode::Strict),
        no_line_breaks(value),
        trim_start(value).len() == 0 || !is_quote(trim_start(value)[0]),
    ensures
        parse_text(key + seq!['='] + value, mode, preserve_dollar) == Ok::<
            Seq<EntryModel>,
            ErrorModel,
        >(seq![(key, unquoted_value(value), 1int)]),
        lookup(seq![(key, unquoted_value(value), 1int)], key) == Some(unquoted_value(value)),
{
    let line = key + seq!['='] + value;
    let n = line.len() as int;
    assert forall|i: int| 0 <= i < n implies line[i] != '\n' && line[i] != '\r' by {
        if i < key.len() {
            lemma_strict_char_facts(key[i]);
        } else if i > key.len() {
            assert(line[i] == value[i - key.len() - 1]);
        }
    }
    lemma_normalize_plain(line);
    lemma_statement_end_no_newline(line, 0, None, false);
    assert(line.subrange(0, n) =~= line);
    lemma_statement_split(line, key, value, mode, preserve_dollar);
    let t = Seq::<EntryModel>::empty();
    let e = (key, unquoted_value(value), 1int);
    assert(key_index(t, key) == -1);
    assert(upsert(t, e) =~= seq![e]);
    let one = seq![e];
    assert(one[0].0 == key);
    crate::parser::lemma_key_index_found(one, key, 0);
    let next_line = 1 + crate::parser::count_newlines(line.subrange(0, n));
    assert(parse_from(line, n, next_line as int, mode, preserve_dollar, seq![e]) == Ok::<
        Seq<EntryModel>,
        ErrorModel,
    >(seq![e]));
}

// ---------------------------------------------------------------------------
// Idempotence

/// Expansion has nothing to do in `s`: no escaped `$` and no `$` that
/// starts a placeholder.
pub open spec fn inert(s: Seq<char>, mode: KeyParsingMode) -> bool {
    forall|k: int|
        0 <= k < s.len() ==> !(s[k] == '\\' && k + 1 < s.len() && s[k + 1] == '$' && is_escaped(
            s,
            k + 1,
        )) && !(s[k] == '$' && #[trigger] crate::substitution::placeholder_at(s, k, mode) is Some)
}

proof fn lemma_expand_plain(ctx: ResolveContext, s: Seq<char>, i: int, stack: Seq<Seq<char>>, cache: Assoc)
    requires
        0 <= i <= s.len(),
        inert(s, ctx.mode),
    ensures
        expand_spec(ctx, s, i, stack, cache) == (s.subrange(i, s.len() as int), cache),
    decreases s.len() - i,
{
    if i < s.len() {
        lemma_expand_plain(ctx, s, i + 1, stack, cache);
        assert(seq![s[i]] + s.subrange(i + 1, s.len() as int) =~= s.subrange(i, s.len() as int));
    } else {
        assert(s.subrange(i, s.len() as int) =~= Seq::<char>::empty());
    }
}

/// Every pair of `cache` gives a key the value that `raw` gives it.
pub open spec fn cache_agrees(cache: Assoc, raw: Assoc) -> bool {
    forall|k: Seq<char>| #[trigger] assoc_get(cache, k) is Some ==> assoc_get(raw, k) == assoc_get(cache, k)
}

/// The keys of `raw` are pairwise distinct.
pub open spec fn keys_distinct(raw: Assoc) -> bool {
    forall|i: int, j: int| 0 <= i < j < raw.len() ==> raw[i].0 != raw[j].0
}

/// A table is fully resolved against `base`: no value holds a placeholder or
/// an escaped `$`, and a key that the base holds (when not overriding)
/// already has the base's value.
pub open spec fn fully_resolved(ctx: ResolveContext) -> bool {
    &&& keys_distinct(ctx.raw)
    &&& forall|i: int| 0 <= i < ctx.raw.len() ==> inert(#[trigger] ctx.raw[i].1, ctx.mode)
    &&& forall|i: int|
        0 <= i < ctx.raw.len() && !ctx.override_existing && ctx.base.contains_key(#[trigger] ctx.raw[i].0)
            ==> ctx.raw[i].1 == ctx.base[ctx.raw[i].0]
}

proof fn lemma_assoc_get_distinct(raw: Assoc, j: int)
    requires
        keys_distinct(raw),
        0 <= j < raw.len(),
    ensures
        assoc_get(raw, raw[j].0) == Some(raw[j].1),
    decreases raw.len(),
{
    if j < raw.len() - 1 {
        assert(raw.last().0 != raw[j].0);
        assert(raw.drop_last()[j] == raw[j]);
        lemma_assoc_get_distinct(raw.drop_last(), j);
    }
}

proof fn lemma_assoc_get_push(cache: Assoc, k: Seq<char>, v: Seq<char>, q: Seq<char>)
    ensures
        assoc_get(cache.push((k, v)), q) == if q == k {
            Some(v)
        } else {
            assoc_get(cache, q)
        },
{
    assert(cache.push((k, v)).drop_last() =~= cache);
}

proof fn lemma_resolve_fixed(ctx: ResolveContext, keys: Seq<Seq<char>>, j: int, cache: Assoc)
    requires
        fully_resolved(ctx),
        keys == ctx.raw.map_values(|p: (Seq<char>, Seq<char>)| p.0),
        0 <= j <= keys.len(),
        cache_agrees(cache, ctx.raw),
    ensures
        resolve_from(ctx, keys, j, cache) == ctx.raw.map_values(
            |p: (Seq<char>, Seq<char>)| p.1,
        ).subrange(j, keys.len() as int),
    decreases keys.len() - j,
{
    let values = ctx.raw.map_values(|p: (Seq<char>, Seq<char>)| p.1);
    if j < keys.len() {
        let k = keys[j];
        lemma_assoc_get_distinct(ctx.raw, j);
        let v = ctx.raw[j].1;
        assert(k == ctx.raw[j].0);
        let (r, c) = resolve_key_spec(ctx, k, Seq::empty(), cache);
        if assoc_get(cache, k) is Some {
            assert(r == v);
            assert(c == cache);
        } else if !ctx.override_existing && ctx.base.contains_key(k) {
            assert(r == v);
            assert forall|q: Seq<char>| #[trigger] assoc_get(c, q) is Some implies assoc_get(ctx.raw, q) == assoc_get(c, q) by {
                lemma_assoc_get_push(cache, k, ctx.base[k], q);
            }
        } else {
            assert(ctx.raw.len() > 0);
            lemma_expand_plain(ctx, v, 0, seq![k], cache);
            assert(v.subrange(0, v.len() as int) =~= v);
            assert(r == v);
            assert forall|q: Seq<char>| #[trigger] assoc_get(c, q) is Some implies assoc_get(ctx.raw, q) == assoc_get(c, q) by {
                lemma_assoc_get_push(cache, k, v, q);
            }
        }
        lemma_resolve_fixed(ctx, keys, j + 1, c);
        assert(seq![v] + values.subrange(j + 1, keys.len() as int) =~= values.subrange(j, keys.len() as int));
    } else {
        assert(values.subrange(j, keys.len() as int) =~= Seq::<Seq<char>>::empty());
    }
}

/// Resolving an already fully resolved table is a no-op: every entry keeps
/// its value.
pub proof fn law_resolve_idempotent(ctx: ResolveContext)
    requires
        fully_resolved(ctx),
    ensures
        resolved_values(ctx) == ctx.raw.map_values(|p: (Seq<char>, Seq<char>)| p.1),
{
    let keys = ctx.raw.map_values(|p: (Seq<char>, Seq<char>)| p.0);
    lemma_resolve_fixed(ctx, keys, 0, Seq::empty());
    let values = ctx.raw.map_values(|p: (Seq<char>, Seq<char>)| p.1);
    assert(values.subrange(0, keys.len() as int) =~= values);
}

// ---------------------------------------------------------------------------
// Single quotes and expansion

/// Every `$` of `w` follows an even run of backslashes (none included).
pub open spec fn dollars_unescaped(w: Seq<char>) -> bool {
    forall|i: int| 0 <= i < w.len() && w[i] == '$' ==> #[trigger] backslash_run(w, i) % 2 == 0
}

proof fn lemma_escape_concat(a: Seq<char>, b: Seq<char>)
    ensures
        escape_dollars(a + b) == escape_dollars(a) + escape_dollars(b),
    decreases a.len(),
{
    if a.len() == 0 {
        assert(a + b =~= b);
        assert(escape_dollars(a) + escape_dollars(b) =~= escape_dollars(b));
    } else {
        assert((a + b).drop_first() =~= a.drop_first() + b);
        lemma_escape_concat(a.drop_first(), b);
        assert(escape_dollars(a + b) =~= escape_dollars(a) + escape_dollars(b));
    }
}

proof fn lemma_escape_single(c: char)
    ensures
        escape_dollars(seq![c]) == if c == '$' {
            seq!['\\', '$']
        } else {
            seq![c]
        },
{
    assert(seq![c].drop_first() =~= Seq::<char>::empty());
    assert(escape_dollars(Seq::<char>::empty()) == Seq::<char>::empty());
    assert(escape_dollars(seq![c]) =~= if c == '$' {
        seq!['\\', '$']
    } else {
        seq![c]
    });
}

proof fn lemma_run_prefix(s: Seq<char>, t: Seq<char>, p: int)
    requires
        0 <= p <= s.len(),
        p <= t.len(),
        s.subrange(0, p) == t.subrange(0, p),
    ensures
        backslash_run(s, p) == backslash_run(t, p),
    decreases p,
{
    if p > 0 {
        assert(s[p - 1] == s.subrange(0, p)[p - 1]);
        assert(t[p - 1] == t.subrange(0, p)[p - 1]);
        assert(s.subrange(0, p - 1) =~= s.subrange(0, p).subrange(0, p - 1));
        assert(t.subrange(0, p - 1) =~= t.subrange(0, p).subrange(0, p - 1));
        lemma_run_prefix(s, t, p - 1);
    }
}

proof fn lemma_escape_run(u: Seq<char>)
    ensures
        backslash_run(escape_dollars(u), escape_dollars(u).len() as int) == backslash_run(
            u,
            u.len() as int,
        ),
    decreases u.len(),
{
    if u.len() > 0 {
        let a = u.drop_last();
        let c = u.last();
        assert(a + seq![c] =~= u);
        lemma_escape_concat(a, seq![c]);
        lemma_escape_single(c);
        let ea = escape_dollars(a);
        let eu = escape_dollars(u);
        lemma_escape_run(a);
        if c == '\\' {
            assert(eu =~= ea + seq![c]);
            assert(eu.subrange(0, ea.len() as int) =~= ea.subrange(0, ea.len() as int));
            lemma_run_prefix(eu, ea, ea.len() as int);
            assert(u.subrange(0, a.len() as int) =~= a.subrange(0, a.len() as int));
            lemma_run_prefix(u, a, a.len() as int);
        } else if c == '$' {
            assert(eu =~= ea + seq!['\\', '$']);
        } else {
            assert(eu =~= ea + seq![c]);
        }
    }
}

/// Expansion undoes `escape_dollars` on text whose dollars are not escaped.
proof fn lemma_expand_escaped(
    ctx: ResolveContext,
    w: Seq<char>,
    j: int,
    stack: Seq<Seq<char>>,
    cache: Assoc,
)
    requires
        dollars_unescaped(w),
        0 <= j <= w.len(),
    ensures
        expand_spec(
            ctx,
            escape_dollars(w),
            escape_dollars(w.subrange(0, j)).len() as int,
            stack,
            cache,
        ) == (w.subrange(j, w.len() as int), cache),
    decreases w.len() - j,
{
    let s = escape_dollars(w);
    let pre = escape_dollars(w.subrange(0, j));
    let p = pre.len() as int;
    let post = escape_dollars(w.subrange(j, w.len() as int));
    assert(w.subrange(0, j) + w.subrange(j, w.len() as int) =~= w);
    lemma_escape_concat(w.subrange(0, j), w.subrange(j, w.len() as int));
    assert(s == pre + post);
    if j == w.len() {
        assert(w.subrange(0, j) =~= w);
        assert(w.subrange(j, w.len() as int) =~= Seq::<char>::empty());
    } else {
        let c = w[j];
        let rest = w.subrange(j + 1, w.len() as int);
        assert(w.subrange(j, w.len() as int).drop_first() =~= rest);
        let piece = if c == '$' {
            seq!['\\', '$']
        } else {
            seq![c]
        };
        assert(post == piece + escape_dollars(rest));
        assert(w.subrange(0, j + 1) =~= w.subrange(0, j) + seq![c]);
        lemma_escape_concat(w.subrange(0, j), seq![c]);
        lemma_escape_single(c);
        assert(escape_dollars(w.subrange(0, j + 1)).len() == p + piece.len());
        lemma_expand_escaped(ctx, w, j + 1, stack, cache);
        assert(s[p] == piece[0]);
        if c == '$' {
            assert(s[p + 1] == '$');
            assert(s.subrange(0, p) =~= pre.subrange(0, p));
            lemma_run_prefix(s, pre, p);
            lemma_escape_run(w.subrange(0, j));
            assert(w.subrange(0, j).subrange(0, j) =~= w.subrange(0, j));
            lemma_run_prefix(w, w.subrange(0, j), j);
            assert(backslash_run(w, j) % 2 == 0);
            assert(is_escaped(s, p + 1));
            assert(seq!['$'] + w.subrange(j + 1, w.len() as int) =~= w.subrange(j, w.len() as int));
        } else {
            if p + 1 < s.len() {
                assert(rest.len() > 0);
                assert(escape_dollars(rest)[0] == if rest[0] == '$' {
                    '\\'
                } else {
                    rest[0]
                });
                assert(s[p + 1] == escape_dollars(rest)[0]);
            }
            assert(seq![c] + w.subrange(j + 1, w.len() as int) =~= w.subrange(j, w.len() as int));
        }
    }
}

/// In `c + w + ...`, the backslash run before index `j + 1` is the one
/// before index `j` of `w`, when `c` is not a backslash.
proof fn lemma_run_shift(x: Seq<char>, w: Seq<char>, j: int)
    requires
        x.len() > w.len(),
        x[0] != '\\',
        forall|i: int| 0 <= i < w.len() ==> x[i + 1] == w[i],
        0 <= j <= w.len(),
    ensures
        backslash_run(x, j + 1) == backslash_run(w, j),
    decreases j,
{
    if j > 0 {
        lemma_run_shift(x, w, j - 1);
    }
}

proof fn lemma_single_quoted_parse(key: Seq<char>, w: Seq<char>, mode: KeyParsingMode)
    requires
        key.len() > 0,
        valid_key(key, KeyParsingMode::Strict),
        no_line_breaks(w),
        forall|i: int| 0 <= i < w.len() ==> w[i] != '\'',
        backslash_run(w, w.len() as int) % 2 == 0,
    ensures
        parse_text(key + seq!['='] + (seq!['\''] + w + seq!['\'']), mode, true) == Ok::<
            Seq<EntryModel>,
            ErrorModel,
        >(seq![(key, escape_dollars(w), 1int)]),
{
    let quoted = seq!['\''] + w + seq!['\''];
    let line = key + seq!['='] + quoted;
    let n = line.len() as int;
    let q = w.len() as int + 1;
    assert forall|i: int| 0 <= i < n implies line[i] != '\n' && line[i] != '\r' by {
        if i < key.len() {
            lemma_strict_char_facts(key[i]);
        } else if key.len() + 1 < i < n - 1 {
            assert(line[i] == w[i - key.len() - 2]);
        }
    }
    lemma_normalize_plain(line);
    lemma_statement_end_no_newline(line, 0, None, false);
    assert(line.subrange(0, n) =~= line);
    assert(trim_start(quoted) == quoted);
    lemma_statement_split(line, key, quoted, mode, true);
    assert forall|i: int| 0 <= i < w.len() implies quoted[i + 1] == w[i] by {}
    lemma_run_shift(quoted, w, w.len() as int);
    lemma_first_quote(quoted, w, 1);
    assert(quoted.subrange(q + 1, quoted.len() as int) =~= Seq::<char>::empty());
    assert(quoted.subrange(1, q) =~= w);
    let e = (key, escape_dollars(w), 1int);
    let t = Seq::<EntryModel>::empty();
    assert(key_index(t, key) == -1);
    assert(upsert(t, e) =~= seq![e]);
    let next_line = 1 + crate::parser::count_newlines(line.subrange(0, n));
    assert(parse_from(line, n, next_line as int, mode, true, seq![e]) == Ok::<
        Seq<EntryModel>,
        ErrorModel,
    >(seq![e]));
}

proof fn lemma_single_quoted_resolve(
    key: Seq<char>,
    w: Seq<char>,
    base: Map<Seq<char>, Seq<char>>,
    override_existing: bool,
    mode: KeyParsingMode,
)
    requires
        dollars_unescaped(w),
        override_existing || !base.contains_key(key),
    ensures
        resolved_values(
            ResolveContext {
                raw: seq![(key, escape_dollars(w))],
                base,
                override_existing,
                mode,
            },
        ) == seq![w],
{
    let ctx = ResolveContext { raw: seq![(key, escape_dollars(w))], base, override_existing, mode };
    let keys = ctx.raw.map_values(|p: (Seq<char>, Seq<char>)| p.0);
    assert(ctx.raw.drop_last() =~= Seq::<(Seq<char>, Seq<char>)>::empty());
    assert(assoc_get(ctx.raw, key) == Some(escape_dollars(w)));
    assert(w.subrange(0, 0) =~= Seq::<char>::empty());
    assert(escape_dollars(Seq::<char>::empty()) == Seq::<char>::empty());
    lemma_expand_escaped(ctx, w, 0, seq![key], Seq::empty());
    assert(w.subrange(0, w.len() as int) =~= w);
    assert(keys[0] == key);
    let (v, c) = resolve_key_spec(ctx, key, Seq::empty(), Seq::empty());
    assert(Seq::<Seq<char>>::empty().push(key) =~= seq![key]);
    assert(v == w);
    assert(resolve_from(ctx, keys, 1, c) =~= Seq::<Seq<char>>::empty());
    assert(resolved_values(ctx) =~= seq![w]);
}

/// Single quotes keep their text literal through expansion: `KEY='w'`,
/// parsed with dollars kept escaped for expansion, gives `w` with each `$`
/// escaped, and resolving that entry gives `w` back.
pub proof fn law_single_quoted_round_trip(
    key: Seq<char>,
    w: Seq<char>,
    base: Map<Seq<char>, Seq<char>>,
    override_existing: bool,
    mode: KeyParsingMode,
)
    requires
        key.len() > 0,
        valid_key(key, KeyParsingMode::Strict),
        no_line_breaks(w),
        forall|i: int| 0 <= i < w.len() ==> w[i] != '\'',
        backslash_run(w, w.len() as int) % 2 == 0,
        dollars_unescaped(w),
        override_existing || !base.contains_key(key),
    ensures
        parse_text(key + seq!['='] + (seq!['\''] + w + seq!['\'']), mode, true) == Ok::<
            Seq<EntryModel>,
            ErrorModel,
        >(seq![(key, escape_dollars(w), 1int)]),
        resolved_values(
            ResolveContext {
                raw: seq![(key, escape_dollars(w))],
                base,
                override_existing,
                mode,
            },
        ) == seq![w],
{
    lemma_single_quoted_parse(key, w, mode);
    lemma_single_quoted_resolve(key, w, base, override_existing, mode);
}

proof fn lemma_first_quote(quoted: Seq<char>, w: Seq<char>, j: int)
    requires
        quoted == seq!['\''] + w + seq!['\''],
        forall|i: int| 0 <= i < w.len() ==> w[i] != '\'',
        backslash_run(quoted, w.len() + 1 as int) % 2 == 0,
        1 <= j <= w.len() + 1,
    ensures
        first_unescaped(quoted, '\'', j) == Some(w.len() + 1 as int),
    decreases w.len() + 1 - j,
{
    if j <= w.len() {
        assert(quoted[j] == w[j - 1]);
        lemma_first_quote(quoted, w, j + 1);
    }
}

} // verus!
