//! Placeholder scanning (`$NAME`, `${NAME}`, `${NAME:-default}`) and the
//! resolver that expands them over an entry table and a base store.
use vstd::prelude::*;

use crate::env::TargetEnv;
use crate::model::{Entry, KeyParsingMode};
use crate::parser::{copy_source, is_key_character, valid_key};
use crate::text::{chars_equal, chars_of, escaped_at, is_escaped, slice_chars, string_of};

verus! {

/// An association list; a later pair overrides an earlier one with the same key.
pub type Assoc = Seq<(Seq<char>, Seq<char>)>;

/// The value that the last pair with key `k` gives.
pub open spec fn assoc_get(l: Assoc, k: Seq<char>) -> Option<Seq<char>>
    decreases l.len(),
{
    if l.len() == 0 {
        None
    } else if l.last().0 == k {
        Some(l.last().1)
    } else {
        assoc_get(l.drop_last(), k)
    }
}

/// What expansion reads: the raw entries, the base store, the policy for keys
/// that the base already holds, and the key mode.
pub ghost struct ResolveContext {
    pub raw: Assoc,
    pub base: Map<Seq<char>, Seq<char>>,
    pub override_existing: bool,
    pub mode: KeyParsingMode,
}

// ---------------------------------------------------------------------------
// Placeholder scanning

pub open spec fn is_name_start(c: char) -> bool {
    ('a' <= c && c <= 'z') || ('A' <= c && c <= 'Z') || c == '_'
}

pub open spec fn is_name_char(c: char) -> bool {
    is_name_start(c) || ('0' <= c && c <= '9')
}

/// First index at or after `from` holding `c`.
pub open spec fn first_index(s: Seq<char>, c: char, from: int) -> Option<int>
    decreases s.len() - from,
{
    if from < 0 || from >= s.len() {
        None
    } else if s[from] == c {
        Some(from)
    } else {
        first_index(s, c, from + 1)
    }
}

/// First index at or after `from` where `:-` starts.
pub open spec fn first_colon_minus(s: Seq<char>, from: int) -> Option<int>
    decreases s.len() - from,
{
    if from < 0 || from + 1 >= s.len() {
        None
    } else if s[from] == ':' && s[from + 1] == '-' {
        Some(from)
    } else {
        first_colon_minus(s, from + 1)
    }
}

/// End of the run of name characters that starts at `j`.
pub open spec fn name_end(s: Seq<char>, j: int) -> int
    decreases s.len() - j,
{
    if j < 0 || j >= s.len() {
        s.len() as int
    } else if is_name_char(s[j]) {
        name_end(s, j + 1)
    } else {
        j
    }
}

/// Spans of a placeholder: name start, name end, default span, token end.
pub type PlaceholderModel = (int, int, Option<(int, int)>, int);

/// The placeholder whose `$` stands at `i`, if the text there forms one. The
/// `:-` default is recognised in strict key mode only.
pub open spec fn placeholder_at(s: Seq<char>, i: int, mode: KeyParsingMode) -> Option<
    PlaceholderModel,
> {
    if i < 0 || i + 1 >= s.len() {
        None
    } else if s[i + 1] == '{' {
        match first_index(s, '}', i + 2) {
            None => None,
            Some(end) => {
                let inner = s.subrange(i + 2, end);
                let op = match mode {
                    KeyParsingMode::Strict => first_colon_minus(inner, 0),
                    KeyParsingMode::Permissive => None,
                };
                match op {
                    Some(k) => if k == 0 || !valid_key(inner.subrange(0, k), mode) {
                        None
                    } else {
                        Some((i + 2, i + 2 + k, Some((i + 4 + k, end)), end + 1))
                    },
                    None => if inner.len() == 0 || !valid_key(inner, mode) {
                        None
                    } else {
                        Some((i + 2, end, None, end + 1))
                    },
                }
            },
        }
    } else if is_name_start(s[i + 1]) {
        let e = name_end(s, i + 2);
        Some((i + 1, e, None, e))
    } else {
        None
    }
}

pub proof fn lemma_first_index_bounds(s: Seq<char>, c: char, from: int)
    requires
        0 <= from,
    ensures
        first_index(s, c, from) matches Some(j) ==> from <= j < s.len() && s[j] == c,
    decreases s.len() - from,
{
    if from < s.len() {
        lemma_first_index_bounds(s, c, from + 1);
    }
}

pub proof fn lemma_first_colon_minus_bounds(s: Seq<char>, from: int)
    requires
        0 <= from,
    ensures
        first_colon_minus(s, from) matches Some(j) ==> from <= j && j + 1 < s.len(),
    decreases s.len() - from,
{
    if from + 1 < s.len() {
        lemma_first_colon_minus_bounds(s, from + 1);
    }
}

pub proof fn lemma_name_end_bounds(s: Seq<char>, j: int)
    requires
        0 <= j <= s.len(),
    ensures
        j <= name_end(s, j) <= s.len(),
    decreases s.len() - j,
{
    if j < s.len() {
        lemma_name_end_bounds(s, j + 1);
    }
}

pub proof fn lemma_placeholder_bounds(s: Seq<char>, i: int, mode: KeyParsingMode)
    requires
        0 <= i < s.len(),
    ensures
        placeholder_at(s, i, mode) matches Some(p) ==> i < p.0 <= p.1 <= p.3 <= s.len() && (
        p.2 matches Some(d) ==> p.1 + 2 == d.0 && d.0 <= d.1 && d.1 + 1 == p.3),
{
    if i + 1 < s.len() {
        if s[i + 1] == '{' {
            lemma_first_index_bounds(s, '}', i + 2);
            if let Some(end) = first_index(s, '}', i + 2) {
                lemma_first_colon_minus_bounds(s.subrange(i + 2, end), 0);
            }
        } else {
            lemma_name_end_bounds(s, i + 2);
        }
    }
}

/// Where one placeholder lies in the text it was found in.
#[derive(Clone, Copy)]
pub struct Placeholder {
    pub name_start: usize,
    pub name_end: usize,
    pub default: Option<(usize, usize)>,
    pub token_end: usize,
}

pub open spec fn placeholder_model(p: Placeholder) -> PlaceholderModel {
    (
        p.name_start as int,
        p.name_end as int,
        match p.default {
            Some(d) => Some((d.0 as int, d.1 as int)),
            None => None,
        },
        p.token_end as int,
    )
}

/// First index at or after `from` holding `c`.
pub(crate) fn find_char(s: &Vec<char>, c: char, from: usize) -> (r: Option<usize>)
    ensures
        match r {
            Some(j) => first_index(s@, c, from as int) == Some(j as int),
            None => first_index(s@, c, from as int) is None,
        },
{
    let mut i = from;
    while i < s.len()
        invariant
            from <= i,
            first_index(s@, c, i as int) == first_index(s@, c, from as int),
        decreases s.len() - i,
    {
        if s[i] == c {
            return Some(i);
        }
        i += 1;
    }
    None
}

/// Offset in `s[lo..hi]` where the first `:-` starts.
fn find_colon_minus(s: &Vec<char>, lo: usize, hi: usize) -> (r: Option<usize>)
    requires
        lo <= hi <= s.len(),
    ensures
        match r {
            Some(k) => first_colon_minus(s@.subrange(lo as int, hi as int), 0) == Some(k as int),
            None => first_colon_minus(s@.subrange(lo as int, hi as int), 0) is None,
        },
{
    let ghost inner = s@.subrange(lo as int, hi as int);
    let mut k: usize = 0;
    while hi - (lo + k) > 1
        invariant
            lo <= hi <= s.len(),
            inner == s@.subrange(lo as int, hi as int),
            k <= hi - lo,
            first_colon_minus(inner, k as int) == first_colon_minus(inner, 0),
        decreases hi - lo - k,
    {
        if s[lo + k] == ':' && s[lo + k + 1] == '-' {
            return Some(k);
        }
        k += 1;
    }
    None
}

/// End of the run of name characters from `j`.
fn name_run_end(s: &Vec<char>, j: usize) -> (r: usize)
    requires
        j <= s.len(),
    ensures
        r as int == name_end(s@, j as int),
{
    let mut i = j;
    while i < s.len()
        invariant
            j <= i <= s.len(),
            name_end(s@, i as int) == name_end(s@, j as int),
        decreases s.len() - i,
    {
        let c = s[i];
        if !(('a' <= c && c <= 'z') || ('A' <= c && c <= 'Z') || c == '_' || ('0' <= c && c
            <= '9')) {
            return i;
        }
        i += 1;
    }
    i
}

/// Whether `s[lo..hi]` holds key characters only.
fn all_key_chars(s: &Vec<char>, lo: usize, hi: usize, mode: KeyParsingMode) -> (r: bool)
    requires
        lo <= hi <= s.len(),
    ensures
        r == valid_key(s@.subrange(lo as int, hi as int), mode),
{
    let ghost sub = s@.subrange(lo as int, hi as int);
    let mut i = lo;
    while i < hi
        invariant
            lo <= i <= hi <= s.len(),
            sub == s@.subrange(lo as int, hi as int),
            forall|k: int| 0 <= k < i - lo ==> crate::parser::is_key_char(#[trigger] sub[k], mode),
        decreases hi - i,
    {
        if !is_key_character(s[i], mode) {
            assert(sub[i - lo] == s@[i as int]);
            return false;
        }
        i += 1;
    }
    true
}

/// The placeholder whose `$` stands at `start`, if any.
pub fn parse_placeholder(s: &Vec<char>, start: usize, mode: KeyParsingMode) -> (r: Option<
    Placeholder,
>)
    requires
        start < s.len(),
    ensures
        match r {
            Some(p) => placeholder_at(s@, start as int, mode) == Some(placeholder_model(p)),
            None => placeholder_at(s@, start as int, mode) is None,
        },
{
    proof {
        lemma_placeholder_bounds(s@, start as int, mode);
    }
    let n = s.len();
    if start + 1 >= n {
        return None;
    }
    if s[start + 1] == '{' {
        let end = match find_char(s, '}', start + 2) {
            None => {
                return None;
            },
            Some(end) => end,
        };
        proof {
            lemma_first_index_bounds(s@, '}', start + 2);
        }
        let name_start = start + 2;
        let ghost inner = s@.subrange(name_start as int, end as int);
        let op = match mode {
            KeyParsingMode::Strict => find_colon_minus(s, name_start, end),
            KeyParsingMode::Permissive => None,
        };
        match op {
            Some(k) => {
                proof {
                    lemma_first_colon_minus_bounds(inner, 0);
                    assert(inner.subrange(0, k as int) =~= s@.subrange(
                        name_start as int,
                        name_start + k,
                    ));
                }
                if k == 0 || !all_key_chars(s, name_start, name_start + k, mode) {
                    return None;
                }
                Some(
                    Placeholder {
                        name_start,
                        name_end: name_start + k,
                        default: Some((name_start + k + 2, end)),
                        token_end: end + 1,
                    },
                )
            },
            None => {
                if end == name_start || !all_key_chars(s, name_start, end, mode) {
                    return None;
                }
                Some(Placeholder { name_start, name_end: end, default: None, token_end: end + 1 })
            },
        }
    } else {
        let c = s[start + 1];
        if ('a' <= c && c <= 'z') || ('A' <= c && c <= 'Z') || c == '_' {
            let e = name_run_end(s, start + 2);
            Some(Placeholder { name_start: start + 1, name_end: e, default: None, token_end: e })
        } else {
            None
        }
    }
}

// ---------------------------------------------------------------------------
// Resolution

pub open spec fn base_get(base: Map<Seq<char>, Seq<char>>, k: Seq<char>) -> Option<Seq<char>> {
    if base.contains_key(k) {
        Some(base[k])
    } else {
        None
    }
}

/// The value of `key`, with the memo table `cache` and the keys in progress
/// `stack`; returns the value and the memo table afterwards.
pub open spec fn resolve_key_spec(
    ctx: ResolveContext,
    key: Seq<char>,
    stack: Seq<Seq<char>>,
    cache: Assoc,
) -> (Seq<char>, Assoc)
    decreases ctx.raw.len() - stack.len(), 0int, 0int,
{
    match assoc_get(cache, key) {
        Some(v) => (v, cache),
        None => if !ctx.override_existing && ctx.base.contains_key(key) {
            (ctx.base[key], cache.push((key, ctx.base[key])))
        } else {
            match assoc_get(ctx.raw, key) {
                None => (
                    match base_get(ctx.base, key) {
                        Some(v) => v,
                        None => Seq::empty(),
                    },
                    cache,
                ),
                Some(raw) => if stack.len() >= ctx.raw.len() {
                    // Not reached: a resolution's stack holds distinct keys of
                    // the table, none of them `key` (see `lemma_stack_bound`).
                    (raw, cache)
                } else {
                    let (out, c) = expand_spec(ctx, raw, 0, stack.push(key), cache);
                    (out, c.push((key, out)))
                },
            }
        },
    }
}

/// What one placeholder expands to. A name already in progress, or one that
/// neither the table nor the base holds, gives the default or the token text;
/// with a default, an empty value gives the default.
pub open spec fn resolve_placeholder_spec(
    ctx: ResolveContext,
    name: Seq<char>,
    token: Seq<char>,
    default: Option<Seq<char>>,
    stack: Seq<Seq<char>>,
    cache: Assoc,
) -> (Seq<char>, Assoc)
    decreases ctx.raw.len() - stack.len(), 1int, 0int,
{
    let fallback = match default {
        Some(d) => d,
        None => token,
    };
    if stack.contains(name) {
        (fallback, cache)
    } else {
        let (resolved, c) = if assoc_get(ctx.raw, name) is Some {
            let (v, c) = resolve_key_spec(ctx, name, stack, cache);
            (Some(v), c)
        } else {
            (base_get(ctx.base, name), cache)
        };
        match resolved {
            Some(v) => if default is Some && v.len() == 0 {
                (fallback, c)
            } else {
                (v, c)
            },
            None => (fallback, c),
        }
    }
}

/// Expansion of `s` from index `i` on. `\$` after an odd run of backslashes
/// gives `$` (one backslash dropped); a placeholder gives its resolution; any
/// other character stays.
pub open spec fn expand_spec(
    ctx: ResolveContext,
    s: Seq<char>,
    i: int,
    stack: Seq<Seq<char>>,
    cache: Assoc,
) -> (Seq<char>, Assoc)
    decreases ctx.raw.len() - stack.len(), 2int, s.len() - i,
    via expand_spec_decreases
{
    if i < 0 || i >= s.len() {
        (Seq::empty(), cache)
    } else if s[i] == '\\' && i + 1 < s.len() && s[i + 1] == '$' && is_escaped(s, i + 1) {
        let (rest, c) = expand_spec(ctx, s, i + 2, stack, cache);
        (seq!['$'] + rest, c)
    } else if s[i] == '$' && placeholder_at(s, i, ctx.mode) is Some {
        let p = placeholder_at(s, i, ctx.mode)->0;
        let default = match p.2 {
            Some(d) => Some(s.subrange(d.0, d.1)),
            None => None,
        };
        let (v, c1) = resolve_placeholder_spec(
            ctx,
            s.subrange(p.0, p.1),
            s.subrange(i, p.3),
            default,
            stack,
            cache,
        );
        let (rest, c2) = expand_spec(ctx, s, p.3, stack, c1);
        (v + rest, c2)
    } else {
        let (rest, c) = expand_spec(ctx, s, i + 1, stack, cache);
        (seq![s[i]] + rest, c)
    }
}

#[via_fn]
proof fn expand_spec_decreases(
    ctx: ResolveContext,
    s: Seq<char>,
    i: int,
    stack: Seq<Seq<char>>,
    cache: Assoc,
) {
    if 0 <= i < s.len() {
        lemma_placeholder_bounds(s, i, ctx.mode);
    }
}

proof fn lemma_assoc_get_in_keys(raw: Assoc, k: Seq<char>)
    requires
        assoc_get(raw, k) is Some,
    ensures
        raw.map_values(|p: (Seq<char>, Seq<char>)| p.0).contains(k),
    decreases raw.len(),
{
    let keys = raw.map_values(|p: (Seq<char>, Seq<char>)| p.0);
    if raw.last().0 == k {
        assert(keys[raw.len() - 1] == k);
    } else {
        lemma_assoc_get_in_keys(raw.drop_last(), k);
        let sub = raw.drop_last().map_values(|p: (Seq<char>, Seq<char>)| p.0);
        let i = choose|i: int| 0 <= i < sub.len() && sub[i] == k;
        assert(keys[i] == k);
    }
}

/// A stack of distinct keys of the table that lacks `key`, another key of the
/// table, is shorter than the table: pushing `key` never meets the length
/// guard of `resolve_key_spec`.
pub proof fn lemma_stack_bound(raw: Assoc, stack: Seq<Seq<char>>, key: Seq<char>)
    requires
        stack.no_duplicates(),
        forall|i: int| 0 <= i < stack.len() ==> assoc_get(raw, #[trigger] stack[i]) is Some,
        assoc_get(raw, key) is Some,
        !stack.contains(key),
    ensures
        stack.len() < raw.len(),
{
    let keys = raw.map_values(|p: (Seq<char>, Seq<char>)| p.0);
    let pushed = stack.push(key);
    assert(pushed.no_duplicates()) by {
        assert forall|i: int, j: int| 0 <= i < pushed.len() && 0 <= j < pushed.len() && i != j implies pushed[i] != pushed[j] by {
            if i < stack.len() && j < stack.len() {
            } else if i == stack.len() {
                assert(stack[j] == pushed[j]);
            } else {
                assert(stack[i] == pushed[i]);
            }
        }
    }
    pushed.unique_seq_to_set();
    assert forall|k: Seq<char>| pushed.to_set().contains(k) implies keys.to_set().contains(k) by {
        let i = choose|i: int| 0 <= i < pushed.len() && pushed[i] == k;
        if i < stack.len() {
            assert(stack[i] == pushed[i]);
        }
        lemma_assoc_get_in_keys(raw, k);
    }
    vstd::seq_lib::seq_to_set_is_finite(keys);
    vstd::set_lib::lemma_len_subset(pushed.to_set(), keys.to_set());
    keys.lemma_cardinality_of_set();
}

/// Values of the keys `keys[j..]`, each resolved with an empty stack, the
/// memo table carried from one to the next.
pub open spec fn resolve_from(
    ctx: ResolveContext,
    keys: Seq<Seq<char>>,
    j: int,
    cache: Assoc,
) -> Seq<Seq<char>>
    decreases keys.len() - j,
{
    if j < 0 || j >= keys.len() {
        Seq::empty()
    } else {
        let (v, c) = resolve_key_spec(ctx, keys[j], Seq::empty(), cache);
        seq![v] + resolve_from(ctx, keys, j + 1, c)
    }
}

/// The resolved value of every entry of the table, in order.
pub open spec fn resolved_values(ctx: ResolveContext) -> Seq<Seq<char>> {
    resolve_from(ctx, ctx.raw.map_values(|p: (Seq<char>, Seq<char>)| p.0), 0, Seq::empty())
}

/// Keys and raw values of `entries`.
pub open spec fn raw_of(entries: Seq<Entry>) -> Assoc {
    entries.map_values(|e: Entry| (e.key@, e.value@))
}

pub open spec fn context_of(
    entries: Seq<Entry>,
    target: &TargetEnv,
    override_existing: bool,
    mode: KeyParsingMode,
) -> ResolveContext {
    ResolveContext { raw: raw_of(entries), base: target@, override_existing, mode }
}

// ---------------------------------------------------------------------------
// Executable resolver

pub open spec fn assoc_view(l: Seq<(Vec<char>, Vec<char>)>) -> Assoc {
    l.map_values(|p: (Vec<char>, Vec<char>)| (p.0@, p.1@))
}

pub open spec fn stack_view(v: Seq<Vec<char>>) -> Seq<Seq<char>> {
    v.map_values(|x: Vec<char>| x@)
}

pub open spec fn opt_chars(o: Option<Vec<char>>) -> Option<Seq<char>> {
    match o {
        Some(v) => Some(v@),
        None => None,
    }
}

pub open spec fn ctx_of(
    raw: Seq<(Vec<char>, Vec<char>)>,
    target: &TargetEnv,
    override_existing: bool,
    mode: KeyParsingMode,
) -> ResolveContext {
    ResolveContext { raw: assoc_view(raw), base: target@, override_existing, mode }
}

/// The keys in progress are distinct keys of the table.
pub open spec fn stack_ok(raw: Assoc, stack: Seq<Seq<char>>) -> bool {
    &&& stack.no_duplicates()
    &&& forall|i: int| 0 <= i < stack.len() ==> assoc_get(raw, #[trigger] stack[i]) is Some
}

proof fn lemma_assoc_get_index(raw: Assoc, j: int)
    requires
        0 <= j < raw.len(),
    ensures
        assoc_get(raw, raw[j].0) is Some,
    decreases raw.len(),
{
    if j < raw.len() - 1 && raw.last().0 != raw[j].0 {
        assert(raw.drop_last()[j] == raw[j]);
        lemma_assoc_get_index(raw.drop_last(), j);
    }
}

/// A copy of `v`.
fn copy_chars(v: &Vec<char>) -> (r: Vec<char>)
    ensures
        r@ == v@,
{
    assert(v@.subrange(0, v@.len() as int) =~= v@);
    slice_chars(v, 0, v.len())
}

/// Appends the characters `v` to `out`.
fn push_all(out: &mut Vec<char>, v: &Vec<char>)
    ensures
        final(out)@ == old(out)@ + v@,
{
    let ghost start = out@;
    let mut i: usize = 0;
    while i < v.len()
        invariant
            i <= v.len(),
            out@ == start + v@.subrange(0, i as int),
        decreases v.len() - i,
    {
        out.push(v[i]);
        i += 1;
        assert(out@ =~= start + v@.subrange(0, i as int));
    }
    assert(v@.subrange(0, v@.len() as int) =~= v@);
}

/// Index of the last pair of `l` with key `k`.
fn assoc_find(l: &Vec<(Vec<char>, Vec<char>)>, k: &Vec<char>) -> (r: Option<usize>)
    ensures
        match r {
            Some(i) => i < l.len() && assoc_get(assoc_view(l@), k@) == Some(l@[i as int].1@),
            None => assoc_get(assoc_view(l@), k@) is None,
        },
{
    let ghost all = assoc_view(l@);
    let mut j = l.len();
    assert(all.subrange(0, j as int) =~= all);
    while j > 0
        invariant
            j <= l.len(),
            all == assoc_view(l@),
            assoc_get(all, k@) == assoc_get(all.subrange(0, j as int), k@),
        decreases j,
    {
        let ghost pre = all.subrange(0, j as int);
        assert(pre.drop_last() =~= all.subrange(0, j - 1));
        assert(pre.last() == all[j - 1]);
        assert(l@[j - 1].0@.subrange(0, l@[j - 1].0@.len() as int) =~= l@[j - 1].0@);
        if chars_equal(&l[j - 1].0, 0, l[j - 1].0.len(), k) {
            return Some(j - 1);
        }
        j -= 1;
    }
    None
}

/// Whether `name` is one of the keys in progress.
fn stack_contains(stack: &Vec<Vec<char>>, name: &Vec<char>) -> (r: bool)
    ensures
        r == stack_view(stack@).contains(name@),
{
    let mut i: usize = 0;
    while i < stack.len()
        invariant
            i <= stack.len(),
            forall|j: int| 0 <= j < i ==> stack_view(stack@)[j] != name@,
        decreases stack.len() - i,
    {
        assert(stack@[i as int]@.subrange(0, stack@[i as int]@.len() as int) =~= stack@[i as int]@);
        if chars_equal(&stack[i], 0, stack[i].len(), name) {
            assert(stack_view(stack@)[i as int] == name@);
            return true;
        }
        i += 1;
    }
    false
}

/// The value of `key`, memoised in `cache`, with `stack` the keys in progress.
fn resolve_key(
    raw: &Vec<(Vec<char>, Vec<char>)>,
    target: &TargetEnv,
    override_existing: bool,
    mode: KeyParsingMode,
    key: &Vec<char>,
    stack: &mut Vec<Vec<char>>,
    cache: &mut Vec<(Vec<char>, Vec<char>)>,
) -> (r: Vec<char>)
    requires
        stack_ok(assoc_view(raw@), stack_view(old(stack)@)),
        assoc_get(assoc_view(raw@), key@) is Some,
        !stack_view(old(stack)@).contains(key@),
    ensures
        stack_view(final(stack)@) == stack_view(old(stack)@),
        (r@, assoc_view(final(cache)@)) == resolve_key_spec(
            ctx_of(raw@, target, override_existing, mode),
            key@,
            stack_view(old(stack)@),
            assoc_view(old(cache)@),
        ),
    decreases raw@.len() - old(stack)@.len(), 0int, 0int,
{
    if let Some(i) = assoc_find(cache, key) {
        return copy_chars(&cache[i].1);
    }
    let key_text = string_of(key, 0, key.len());
    assert(key@.subrange(0, key@.len() as int) =~= key@);
    if !override_existing && target.contains_key(key_text.as_str()) {
        let v = match target.get_var(key_text.as_str()) {
            Some(v) => chars_of(v.as_str()),
            None => Vec::new(),
        };
        let ghost before = cache@;
        cache.push((copy_chars(key), copy_chars(&v)));
        assert(assoc_view(cache@) =~= assoc_view(before).push((key@, v@)));
        return v;
    }
    match assoc_find(raw, key) {
        None => {
            let r = match target.get_var(key_text.as_str()) {
                Some(v) => chars_of(v.as_str()),
                None => Vec::new(),
            };
            assert(r@ =~= match base_get(target@, key@) {
                Some(v) => v,
                None => Seq::empty(),
            });
            r
        },
        Some(j) => {
            let ghost before_stack = stack_view(stack@);
            proof {
                lemma_stack_bound(assoc_view(raw@), before_stack, key@);
            }
            stack.push(copy_chars(key));
            assert(stack_view(stack@) =~= before_stack.push(key@));
            proof {
                let pushed = stack_view(stack@);
                assert forall|a: int, b: int| 0 <= a < b < pushed.len() implies pushed[a] != pushed[b] by {
                    if b == before_stack.len() {
                        assert(before_stack[a] == pushed[a]);
                    } else {
                        assert(before_stack[a] == pushed[a]);
                        assert(before_stack[b] == pushed[b]);
                    }
                }
                assert forall|a: int| 0 <= a < pushed.len() implies assoc_get(assoc_view(raw@), #[trigger] pushed[a]) is Some by {
                    if a < before_stack.len() {
                        assert(before_stack[a] == pushed[a]);
                    }
                }
            }
            let out = expand_template(raw, target, override_existing, mode, &raw[j].1, stack, cache);
            let ghost expanded = stack@;
            stack.pop();
            assert(stack_view(stack@) =~= stack_view(expanded).drop_last());
            assert(stack_view(stack@) =~= before_stack);
            let ghost before = cache@;
            cache.push((copy_chars(key), copy_chars(&out)));
            assert(assoc_view(cache@) =~= assoc_view(before).push((key@, out@)));
            out
        },
    }
}

/// What one placeholder, named `name` and written `token`, expands to.
fn resolve_placeholder(
    raw: &Vec<(Vec<char>, Vec<char>)>,
    target: &TargetEnv,
    override_existing: bool,
    mode: KeyParsingMode,
    name: &Vec<char>,
    token: &Vec<char>,
    default: &Option<Vec<char>>,
    stack: &mut Vec<Vec<char>>,
    cache: &mut Vec<(Vec<char>, Vec<char>)>,
) -> (r: Vec<char>)
    requires
        stack_ok(assoc_view(raw@), stack_view(old(stack)@)),
    ensures
        stack_view(final(stack)@) == stack_view(old(stack)@),
        (r@, assoc_view(final(cache)@)) == resolve_placeholder_spec(
            ctx_of(raw@, target, override_existing, mode),
            name@,
            token@,
            opt_chars(*default),
            stack_view(old(stack)@),
            assoc_view(old(cache)@),
        ),
    decreases raw@.len() - old(stack)@.len(), 1int, 0int,
{
    let fallback = match default {
        Some(d) => copy_chars(d),
        None => copy_chars(token),
    };
    if stack_contains(stack, name) {
        return fallback;
    }
    let resolved: Option<Vec<char>> = if assoc_find(raw, name).is_some() {
        Some(resolve_key(raw, target, override_existing, mode, name, stack, cache))
    } else {
        let name_text = string_of(name, 0, name.len());
        assert(name@.subrange(0, name@.len() as int) =~= name@);
        match target.get_var(name_text.as_str()) {
            Some(v) => Some(chars_of(v.as_str())),
            None => None,
        }
    };
    match resolved {
        Some(v) => {
            if default.is_some() && v.len() == 0 {
                fallback
            } else {
                v
            }
        },
        None => fallback,
    }
}

/// Expansion of the whole of `s`.
fn expand_template(
    raw: &Vec<(Vec<char>, Vec<char>)>,
    target: &TargetEnv,
    override_existing: bool,
    mode: KeyParsingMode,
    s: &Vec<char>,
    stack: &mut Vec<Vec<char>>,
    cache: &mut Vec<(Vec<char>, Vec<char>)>,
) -> (r: Vec<char>)
    requires
        stack_ok(assoc_view(raw@), stack_view(old(stack)@)),
    ensures
        stack_view(final(stack)@) == stack_view(old(stack)@),
        (r@, assoc_view(final(cache)@)) == expand_spec(
            ctx_of(raw@, target, override_existing, mode),
            s@,
            0,
            stack_view(old(stack)@),
            assoc_view(old(cache)@),
        ),
    decreases raw@.len() - old(stack)@.len(), 2int, 0int,
{
    let ghost ctx = ctx_of(raw@, target, override_existing, mode);
    let ghost stk = stack_view(stack@);
    let ghost total = expand_spec(ctx, s@, 0, stk, assoc_view(cache@));
    let n = s.len();
    let mut out: Vec<char> = Vec::new();
    let mut i: usize = 0;
    assert(out@ + total.0 =~= total.0);
    assert(stk.len() == old(stack)@.len());
    while i < n
        invariant
            n == s.len(),
            i <= n,
            ctx == ctx_of(raw@, target, override_existing, mode),
            stack_view(stack@) == stk,
            stack_ok(assoc_view(raw@), stk),
            stack@.len() == old(stack)@.len(),
            total.0 == out@ + expand_spec(ctx, s@, i as int, stk, assoc_view(cache@)).0,
            total.1 == expand_spec(ctx, s@, i as int, stk, assoc_view(cache@)).1,
        decreases n - i,
    {
        let ghost step = expand_spec(ctx, s@, i as int, stk, assoc_view(cache@));
        let ghost before = out@;
        if s[i] == '\\' && i + 1 < n && s[i + 1] == '$' && escaped_at(s, i + 1) {
            out.push('$');
            i += 2;
            assert(out@ + expand_spec(ctx, s@, i as int, stk, assoc_view(cache@)).0 =~= before
                + step.0);
        } else if s[i] == '$' {
            match parse_placeholder(s, i, mode) {
                Some(p) => {
                    proof {
                        lemma_placeholder_bounds(s@, i as int, mode);
                    }
                    let name = slice_chars(s, p.name_start, p.name_end);
                    let token = slice_chars(s, i, p.token_end);
                    let default = match p.default {
                        Some((a, b)) => Some(slice_chars(s, a, b)),
                        None => None,
                    };
                    let v = resolve_placeholder(
                        raw,
                        target,
                        override_existing,
                        mode,
                        &name,
                        &token,
                        &default,
                        stack,
                        cache,
                    );
                    assert(stack@.len() == stack_view(stack@).len());
                    push_all(&mut out, &v);
                    i = p.token_end;
                    assert(out@ + expand_spec(ctx, s@, i as int, stk, assoc_view(cache@)).0
                        =~= before + step.0);
                },
                None => {
                    out.push('$');
                    i += 1;
                    assert(out@ + expand_spec(ctx, s@, i as int, stk, assoc_view(cache@)).0
                        =~= before + step.0);
                },
            }
        } else {
            out.push(s[i]);
            i += 1;
            assert(out@ + expand_spec(ctx, s@, i as int, stk, assoc_view(cache@)).0 =~= before
                + step.0);
        }
    }
    assert(out@ + Seq::<char>::empty() =~= out@);
    out
}

/// Expand the placeholders in the value of every entry, in order, against the
/// entry table itself and the base store `target`. Keys, sources and lines
/// stay as they are.
pub fn resolve(
    entries: &mut Vec<Entry>,
    target: &TargetEnv,
    override_existing: bool,
    key_parsing_mode: KeyParsingMode,
)
    ensures
        final(entries)@.len() == old(entries)@.len(),
        forall|j: int|
            0 <= j < old(entries)@.len() ==> {
                &&& (#[trigger] final(entries)@[j]).key == old(entries)@[j].key
                &&& final(entries)@[j].source == old(entries)@[j].source
                &&& final(entries)@[j].line == old(entries)@[j].line
                &&& final(entries)@[j].value@ == resolved_values(
                    context_of(old(entries)@, target, override_existing, key_parsing_mode),
                )[j]
            },
{
    let n = entries.len();
    let mut raw: Vec<(Vec<char>, Vec<char>)> = Vec::new();
    let mut i: usize = 0;
    while i < n
        invariant
            n == entries.len(),
            i <= n,
            assoc_view(raw@) == raw_of(entries@).subrange(0, i as int),
        decreases n - i,
    {
        let k = chars_of(entries[i].key.as_str());
        let v = chars_of(entries[i].value.as_str());
        let ghost before = raw@;
        raw.push((k, v));
        assert(assoc_view(raw@) =~= assoc_view(before).push((entries@[i as int].key@, entries@[i as int].value@)));
        i += 1;
        assert(assoc_view(raw@) =~= raw_of(entries@).subrange(0, i as int));
    }
    assert(raw_of(entries@).subrange(0, n as int) =~= raw_of(entries@));
    let ghost ctx = ctx_of(raw@, target, override_existing, key_parsing_mode);
    assert(ctx == context_of(entries@, target, override_existing, key_parsing_mode));
    let ghost keys = ctx.raw.map_values(|p: (Seq<char>, Seq<char>)| p.0);
    let mut cache: Vec<(Vec<char>, Vec<char>)> = Vec::new();
    let mut stack: Vec<Vec<char>> = Vec::new();
    let mut out: Vec<Entry> = Vec::new();
    let mut j: usize = 0;
    assert(assoc_view(cache@) =~= Seq::<(Seq<char>, Seq<char>)>::empty());
    assert(out@.map_values(|e: Entry| e.value@) + resolve_from(ctx, keys, 0, assoc_view(cache@))
        =~= resolved_values(ctx));
    while j < n
        invariant
            n == entries.len(),
            n == raw.len(),
            j <= n,
            out@.len() == j,
            ctx == ctx_of(raw@, target, override_existing, key_parsing_mode),
            assoc_view(raw@) == raw_of(entries@),
            keys == ctx.raw.map_values(|p: (Seq<char>, Seq<char>)| p.0),
            stack@.len() == 0,
            out@.map_values(|e: Entry| e.value@) + resolve_from(ctx, keys, j as int, assoc_view(cache@))
                == resolved_values(ctx),
            forall|k: int|
                0 <= k < j ==> {
                    &&& (#[trigger] out@[k]).key == entries@[k].key
                    &&& out@[k].source == entries@[k].source
                    &&& out@[k].line == entries@[k].line
                },
        decreases n - j,
    {
        assert(stack_view(stack@) =~= Seq::<Seq<char>>::empty());
        assert(keys[j as int] == raw@[j as int].0@);
        proof {
            lemma_assoc_get_index(assoc_view(raw@), j as int);
        }
        let ghost vals = out@.map_values(|e: Entry| e.value@);
        let ghost rest = resolve_from(ctx, keys, j as int, assoc_view(cache@));
        let v = resolve_key(
            &raw,
            target,
            override_existing,
            key_parsing_mode,
            &raw[j].0,
            &mut stack,
            &mut cache,
        );
        assert(stack@.len() == 0);
        let e = Entry {
            key: entries[j].key.clone(),
            value: string_of(&v, 0, v.len()),
            source: copy_source(&entries[j].source),
            line: entries[j].line,
        };
        assert(v@.subrange(0, v@.len() as int) =~= v@);
        out.push(e);
        assert(out@.map_values(|e: Entry| e.value@) =~= vals.push(v@));
        assert(out@.map_values(|e: Entry| e.value@) + resolve_from(
            ctx,
            keys,
            j + 1,
            assoc_view(cache@),
        ) =~= vals + rest);
        j += 1;
    }
    assert(resolve_from(ctx, keys, n as int, assoc_view(cache@)) =~= Seq::<Seq<char>>::empty());
    assert(out@.map_values(|e: Entry| e.value@) =~= resolved_values(ctx));
    *entries = out;
}

} // verus!
