//! The dotenv grammar: statement segmentation, key validation and value
//! parsing, with the entry table that collects the results.
use vstd::prelude::*;
use vstd::utf8::{decode_utf8, decode_utf8_encode_utf8, encode_utf8, valid_utf8};

use crate::error::{input_too_large, Error, ParseError, ParseErrorKind};
use crate::model::{Entry, KeyParsingMode};
use crate::text::{
    chars_of, string_of,
    escaped_at, is_escaped, is_whitespace, is_ws, lemma_trim_start_suffix,
    lemma_utf8_len_bound, lemma_utf8_len_prefix, skip_ws, slice_chars, trim_end, trim_start,
    trim_ws_end, utf8_len, utf8_len_of,
};

verus! {

/// Inputs are limited to this many characters: lines and columns are 32-bit
/// counters, and a column counts UTF-8 bytes (at most four per character).
pub const MAX_INPUT_CHARS: usize = 0x3FFF_FFFF;

/// A parsed statement before it is given a source: key, value and line.
pub type EntryModel = (Seq<char>, Seq<char>, int);

/// Error of a whole parse: line, column, kind.
pub type ErrorModel = (int, int, ParseErrorKind);

// ---------------------------------------------------------------------------
// Newline normalisation

/// CRLF and lone CR both become LF.
pub open spec fn normalize(s: Seq<char>) -> Seq<char>
    decreases s.len(),
{
    if s.len() == 0 {
        s
    } else if s[0] == '\r' {
        if s.len() > 1 && s[1] == '\n' {
            seq!['\n'] + normalize(s.subrange(2, s.len() as int))
        } else {
            seq!['\n'] + normalize(s.drop_first())
        }
    } else {
        seq![s[0]] + normalize(s.drop_first())
    }
}

pub proof fn lemma_normalize_len(s: Seq<char>)
    ensures
        normalize(s).len() <= s.len(),
    decreases s.len(),
{
    if s.len() > 0 {
        if s[0] == '\r' && s.len() > 1 && s[1] == '\n' {
            lemma_normalize_len(s.subrange(2, s.len() as int));
        } else {
            lemma_normalize_len(s.drop_first());
        }
    }
}

/// `input` with CRLF and lone CR turned into LF.
fn normalize_newlines(input: &Vec<char>) -> (r: Vec<char>)
    ensures
        r@ == normalize(input@),
{
    let n = input.len();
    let mut out: Vec<char> = Vec::new();
    let mut i: usize = 0;
    assert(input@.subrange(0, n as int) =~= input@);
    assert(out@ + normalize(input@) =~= normalize(input@));
    while i < n
        invariant
            n == input.len(),
            i <= n,
            out@ + normalize(input@.subrange(i as int, n as int)) == normalize(input@),
        decreases n - i,
    {
        let ghost rest = input@.subrange(i as int, n as int);
        if input[i] == '\r' {
            out.push('\n');
            if i + 1 < n && input[i + 1] == '\n' {
                assert(rest.subrange(2, rest.len() as int) =~= input@.subrange(i + 2, n as int));
                i += 2;
            } else {
                assert(rest.drop_first() =~= input@.subrange(i + 1, n as int));
                i += 1;
            }
        } else {
            out.push(input[i]);
            assert(rest.drop_first() =~= input@.subrange(i + 1, n as int));
            i += 1;
        }
        assert(out@ + normalize(input@.subrange(i as int, n as int)) =~= normalize(input@));
    }
    assert(input@.subrange(n as int, n as int) =~= Seq::<char>::empty());
    assert(out@ =~= normalize(input@));
    out
}

// ---------------------------------------------------------------------------
// Statement segmentation

pub open spec fn is_quote(c: char) -> bool {
    c == '"' || c == '\'' || c == '`'
}

/// Where the statement scanned from `i` ends: at the first line feed seen
/// outside a quote, or at the end of the text. A quote may open only after an
/// unescaped `=`, and closes on the same quote character when it is not escaped.
pub open spec fn statement_end(s: Seq<char>, i: int, quote: Option<char>, started: bool) -> int
    decreases s.len() - i,
{
    if i < 0 || i >= s.len() {
        s.len() as int
    } else if s[i] == '\n' && quote is None {
        i
    } else if s[i] == '\n' {
        statement_end(s, i + 1, quote, started)
    } else if quote is Some {
        if s[i] == quote->0 && !is_escaped(s, i) {
            statement_end(s, i + 1, None, started)
        } else {
            statement_end(s, i + 1, quote, started)
        }
    } else if !started && s[i] == '=' && !is_escaped(s, i) {
        statement_end(s, i + 1, None, true)
    } else if started && is_quote(s[i]) {
        statement_end(s, i + 1, Some(s[i]), started)
    } else {
        statement_end(s, i + 1, quote, started)
    }
}

pub proof fn lemma_statement_end_bounds(s: Seq<char>, i: int, quote: Option<char>, started: bool)
    requires
        0 <= i <= s.len(),
    ensures
        i <= statement_end(s, i, quote, started) <= s.len(),
        statement_end(s, i, quote, started) < s.len() ==> s[statement_end(s, i, quote, started)]
            == '\n',
    decreases s.len() - i,
{
    if i < s.len() {
        lemma_statement_end_bounds(s, i + 1, None, started);
        lemma_statement_end_bounds(s, i + 1, None, true);
        lemma_statement_end_bounds(s, i + 1, quote, started);
        lemma_statement_end_bounds(s, i + 1, Some(s[i]), started);
    }
}

/// Index where the statement starting at `start` ends.
fn find_statement_end(s: &Vec<char>, start: usize) -> (r: usize)
    requires
        start <= s.len(),
    ensures
        r as int == statement_end(s@, start as int, None, false),
        start <= r <= s.len(),
{
    proof {
        lemma_statement_end_bounds(s@, start as int, None, false);
    }
    let n = s.len();
    let mut i = start;
    let mut quote: Option<char> = None;
    let mut started = false;
    while i < n
        invariant
            n == s.len(),
            start <= i <= n,
            statement_end(s@, i as int, quote, started) == statement_end(
                s@,
                start as int,
                None,
                false,
            ),
        decreases n - i,
    {
        let c = s[i];
        if c == '\n' {
            if quote.is_none() {
                return i;
            }
        } else if let Some(q) = quote {
            if c == q && !escaped_at(s, i) {
                quote = None;
            }
        } else if !started && c == '=' && !escaped_at(s, i) {
            started = true;
        } else if started && (c == '"' || c == '\'' || c == '`') {
            quote = Some(c);
        }
        i += 1;
    }
    i
}

pub open spec fn count_newlines(s: Seq<char>) -> nat
    decreases s.len(),
{
    if s.len() == 0 {
        0
    } else {
        count_newlines(s.drop_last()) + if s.last() == '\n' {
            1nat
        } else {
            0nat
        }
    }
}

pub proof fn lemma_count_newlines_bound(s: Seq<char>)
    ensures
        count_newlines(s) <= s.len(),
    decreases s.len(),
{
    if s.len() > 0 {
        lemma_count_newlines_bound(s.drop_last());
    }
}

pub proof fn lemma_count_newlines_concat(a: Seq<char>, b: Seq<char>)
    ensures
        count_newlines(a + b) == count_newlines(a) + count_newlines(b),
    decreases b.len(),
{
    if b.len() > 0 {
        lemma_count_newlines_concat(a, b.drop_last());
        assert((a + b).drop_last() =~= a + b.drop_last());
    } else {
        assert(a + b =~= a);
    }
}

/// Number of line feeds in `s[lo..hi]`.
fn newlines_in(s: &Vec<char>, lo: usize, hi: usize) -> (r: usize)
    requires
        lo <= hi <= s.len(),
    ensures
        r == count_newlines(s@.subrange(lo as int, hi as int)),
{
    let mut i = lo;
    let mut count: usize = 0;
    while i < hi
        invariant
            lo <= i <= hi <= s.len(),
            count == count_newlines(s@.subrange(lo as int, i as int)),
        decreases hi - i,
    {
        proof {
            lemma_count_newlines_bound(s@.subrange(lo as int, i as int));
            assert(s@.subrange(lo as int, i + 1).drop_last() =~= s@.subrange(lo as int, i as int));
        }
        if s[i] == '\n' {
            count += 1;
        }
        i += 1;
    }
    count
}

// ---------------------------------------------------------------------------
// Key validation

/// `[A-Za-z0-9_.-]`
pub open spec fn is_strict_key_char(c: char) -> bool {
    ('a' <= c && c <= 'z') || ('A' <= c && c <= 'Z') || ('0' <= c && c <= '9') || c == '_' || c
        == '.' || c == '-'
}

/// Printable ASCII (`!` to `~`) but `=`.
pub open spec fn is_permissive_key_char(c: char) -> bool {
    '!' <= c && c <= '~' && c != '='
}

pub open spec fn is_key_char(c: char, mode: KeyParsingMode) -> bool {
    match mode {
        KeyParsingMode::Strict => is_strict_key_char(c),
        KeyParsingMode::Permissive => is_permissive_key_char(c),
    }
}

pub open spec fn valid_key(key: Seq<char>, mode: KeyParsingMode) -> bool {
    forall|i: int| 0 <= i < key.len() ==> is_key_char(#[trigger] key[i], mode)
}

pub fn is_strict_key_character(c: char) -> (r: bool)
    ensures
        r == is_strict_key_char(c),
{
    ('a' <= c && c <= 'z') || ('A' <= c && c <= 'Z') || ('0' <= c && c <= '9') || c == '_' || c
        == '.' || c == '-'
}

pub fn is_permissive_key_character(c: char) -> (r: bool)
    ensures
        r == is_permissive_key_char(c),
{
    '!' <= c && c <= '~' && c != '='
}

pub fn is_key_character(c: char, mode: KeyParsingMode) -> (r: bool)
    ensures
        r == is_key_char(c, mode),
{
    match mode {
        KeyParsingMode::Strict => is_strict_key_character(c),
        KeyParsingMode::Permissive => is_permissive_key_character(c),
    }
}

/// Whether every character of `key` passes the key rule of `mode`.
pub fn is_valid_key(key: &Vec<char>, mode: KeyParsingMode) -> (r: bool)
    ensures
        r == valid_key(key@, mode),
{
    let mut i: usize = 0;
    while i < key.len()
        invariant
            i <= key.len(),
            forall|k: int| 0 <= k < i ==> is_key_char(#[trigger] key@[k], mode),
        decreases key.len() - i,
    {
        if !is_key_character(key[i], mode) {
            return false;
        }
        i += 1;
    }
    true
}

// ---------------------------------------------------------------------------
// Values

/// First index at or after `from` that holds `c` and is not escaped.
pub open spec fn first_unescaped(s: Seq<char>, c: char, from: int) -> Option<int>
    decreases s.len() - from,
{
    if from < 0 || from >= s.len() {
        None
    } else if s[from] == c && !is_escaped(s, from) {
        Some(from)
    } else {
        first_unescaped(s, c, from + 1)
    }
}

/// First index at or after `from` holding an unescaped `c`.
fn find_unescaped(s: &Vec<char>, c: char, from: usize) -> (r: Option<usize>)
    ensures
        match r {
            Some(j) => first_unescaped(s@, c, from as int) == Some(j as int) && from <= j < s.len()
                && s@[j as int] == c,
            None => first_unescaped(s@, c, from as int) is None,
        },
{
    let mut i = from;
    while i < s.len()
        invariant
            from <= i,
            first_unescaped(s@, c, i as int) == first_unescaped(s@, c, from as int),
        decreases s.len() - i,
    {
        if s[i] == c && !escaped_at(s, i) {
            return Some(i);
        }
        i += 1;
    }
    None
}

/// Every `$` becomes `\$`, so that a later expansion pass keeps it literal.
pub open spec fn escape_dollars(s: Seq<char>) -> Seq<char>
    decreases s.len(),
{
    if s.len() == 0 {
        s
    } else {
        (if s[0] == '$' {
            seq!['\\', '$']
        } else {
            seq![s[0]]
        }) + escape_dollars(s.drop_first())
    }
}

/// `v` with every `$` written as `\$`.
fn escape_dollar_signs(v: &Vec<char>) -> (r: Vec<char>)
    ensures
        r@ == escape_dollars(v@),
{
    let n = v.len();
    let mut out: Vec<char> = Vec::new();
    let mut i: usize = 0;
    assert(v@.subrange(0, n as int) =~= v@);
    assert(out@ + escape_dollars(v@) =~= escape_dollars(v@));
    while i < n
        invariant
            n == v.len(),
            i <= n,
            out@ + escape_dollars(v@.subrange(i as int, n as int)) == escape_dollars(v@),
        decreases n - i,
    {
        assert(v@.subrange(i as int, n as int).drop_first() =~= v@.subrange(i + 1, n as int));
        if v[i] == '$' {
            out.push('\\');
        }
        out.push(v[i]);
        i += 1;
        assert(out@ + escape_dollars(v@.subrange(i as int, n as int)) =~= escape_dollars(v@));
    }
    assert(v@.subrange(n as int, n as int) =~= Seq::<char>::empty());
    assert(out@ =~= escape_dollars(v@));
    out
}

/// What one backslash escape inside double quotes produces.
pub open spec fn unescaped_char(c: char, preserve_dollar: bool) -> Seq<char> {
    if c == 'n' {
        seq!['\n']
    } else if c == 'r' {
        seq!['\r']
    } else if c == 't' {
        seq!['\t']
    } else if c == '$' && preserve_dollar {
        seq!['\\', '$']
    } else {
        seq![c]
    }
}

/// The text between double quotes with its backslash escapes applied.
pub open spec fn unescape(s: Seq<char>, preserve_dollar: bool) -> Seq<char>
    decreases s.len(),
{
    if s.len() == 0 {
        s
    } else if s[0] == '\\' && s.len() >= 2 {
        unescaped_char(s[1], preserve_dollar) + unescape(
            s.subrange(2, s.len() as int),
            preserve_dollar,
        )
    } else if s[0] == '\\' {
        Seq::empty()
    } else {
        seq![s[0]] + unescape(s.drop_first(), preserve_dollar)
    }
}

/// The text `v[lo..hi]`, found between double quotes, with its escapes applied.
fn unescape_double_quoted(v: &Vec<char>, lo: usize, hi: usize, preserve_dollar: bool) -> (r: Vec<
    char,
>)
    requires
        lo <= hi <= v.len(),
    ensures
        r@ == unescape(v@.subrange(lo as int, hi as int), preserve_dollar),
{
    let mut out: Vec<char> = Vec::new();
    let mut i = lo;
    while i < hi
        invariant
            lo <= i <= hi <= v.len(),
            out@ + unescape(v@.subrange(i as int, hi as int), preserve_dollar) == unescape(
                v@.subrange(lo as int, hi as int),
                preserve_dollar,
            ),
        decreases hi - i,
    {
        let ghost rest = v@.subrange(i as int, hi as int);
        if v[i] == '\\' {
            if i + 1 < hi {
                let c = v[i + 1];
                if c == 'n' {
                    out.push('\n');
                } else if c == 'r' {
                    out.push('\r');
                } else if c == 't' {
                    out.push('\t');
                } else if c == '$' && preserve_dollar {
                    out.push('\\');
                    out.push('$');
                } else {
                    out.push(c);
                }
                assert(rest.subrange(2, rest.len() as int) =~= v@.subrange(i + 2, hi as int));
                i += 2;
            } else {
                assert(unescape(rest, preserve_dollar) =~= Seq::<char>::empty());
                assert(out@ + unescape(rest, preserve_dollar) =~= out@);
                return out;
            }
        } else {
            out.push(v[i]);
            assert(rest.drop_first() =~= v@.subrange(i + 1, hi as int));
            i += 1;
        }
        assert(out@ + unescape(v@.subrange(i as int, hi as int), preserve_dollar) =~= unescape(
            v@.subrange(lo as int, hi as int),
            preserve_dollar,
        ));
    }
    assert(v@.subrange(hi as int, hi as int) =~= Seq::<char>::empty());
    assert(out@ =~= unescape(v@.subrange(lo as int, hi as int), preserve_dollar));
    out
}

/// Index of the closing quote of a quoted value `v`, which starts with its
/// opening quote; or the error at `column`, where the value starts.
pub open spec fn quoted_close(v: Seq<char>, column: int) -> Result<int, (int, ParseErrorKind)> {
    match first_unescaped(v, v[0], 1) {
        None => Err((column, ParseErrorKind::UnterminatedQuote)),
        Some(end) => {
            let tail = trim_start(v.subrange(end + 1, v.len() as int));
            if tail.len() > 0 && tail[0] != '#' {
                Err(
                    (column + utf8_len(v.subrange(0, end)) + 1, ParseErrorKind::InvalidSyntax),
                )
            } else {
                Ok(end)
            }
        },
    }
}

/// The value text `v` (already left-trimmed, starting at `column`) as a value.
pub open spec fn parse_value_spec(v: Seq<char>, column: int, preserve_dollar: bool) -> Result<
    Seq<char>,
    (int, ParseErrorKind),
> {
    if v.len() == 0 {
        Ok(v)
    } else if v[0] == '\'' || v[0] == '`' || v[0] == '"' {
        match quoted_close(v, column) {
            Err(e) => Err(e),
            Ok(end) => {
                let inner = v.subrange(1, end);
                if v[0] == '"' {
                    Ok(unescape(inner, preserve_dollar))
                } else if v[0] == '\'' && preserve_dollar {
                    Ok(escape_dollars(inner))
                } else {
                    Ok(inner)
                }
            },
        }
    } else {
        match first_unescaped(v, '#', 0) {
            Some(h) => Ok(trim_end(v.subrange(0, h))),
            None => Ok(trim_end(v)),
        }
    }
}

/// Index of the quote that closes the quoted value `v`, checking that only
/// whitespace or a comment follows it.
fn find_closing_quote(v: &Vec<char>, column: u32) -> (r: Result<usize, (u32, ParseErrorKind)>)
    requires
        v.len() > 0,
        column + utf8_len(v@) <= u32::MAX,
        4 * v.len() <= usize::MAX,
    ensures
        match r {
            Ok(end) => quoted_close(v@, column as int) == Ok::<int, (int, ParseErrorKind)>(
                end as int,
            ) && 1 <= end < v.len(),
            Err((c, k)) => quoted_close(v@, column as int) == Err::<int, (int, ParseErrorKind)>(
                (c as int, k),
            ),
        },
{
    let n = v.len();
    match find_unescaped(v, v[0], 1) {
        None => Err((column, ParseErrorKind::UnterminatedQuote)),
        Some(end) => {
            let t = skip_ws(v, end + 1, n);
            proof {
                lemma_trim_start_suffix(v@.subrange(end + 1, n as int));
            }
            if t < n && v[t] != '#' {
                let w = utf8_len_of(v, 0, end);
                proof {
                    lemma_utf8_len_prefix(v@, end + 1);
                    assert(v@.subrange(0, end + 1).drop_last() =~= v@.subrange(0, end as int));
                }
                Err((column + w as u32 + 1, ParseErrorKind::InvalidSyntax))
            } else {
                Ok(end)
            }
        },
    }
}

/// The value that the value text `v` stands for.
fn parse_value(v: &Vec<char>, column: u32, preserve_dollar: bool) -> (r: Result<
    Vec<char>,
    (u32, ParseErrorKind),
>)
    requires
        column + utf8_len(v@) <= u32::MAX,
        4 * v.len() <= usize::MAX,
    ensures
        match r {
            Ok(val) => parse_value_spec(v@, column as int, preserve_dollar) == Ok::<
                Seq<char>,
                (int, ParseErrorKind),
            >(val@),
            Err((c, k)) => parse_value_spec(v@, column as int, preserve_dollar) == Err::<
                Seq<char>,
                (int, ParseErrorKind),
            >((c as int, k)),
        },
{
    let n = v.len();
    if n == 0 {
        let empty: Vec<char> = Vec::new();
        assert(empty@ =~= v@);
        return Ok(empty);
    }
    let first = v[0];
    if first == '\'' || first == '`' || first == '"' {
        match find_closing_quote(v, column) {
            Err(e) => Err(e),
            Ok(end) => {
                if first == '"' {
                    Ok(unescape_double_quoted(v, 1, end, preserve_dollar))
                } else if first == '\'' && preserve_dollar {
                    let inner = slice_chars(v, 1, end);
                    Ok(escape_dollar_signs(&inner))
                } else {
                    Ok(slice_chars(v, 1, end))
                }
            },
        }
    } else {
        let stop = match find_unescaped(v, '#', 0) {
            Some(h) => h,
            None => n,
        };
        let e = trim_ws_end(v, 0, stop);
        proof {
            if stop == n {
                assert(v@.subrange(0, n as int) =~= v@);
            }
        }
        Ok(slice_chars(v, 0, e))
    }
}

// ---------------------------------------------------------------------------
// Statements

pub open spec fn export_word() -> Seq<char> {
    seq!['e', 'x', 'p', 'o', 'r', 't']
}

/// `w` without a leading `export` token followed by whitespace.
pub open spec fn strip_export(w: Seq<char>) -> Seq<char> {
    if w.len() > 6 && w.subrange(0, 6) == export_word() && is_ws(w[6]) {
        trim_start(w.subrange(6, w.len() as int))
    } else {
        w
    }
}

/// One statement: `Ok(None)` for a blank or comment statement, the key and the
/// value, or an error with its column.
pub open spec fn parse_statement_spec(
    line: Seq<char>,
    mode: KeyParsingMode,
    preserve_dollar: bool,
) -> Result<Option<(Seq<char>, Seq<char>)>, (int, ParseErrorKind)> {
    let working = trim_start(line);
    if working.len() == 0 || working[0] == '#' {
        Ok(None)
    } else {
        let w = strip_export(working);
        if w.len() == 0 {
            Err((1, ParseErrorKind::MissingKey))
        } else {
            match first_unescaped(w, '=', 0) {
                None => Err(((w.len() + 1) as int, ParseErrorKind::InvalidSyntax)),
                Some(eq) => {
                    let key = trim_end(w.subrange(0, eq));
                    if key.len() == 0 {
                        Err((1, ParseErrorKind::MissingKey))
                    } else if !valid_key(key, mode) {
                        Err((1, ParseErrorKind::InvalidKey))
                    } else {
                        let v = trim_start(w.subrange(eq + 1, w.len() as int));
                        let column = (utf8_len(line.subrange(0, line.len() - v.len())) + 1) as int;
                        match parse_value_spec(v, column, preserve_dollar) {
                            Ok(value) => Ok(Some((key, value))),
                            Err(e) => Err(e),
                        }
                    }
                },
            }
        }
    }
}

pub proof fn lemma_utf8_len_concat(a: Seq<char>, b: Seq<char>)
    ensures
        utf8_len(a + b) == utf8_len(a) + utf8_len(b),
    decreases b.len(),
{
    if b.len() > 0 {
        lemma_utf8_len_concat(a, b.drop_last());
        assert((a + b).drop_last() =~= a + b.drop_last());
    } else {
        assert(a + b =~= a);
    }
}

proof fn lemma_suffix_split(line: Seq<char>, v: Seq<char>)
    requires
        v.len() <= line.len(),
        v =~= line.subrange(line.len() - v.len(), line.len() as int),
    ensures
        utf8_len(line.subrange(0, line.len() - v.len())) + utf8_len(v) == utf8_len(line),
{
    lemma_utf8_len_concat(line.subrange(0, line.len() - v.len()), v);
    assert(line.subrange(0, line.len() - v.len()) + v =~= line);
}

/// Key and value of one statement, `None` for a blank or comment statement.
#[verifier::rlimit(50)]
fn parse_statement(line: &Vec<char>, mode: KeyParsingMode, preserve_dollar: bool) -> (r: Result<
    Option<(Vec<char>, Vec<char>)>,
    (u32, ParseErrorKind),
>)
    requires
        line.len() <= MAX_INPUT_CHARS,
    ensures
        match r {
            Ok(None) => parse_statement_spec(line@, mode, preserve_dollar) == Ok::<
                Option<(Seq<char>, Seq<char>)>,
                (int, ParseErrorKind),
            >(None),
            Ok(Some((k, v))) => parse_statement_spec(line@, mode, preserve_dollar) == Ok::<
                Option<(Seq<char>, Seq<char>)>,
                (int, ParseErrorKind),
            >(Some((k@, v@))),
            Err((c, kind)) => parse_statement_spec(line@, mode, preserve_dollar) == Err::<
                Option<(Seq<char>, Seq<char>)>,
                (int, ParseErrorKind),
            >((c as int, kind)),
        },
{
    let n = line.len();
    let ws = skip_ws(line, 0, n);
    let ghost working = line@.subrange(ws as int, n as int);
    assert(line@.subrange(0, n as int) =~= line@);
    if ws == n || line[ws] == '#' {
        return Ok(None);
    }
    let is_export = n - ws > 6 && line[ws] == 'e' && line[ws + 1] == 'x' && line[ws + 2] == 'p'
        && line[ws + 3] == 'o' && line[ws + 4] == 'r' && line[ws + 5] == 't' && is_whitespace(
        line[ws + 6],
    );
    proof {
        if working.len() > 6 {
            if is_export {
                assert(working.subrange(0, 6) =~= export_word());
            } else if working.subrange(0, 6) == export_word() {
                assert(working.subrange(0, 6)[0] == 'e');
                assert(working.subrange(0, 6)[1] == 'x');
                assert(working.subrange(0, 6)[2] == 'p');
                assert(working.subrange(0, 6)[3] == 'o');
                assert(working.subrange(0, 6)[4] == 'r');
                assert(working.subrange(0, 6)[5] == 't');
            }
        }
    }
    let start = if is_export {
        let s = skip_ws(line, ws + 6, n);
        assert(working.subrange(6, working.len() as int) =~= line@.subrange(ws + 6, n as int));
        s
    } else {
        ws
    };
    let w = slice_chars(line, start, n);
    assert(w@ == strip_export(working));
    if w.len() == 0 {
        return Err((1, ParseErrorKind::MissingKey));
    }
    let eq = match find_unescaped(&w, '=', 0) {
        None => {
            return Err((w.len() as u32 + 1, ParseErrorKind::InvalidSyntax));
        },
        Some(eq) => eq,
    };
    let key_end = trim_ws_end(&w, 0, eq);
    let key = slice_chars(&w, 0, key_end);
    if key.len() == 0 {
        return Err((1, ParseErrorKind::MissingKey));
    }
    if !is_valid_key(&key, mode) {
        return Err((1, ParseErrorKind::InvalidKey));
    }
    let vstart = skip_ws(&w, eq + 1, w.len());
    let v = slice_chars(&w, vstart, w.len());
    proof {
        assert(v@ =~= line@.subrange(n - v@.len(), n as int));
        lemma_suffix_split(line@, v@);
        lemma_utf8_len_bound(line@);
    }
    let prefix = utf8_len_of(line, 0, n - v.len());
    let column = prefix as u32 + 1;
    match parse_value(&v, column, preserve_dollar) {
        Ok(value) => Ok(Some((key, value))),
        Err(e) => Err(e),
    }
}

// ---------------------------------------------------------------------------
// Entry table

pub open spec fn entry_model(e: Entry) -> EntryModel {
    (e.key@, e.value@, e.line as int)
}

pub open spec fn table_model(v: Seq<Entry>) -> Seq<EntryModel> {
    v.map_values(|e: Entry| entry_model(e))
}

pub open spec fn error_model(e: ParseError) -> ErrorModel {
    (e.line as int, e.column as int, e.kind)
}

/// Index of the first entry of `t` with key `k`, or -1 when there is none.
pub open spec fn key_index(t: Seq<EntryModel>, k: Seq<char>) -> int {
    if exists|i: int| 0 <= i < t.len() && t[i].0 == k {
        choose|i: int|
            0 <= i < t.len() && t[i].0 == k && forall|j: int| 0 <= j < i ==> t[j].0 != k
    } else {
        -1
    }
}

/// The value that `t` holds for `k`.
pub open spec fn lookup(t: Seq<EntryModel>, k: Seq<char>) -> Option<Seq<char>> {
    let i = key_index(t, k);
    if 0 <= i < t.len() {
        Some(t[i].1)
    } else {
        None
    }
}

/// Last write wins, at the position of the first write.
pub open spec fn upsert(t: Seq<EntryModel>, e: EntryModel) -> Seq<EntryModel> {
    let i = key_index(t, e.0);
    if 0 <= i < t.len() {
        t.update(i, e)
    } else {
        t.push(e)
    }
}

/// An entry of the table with the source it was read from.
pub type SourcedModel = (EntryModel, Option<String>);

pub open spec fn sourced(v: Seq<Entry>) -> Seq<SourcedModel> {
    v.map_values(|e: Entry| (entry_model(e), e.source))
}

pub open spec fn models_of(t: Seq<SourcedModel>) -> Seq<EntryModel> {
    t.map_values(|x: SourcedModel| x.0)
}

/// `upsert` on entries that carry their source.
pub open spec fn upsert_sourced(t: Seq<SourcedModel>, e: SourcedModel) -> Seq<SourcedModel> {
    let i = key_index(models_of(t), e.0.0);
    if 0 <= i < t.len() {
        t.update(i, e)
    } else {
        t.push(e)
    }
}

pub proof fn lemma_key_index_found(t: Seq<EntryModel>, k: Seq<char>, i: int)
    requires
        0 <= i < t.len(),
        t[i].0 == k,
        forall|j: int| 0 <= j < i ==> t[j].0 != k,
    ensures
        key_index(t, k) == i,
{
    let c = key_index(t, k);
    assert(0 <= c < t.len() && t[c].0 == k && forall|j: int| 0 <= j < c ==> t[j].0 != k);
    if c < i {
        assert(t[c].0 != k);
    } else if c > i {
        assert(t[i].0 != k);
    }
}

pub proof fn lemma_key_index_absent(t: Seq<EntryModel>, k: Seq<char>)
    requires
        forall|j: int| 0 <= j < t.len() ==> t[j].0 != k,
    ensures
        key_index(t, k) == -1,
{
}

/// Index of the entry with key `key`.
fn find_key(entries: &Vec<Entry>, key: &String) -> (r: Option<usize>)
    ensures
        match r {
            Some(i) => key_index(table_model(entries@), key@) == i as int && i < entries.len(),
            None => key_index(table_model(entries@), key@) == -1,
        },
{
    let ghost t = table_model(entries@);
    let mut i: usize = 0;
    while i < entries.len()
        invariant
            i <= entries.len(),
            t == table_model(entries@),
            forall|j: int| 0 <= j < i ==> t[j].0 != key@,
        decreases entries.len() - i,
    {
        if entries[i].key == *key {
            proof {
                lemma_key_index_found(t, key@, i as int);
            }
            return Some(i);
        }
        i += 1;
    }
    proof {
        lemma_key_index_absent(t, key@);
    }
    None
}

/// Adds `e` to the table, replacing in place an entry with the same key.
pub(crate) fn upsert_entry(entries: &mut Vec<Entry>, e: Entry)
    ensures
        table_model(final(entries)@) == upsert(table_model(old(entries)@), entry_model(e)),
        sourced(final(entries)@) == upsert_sourced(sourced(old(entries)@), (entry_model(e), e.source)),
        forall|j: int|
            0 <= j < final(entries)@.len() ==> #[trigger] final(entries)@[j] == e || old(
                entries,
            )@.contains(final(entries)@[j]),
{
    assert(models_of(sourced(entries@)) =~= table_model(entries@));
    match find_key(entries, &e.key) {
        Some(i) => {
            let ghost before = entries@;
            entries[i] = e;
            proof {
                assert(sourced(entries@) =~= sourced(before).update(i as int, (entry_model(e), e.source)));
                assert(table_model(entries@) =~= table_model(before).update(i as int, entry_model(e)));
                assert forall|j: int| 0 <= j < entries@.len() && entries@[j] != e implies before.contains(
                    #[trigger] entries@[j],
                ) by {
                    assert(entries@[j] == before[j]);
                }
            }
        },
        None => {
            let ghost before = entries@;
            entries.push(e);
            proof {
                assert(sourced(entries@) =~= sourced(before).push((entry_model(e), e.source)));
                assert(table_model(entries@) =~= table_model(before).push(entry_model(e)));
                assert forall|j: int| 0 <= j < entries@.len() && entries@[j] != e implies before.contains(
                    #[trigger] entries@[j],
                ) by {
                    assert(entries@[j] == before[j]);
                }
            }
        },
    }
}

// ---------------------------------------------------------------------------
// Whole documents

/// Statements from index `i` on, the first of them at line `line`, added to
/// the table `acc`; the first statement that fails ends the parse.
pub open spec fn parse_from(
    s: Seq<char>,
    i: int,
    line: int,
    mode: KeyParsingMode,
    preserve_dollar: bool,
    acc: Seq<EntryModel>,
) -> Result<Seq<EntryModel>, ErrorModel>
    decreases s.len() - i,
    via parse_from_decreases
{
    if i < 0 || i >= s.len() {
        Ok(acc)
    } else {
        let e = statement_end(s, i, None, false);
        let next = if e < s.len() {
            e + 1
        } else {
            s.len() as int
        };
        let next_line = line + count_newlines(s.subrange(i, next));
        match parse_statement_spec(s.subrange(i, e), mode, preserve_dollar) {
            Err((column, kind)) => Err((line, column, kind)),
            Ok(None) => parse_from(s, next, next_line, mode, preserve_dollar, acc),
            Ok(Some((k, v))) => parse_from(
                s,
                next,
                next_line,
                mode,
                preserve_dollar,
                upsert(acc, (k, v, line)),
            ),
        }
    }
}

#[via_fn]
proof fn parse_from_decreases(
    s: Seq<char>,
    i: int,
    line: int,
    mode: KeyParsingMode,
    preserve_dollar: bool,
    acc: Seq<EntryModel>,
) {
    if 0 <= i < s.len() {
        lemma_statement_end_bounds(s, i, None, false);
    }
}

/// The parse of a whole text: its entries in order of first appearance, or
/// the first error.
pub open spec fn parse_text(text: Seq<char>, mode: KeyParsingMode, preserve_dollar: bool) -> Result<
    Seq<EntryModel>,
    ErrorModel,
> {
    parse_from(normalize(text), 0, 1, mode, preserve_dollar, Seq::empty())
}

/// `r` is the result that `parse_text` gives, each entry carrying `source`.
pub open spec fn parse_result_is(
    r: Result<Vec<Entry>, ParseError>,
    text: Seq<char>,
    mode: KeyParsingMode,
    preserve_dollar: bool,
    source: Option<String>,
) -> bool {
    match r {
        Ok(v) => parse_text(text, mode, preserve_dollar) == Ok::<Seq<EntryModel>, ErrorModel>(
            table_model(v@),
        ) && forall|j: int| 0 <= j < v@.len() ==> (#[trigger] v@[j]).source == source,
        Err(e) => parse_text(text, mode, preserve_dollar) == Err::<Seq<EntryModel>, ErrorModel>(
            error_model(e),
        ),
    }
}

/// A copy of `source`.
pub(crate) fn copy_source(source: &Option<String>) -> (r: Option<String>)
    ensures
        r == *source,
{
    match source {
        Some(s) => Some(s.clone()),
        None => None,
    }
}

/// The entries of the text `input`, each recording `source`.
#[verifier::rlimit(50)]
pub(crate) fn parse_chars(
    input: &Vec<char>,
    source: &Option<String>,
    mode: KeyParsingMode,
    preserve_dollar: bool,
) -> (r: Result<Vec<Entry>, ParseError>)
    requires
        input.len() <= MAX_INPUT_CHARS,
    ensures
        parse_result_is(r, input@, mode, preserve_dollar, *source),
{
    let s = normalize_newlines(input);
    proof {
        lemma_normalize_len(input@);
    }
    let n = s.len();
    let mut entries: Vec<Entry> = Vec::new();
    let mut offset: usize = 0;
    let mut line: u32 = 1;
    assert(s@.subrange(0, 0) =~= Seq::<char>::empty());
    assert(table_model(entries@) =~= Seq::<EntryModel>::empty());
    while offset < n
        invariant
            n == s.len(),
            n <= MAX_INPUT_CHARS,
            s@ == normalize(input@),
            offset <= n,
            line == 1 + count_newlines(s@.subrange(0, offset as int)),
            parse_from(s@, offset as int, line as int, mode, preserve_dollar, table_model(entries@))
                == parse_text(input@, mode, preserve_dollar),
            forall|j: int| 0 <= j < entries@.len() ==> (#[trigger] entries@[j]).source == *source,
        decreases n - offset,
    {
        let end = find_statement_end(&s, offset);
        proof {
            lemma_statement_end_bounds(s@, offset as int, None, false);
        }
        let next = if end < n {
            end + 1
        } else {
            n
        };
        let stmt = slice_chars(&s, offset, end);
        let parsed = parse_statement(&stmt, mode, preserve_dollar);
        let added = newlines_in(&s, offset, next);
        proof {
            lemma_count_newlines_concat(
                s@.subrange(0, offset as int),
                s@.subrange(offset as int, next as int),
            );
            assert(s@.subrange(0, offset as int) + s@.subrange(offset as int, next as int)
                =~= s@.subrange(0, next as int));
            lemma_count_newlines_bound(s@.subrange(0, next as int));
        }
        match parsed {
            Err((column, kind)) => {
                return Err(ParseError::new(line, column, kind));
            },
            Ok(None) => {},
            Ok(Some((k, v))) => {
                let e = Entry {
                    key: string_of(&k, 0, k.len()),
                    value: string_of(&v, 0, v.len()),
                    source: copy_source(source),
                    line,
                };
                assert(k@.subrange(0, k@.len() as int) =~= k@);
                assert(v@.subrange(0, v@.len() as int) =~= v@);
                let ghost before = entries@;
                upsert_entry(&mut entries, e);
                proof {
                    assert forall|j: int| 0 <= j < entries@.len() implies (#[trigger] entries@[j]).source
                        == *source by {
                        if entries@[j] != e {
                            let x = choose|x: int| 0 <= x < before.len() && before[x] == entries@[j];
                            assert(before[x].source == *source);
                        }
                    }
                }
            },
        }
        line = line + added as u32;
        offset = next;
    }
    Ok(entries)
}

/// Relies on `std::str::from_utf8`: it succeeds exactly on valid UTF-8, and
/// the text it returns is what those bytes encode.
#[verifier::external_body]
pub(crate) fn utf8_text(bytes: &[u8]) -> (r: Result<&str, std::str::Utf8Error>)
    ensures
        match r {
            Ok(s) => valid_utf8(bytes@) && s@ == decode_utf8(bytes@),
            Err(_) => !valid_utf8(bytes@),
        },
{
    std::str::from_utf8(bytes)
}

pub proof fn lemma_encode_len(s: Seq<char>)
    ensures
        s.len() <= encode_utf8(s).len(),
    decreases s.len(),
{
    if s.len() > 0 {
        lemma_encode_len(s.drop_first());
    }
}

pub proof fn lemma_decoded_len(b: Seq<u8>)
    requires
        valid_utf8(b),
    ensures
        decode_utf8(b).len() <= b.len(),
{
    decode_utf8_encode_utf8(b);
    lemma_encode_len(decode_utf8(b));
}

/// Parse dotenv entries from UTF-8 text.
pub fn parse_str(input: &str) -> (r: Result<Vec<Entry>, Error>)
    requires
        input@.len() <= MAX_INPUT_CHARS,
    ensures
        parse_outcome_is(r, input@, KeyParsingMode::Strict),
{
    parse_str_with_mode(input, KeyParsingMode::Strict)
}

/// `r` is the outcome of parsing `text` with the key rule `mode`.
pub open spec fn parse_outcome_is(
    r: Result<Vec<Entry>, Error>,
    text: Seq<char>,
    mode: KeyParsingMode,
) -> bool {
    match r {
        Ok(v) => parse_result_is(Ok(v), text, mode, false, None),
        Err(Error::Parse(e)) => parse_result_is(Err(e), text, mode, false, None),
        Err(_) => false,
    }
}

/// Parse dotenv entries from UTF-8 text using a specific key parsing mode.
pub fn parse_str_with_mode(input: &str, key_parsing_mode: KeyParsingMode) -> (r: Result<
    Vec<Entry>,
    Error,
>)
    requires
        input@.len() <= MAX_INPUT_CHARS,
    ensures
        parse_outcome_is(r, input@, key_parsing_mode),
{
    match parse_str_with_source(input, &None, key_parsing_mode, false) {
        Ok(v) => Ok(v),
        Err(e) => Err(Error::Parse(e)),
    }
}

/// Parse `input`; each entry records `source`. With `preserve_dollar`, a
/// `$` that quoting or a backslash made literal is kept as `\$` for a later
/// expansion pass.
pub fn parse_str_with_source(
    input: &str,
    source: &Option<String>,
    key_parsing_mode: KeyParsingMode,
    preserve_dollar: bool,
) -> (r: Result<Vec<Entry>, ParseError>)
    requires
        input@.len() <= MAX_INPUT_CHARS,
    ensures
        parse_result_is(r, input@, key_parsing_mode, preserve_dollar, *source),
{
    let chars = chars_of(input);
    parse_chars(&chars, source, key_parsing_mode, preserve_dollar)
}

/// Parse dotenv entries from UTF-8 bytes.
pub fn parse_bytes(input: &[u8]) -> (r: Result<Vec<Entry>, Error>)
    requires
        input@.len() <= MAX_INPUT_CHARS,
    ensures
        bytes_outcome_is(r, input@, KeyParsingMode::Strict),
{
    parse_bytes_with_mode(input, KeyParsingMode::Strict)
}

/// `r` is the outcome of decoding `bytes` as UTF-8 and parsing the text.
pub open spec fn bytes_outcome_is(
    r: Result<Vec<Entry>, Error>,
    bytes: Seq<u8>,
    mode: KeyParsingMode,
) -> bool {
    match r {
        Err(Error::InvalidEncoding(_)) => !valid_utf8(bytes),
        _ => valid_utf8(bytes) && parse_outcome_is(r, decode_utf8(bytes), mode),
    }
}

/// Parse dotenv entries from UTF-8 bytes using a specific key parsing mode.
pub fn parse_bytes_with_mode(input: &[u8], key_parsing_mode: KeyParsingMode) -> (r: Result<
    Vec<Entry>,
    Error,
>)
    requires
        input@.len() <= MAX_INPUT_CHARS,
    ensures
        bytes_outcome_is(r, input@, key_parsing_mode),
{
    match utf8_text(input) {
        Err(e) => Err(Error::InvalidEncoding(e)),
        Ok(text) => {
            proof {
                lemma_decoded_len(input@);
            }
            parse_str_with_mode(text, key_parsing_mode)
        },
    }
}

/// Relies on `std::io::Read::read_to_end`: the bytes that the reader yields
/// up to its end, or the error that stopped it.
#[verifier::external_body]
fn read_all<R: std::io::BufRead>(mut reader: R) -> Result<Vec<u8>, std::io::Error> {
    let mut buf = Vec::new();
    match reader.read_to_end(&mut buf) {
        Ok(_) => Ok(buf),
        Err(e) => Err(e),
    }
}

/// Parse dotenv entries from a buffered reader.
pub fn parse_reader<R: std::io::BufRead>(reader: R) -> (r: Result<Vec<Entry>, Error>)
    ensures
        r is Err && r->Err_0 is Io || exists|b: Seq<u8>|
            #[trigger] bytes_outcome_is(r, b, KeyParsingMode::Strict),
{
    parse_reader_with_mode(reader, KeyParsingMode::Strict)
}

/// Parse dotenv entries from a buffered reader using a specific key parsing
/// mode. Whatever the reader yields is parsed as `parse_bytes_with_mode`
/// would; a read error, or an input over `MAX_INPUT_CHARS` bytes, is an I/O
/// error.
pub fn parse_reader_with_mode<R: std::io::BufRead>(
    reader: R,
    key_parsing_mode: KeyParsingMode,
) -> (r: Result<Vec<Entry>, Error>)
    ensures
        r is Err && r->Err_0 is Io || exists|b: Seq<u8>|
            #[trigger] bytes_outcome_is(r, b, key_parsing_mode),
{
    match read_all(reader) {
        Err(e) => Err(Error::Io(e)),
        Ok(bytes) => {
            if bytes.len() > MAX_INPUT_CHARS {
                return Err(Error::Io(input_too_large()));
            }
            let r = parse_bytes_with_mode(bytes.as_slice(), key_parsing_mode);
            assert(bytes_outcome_is(r, bytes@, key_parsing_mode));
            r
        },
    }
}

} // verus!
