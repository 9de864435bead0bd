//! The builder-style loader: which files, how to read them, and how their
//! entries are merged, expanded and written into the target store. Reading
//! the files is left to the caller, which hands over what each read gave.
use vstd::prelude::*;
use vstd::utf8::{decode_utf8, valid_utf8};

use crate::env::{empty_store, TargetEnv};
use crate::error::{input_too_large, Error};
use crate::model::{Encoding, Entry, KeyParsingMode, LoadReport, SubstitutionMode};
use crate::parser::{
    copy_source, entry_model, models_of, parse_chars, parse_text, sourced, table_model,
    upsert_sourced, utf8_text, EntryModel, ErrorModel, SourcedModel, MAX_INPUT_CHARS,
};
use crate::substitution::{raw_of, resolve, resolved_values, ResolveContext};
use crate::substitution::{find_char, first_index, lemma_first_index_bounds};
use crate::text::{append_chars, chars_of, skip_ws, slice_chars, string_of, trim, trim_ws_end};

verus! {

/// What reading one input file gave.
#[derive(Debug)]
pub enum FileRead {
    /// The bytes of the file.
    Contents(Vec<u8>),
    /// The file does not exist.
    Missing(std::io::Error),
    /// Reading the file failed for another reason.
    Failed(std::io::Error),
}

/// One input file: its path and what reading it gave.
#[derive(Debug)]
pub struct SourceFile {
    pub path: String,
    pub read: FileRead,
}


// ---------------------------------------------------------------------------
// Specification

/// Latin-1: each byte is the code point of the same value.
pub open spec fn latin1(b: Seq<u8>) -> Seq<char> {
    b.map_values(|x: u8| x as char)
}

/// The text that `b` holds under `encoding`, or `None` for invalid UTF-8.
pub open spec fn decoded(b: Seq<u8>, encoding: Encoding) -> Option<Seq<char>> {
    match encoding {
        Encoding::Utf8 => if valid_utf8(b) {
            Some(decode_utf8(b))
        } else {
            None
        },
        Encoding::Latin1 => Some(latin1(b)),
    }
}

/// Why loading stopped.
pub ghost enum LoadFailure {
    /// A required file is missing, a read failed, or a file is too long.
    Io,
    /// A file is not valid UTF-8.
    Encoding,
    /// A file failed to parse.
    Parse(ErrorModel),
}

/// `t` merged into `acc` entry by entry, the last write winning.
pub open spec fn merge(acc: Seq<SourcedModel>, t: Seq<SourcedModel>) -> Seq<SourcedModel>
    decreases t.len(),
{
    if t.len() == 0 {
        acc
    } else {
        upsert_sourced(merge(acc, t.drop_last()), t.last())
    }
}

/// The entries of `t`, each with `source`.
pub open spec fn with_source(t: Seq<EntryModel>, source: Option<String>) -> Seq<SourcedModel> {
    t.map_values(|e: EntryModel| (e, source))
}

/// The source that the entries of `f` record.
pub open spec fn source_for(f: SourceFile, include_source: bool) -> Option<String> {
    if include_source {
        Some(f.path)
    } else {
        None
    }
}

/// What one file contributes: its entries, nothing for a missing file that
/// is not required, or why loading stops.
pub open spec fn file_outcome(
    f: SourceFile,
    required: bool,
    encoding: Encoding,
    mode: KeyParsingMode,
    preserve_dollar: bool,
) -> Result<Option<Seq<EntryModel>>, LoadFailure> {
    match f.read {
        FileRead::Missing(_) => if required {
            Err(LoadFailure::Io)
        } else {
            Ok(None)
        },
        FileRead::Failed(_) => Err(LoadFailure::Io),
        FileRead::Contents(b) => match decoded(b@, encoding) {
            None => Err(LoadFailure::Encoding),
            Some(text) => if text.len() > MAX_INPUT_CHARS {
                Err(LoadFailure::Io)
            } else {
                match parse_text(text, mode, preserve_dollar) {
                    Err(e) => Err(LoadFailure::Parse(e)),
                    Ok(t) => Ok(Some(t)),
                }
            },
        },
    }
}

/// Files from index `j` on, merged into `acc`, with `count` files read so far.
pub open spec fn collect_from(
    files: Seq<SourceFile>,
    j: int,
    required: bool,
    encoding: Encoding,
    mode: KeyParsingMode,
    preserve_dollar: bool,
    include_source: bool,
    acc: Seq<SourcedModel>,
    count: int,
) -> Result<(Seq<SourcedModel>, int), LoadFailure>
    decreases files.len() - j,
{
    if j < 0 || j >= files.len() {
        Ok((acc, count))
    } else {
        match file_outcome(files[j], required, encoding, mode, preserve_dollar) {
            Err(f) => Err(f),
            Ok(None) => collect_from(
                files,
                j + 1,
                required,
                encoding,
                mode,
                preserve_dollar,
                include_source,
                acc,
                count,
            ),
            Ok(Some(t)) => collect_from(
                files,
                j + 1,
                required,
                encoding,
                mode,
                preserve_dollar,
                include_source,
                merge(acc, with_source(t, source_for(files[j], include_source))),
                count + 1,
            ),
        }
    }
}

/// `e` is the error that `f` describes.
pub open spec fn error_is(e: Error, f: LoadFailure) -> bool {
    match e {
        Error::Io(_) => f == LoadFailure::Io,
        Error::InvalidEncoding(_) => f == LoadFailure::Encoding,
        Error::Parse(p) => f == LoadFailure::Parse(
            (p.line as int, p.column as int, p.kind),
        ),
    }
}

/// Keys and values after the optional expansion pass, `base` being the store
/// as it was before loading.
pub open spec fn final_pairs(
    t: Seq<EntryModel>,
    base: Map<Seq<char>, Seq<char>>,
    override_existing: bool,
    mode: KeyParsingMode,
    substitution: SubstitutionMode,
) -> Seq<(Seq<char>, Seq<char>)> {
    let raw = t.map_values(|e: EntryModel| (e.0, e.1));
    match substitution {
        SubstitutionMode::Disabled => raw,
        SubstitutionMode::Expand => {
            let values = resolved_values(
                ResolveContext { raw, base, override_existing, mode },
            );
            raw.map(|i: int, p: (Seq<char>, Seq<char>)| (p.0, values[i]))
        },
    }
}

/// Writing `pairs[j..]` into `store`: a key that the store holds is skipped
/// unless `override_existing`. Gives the store and the counts of loaded and
/// skipped keys.
pub open spec fn apply_from(
    store: Map<Seq<char>, Seq<char>>,
    pairs: Seq<(Seq<char>, Seq<char>)>,
    j: int,
    override_existing: bool,
    loaded: int,
    skipped: int,
) -> (Map<Seq<char>, Seq<char>>, int, int)
    decreases pairs.len() - j,
{
    if j < 0 || j >= pairs.len() {
        (store, loaded, skipped)
    } else if !override_existing && store.contains_key(pairs[j].0) {
        apply_from(store, pairs, j + 1, override_existing, loaded, skipped + 1)
    } else {
        apply_from(
            store.insert(pairs[j].0, pairs[j].1),
            pairs,
            j + 1,
            override_existing,
            loaded + 1,
            skipped,
        )
    }
}

/// The paths of the multi-environment convention, lowest precedence first:
/// `.env`, `.env.{environment}`, `.env.local`, `.env.{environment}.local`,
/// the second and fourth only for a non-blank name, each once.
pub open spec fn convention_list(environment: Seq<char>) -> Seq<Seq<char>> {
    let e = trim(environment);
    let l0 = seq![".env"@];
    let l1 = if e.len() > 0 {
        push_unique(l0, ".env."@ + e)
    } else {
        l0
    };
    let l2 = push_unique(l1, ".env.local"@);
    if e.len() > 0 {
        push_unique(l2, ".env."@ + e + ".local"@)
    } else {
        l2
    }
}

pub open spec fn push_unique(l: Seq<Seq<char>>, p: Seq<char>) -> Seq<Seq<char>> {
    if l.contains(p) {
        l
    } else {
        l.push(p)
    }
}

pub open spec fn paths_view(v: Seq<String>) -> Seq<Seq<char>> {
    v.map_values(|s: String| s@)
}

// ---------------------------------------------------------------------------
// Executable helpers

fn decode(bytes: &Vec<u8>, encoding: Encoding) -> (r: Result<Vec<char>, Error>)
    ensures
        match r {
            Ok(t) => decoded(bytes@, encoding) == Some(t@),
            Err(Error::InvalidEncoding(_)) => decoded(bytes@, encoding) is None,
            Err(_) => false,
        },
{
    match encoding {
        Encoding::Utf8 => match utf8_text(bytes.as_slice()) {
            Ok(text) => Ok(chars_of(text)),
            Err(e) => Err(Error::InvalidEncoding(e)),
        },
        Encoding::Latin1 => Ok(decode_latin1(bytes)),
    }
}

fn decode_latin1(bytes: &Vec<u8>) -> (r: Vec<char>)
    ensures
        r@ == latin1(bytes@),
{
    let mut out: Vec<char> = Vec::new();
    let mut i: usize = 0;
    while i < bytes.len()
        invariant
            i <= bytes.len(),
            out@ == latin1(bytes@.subrange(0, i as int)),
        decreases bytes.len() - i,
    {
        out.push(bytes[i] as char);
        i += 1;
        assert(out@ =~= latin1(bytes@.subrange(0, i as int)));
    }
    assert(bytes@.subrange(0, bytes@.len() as int) =~= bytes@);
    out
}

fn merge_into(merged: &mut Vec<Entry>, parsed: Vec<Entry>)
    ensures
        sourced(final(merged)@) == merge(sourced(old(merged)@), sourced(parsed@)),
{
    let ghost start = merged@;
    let mut i: usize = 0;
    assert(sourced(parsed@).subrange(0, 0) =~= Seq::<SourcedModel>::empty());
    while i < parsed.len()
        invariant
            i <= parsed.len(),
            sourced(merged@) == merge(sourced(start), sourced(parsed@).subrange(0, i as int)),
        decreases parsed.len() - i,
    {
        let e = clone_entry(&parsed[i]);
        crate::parser::upsert_entry(merged, e);
        proof {
            let t = sourced(parsed@);
            assert(t.subrange(0, i + 1).drop_last() =~= t.subrange(0, i as int));
            assert(t.subrange(0, i + 1).last() == (entry_model(parsed@[i as int]), parsed@[i as int].source));
        }
        i += 1;
    }
    assert(sourced(parsed@).subrange(0, parsed@.len() as int) =~= sourced(parsed@));
}

fn clone_entry(e: &Entry) -> (r: Entry)
    ensures
        r == *e,
{
    Entry {
        key: e.key.clone(),
        value: e.value.clone(),
        source: copy_source(&e.source),
        line: e.line,
    }
}

/// Builder-style dotenv loader. Its target defaults to an empty in-memory store.
#[derive(Debug)]
pub struct EnvLoader {
    pub paths: Vec<String>,
    pub encoding: Encoding,
    pub required: bool,
    pub override_existing: bool,
    pub key_parsing_mode: KeyParsingMode,
    pub search_upward: bool,
    pub substitution_mode: SubstitutionMode,
    pub verbose: bool,
    pub quiet: bool,
    pub target: TargetEnv,
}

impl Default for EnvLoader {
    fn default() -> (r: Self)
        ensures
            r.is_default(),
    {
        EnvLoader {
            paths: Vec::new(),
            encoding: Encoding::Utf8,
            required: true,
            override_existing: false,
            key_parsing_mode: KeyParsingMode::Strict,
            search_upward: false,
            substitution_mode: SubstitutionMode::Disabled,
            verbose: false,
            quiet: false,
            target: TargetEnv::memory(),
        }
    }
}

impl EnvLoader {
    /// The settings of a new loader.
    pub open spec fn is_default(&self) -> bool {
        &&& self.paths@.len() == 0
        &&& self.encoding == Encoding::Utf8
        &&& self.required
        &&& !self.override_existing
        &&& self.key_parsing_mode == KeyParsingMode::Strict
        &&& !self.search_upward
        &&& self.substitution_mode == SubstitutionMode::Disabled
        &&& !self.verbose
        &&& !self.quiet
        &&& self.target@ == empty_store()
    }

    /// Whether placeholders are expanded, so that literal dollars must be kept escaped.
    pub open spec fn expands(&self) -> bool {
        self.substitution_mode == SubstitutionMode::Expand
    }

    /// The outcome of reading and merging `files` under these settings.
    pub open spec fn collected(&self, files: Seq<SourceFile>, include_source: bool) -> Result<
        (Seq<SourcedModel>, int),
        LoadFailure,
    > {
        collect_from(
            files,
            0,
            self.required,
            self.encoding,
            self.key_parsing_mode,
            self.expands(),
            include_source,
            Seq::empty(),
            0,
        )
    }

    /// Create a new loader with default settings.
    pub fn new() -> (r: Self)
        ensures
            r.is_default(),
    {
        Self::default()
    }

    pub fn path(self, path: &str) -> (r: Self)
        ensures
            paths_view(r.paths@) == paths_view(self.paths@).push(path@),
            r == (EnvLoader { paths: r.paths, ..self }),
    {
        let mut s = self;
        s.paths.push(path.to_owned());
        proof {
            assert(paths_view(s.paths@) =~= paths_view(self.paths@).push(path@));
        }
        s
    }

    pub fn paths(self, paths: Vec<String>) -> (r: Self)
        ensures
            paths_view(r.paths@) == paths_view(self.paths@) + paths_view(paths@),
            r == (EnvLoader { paths: r.paths, ..self }),
    {
        let mut s = self;
        let mut i: usize = 0;
        while i < paths.len()
            invariant
                i <= paths.len(),
                paths_view(s.paths@) == paths_view(self.paths@) + paths_view(paths@).subrange(
                    0,
                    i as int,
                ),
                s == (EnvLoader { paths: s.paths, ..self }),
            decreases paths.len() - i,
        {
            let c = paths[i].clone();
            assert(c == paths@[i as int]);
            let ghost prev = s.paths@;
            s.paths.push(c);
            assert(s.paths@ == prev.push(c));
            assert(paths_view(s.paths@) =~= paths_view(prev).push(c@));
            assert(paths_view(paths@).subrange(0, i + 1) =~= paths_view(paths@).subrange(0, i as int).push(c@));
            i += 1;
            proof {
                assert(paths_view(s.paths@) =~= paths_view(self.paths@) + paths_view(
                    paths@,
                ).subrange(0, i as int));
            }
        }
        assert(paths_view(paths@).subrange(0, paths@.len() as int) =~= paths_view(paths@));
        s
    }

    /// Append the paths of the multi-environment convention, lowest precedence
    /// first: the files merge with the last one winning.
    pub fn convention(self, environment: &str) -> (r: Self)
        ensures
            paths_view(r.paths@) == paths_view(self.paths@) + convention_list(environment@),
            r == (EnvLoader { paths: r.paths, ..self }),
    {
        let extra = convention_paths(environment);
        self.paths(extra)
    }

    /// Set input file decoding.
    pub fn encoding(self, encoding: Encoding) -> (r: Self)
        ensures
            r == (EnvLoader { encoding, ..self }),
    {
        EnvLoader { encoding, ..self }
    }

    /// Set whether missing files are an error (they are by default).
    pub fn required(self, required: bool) -> (r: Self)
        ensures
            r == (EnvLoader { required, ..self }),
    {
        EnvLoader { required, ..self }
    }

    pub fn override_existing(self, override_existing: bool) -> (r: Self)
        ensures
            r == (EnvLoader { override_existing, ..self }),
    {
        EnvLoader { override_existing, ..self }
    }

    pub fn key_parsing_mode(self, key_parsing_mode: KeyParsingMode) -> (r: Self)
        ensures
            r == (EnvLoader { key_parsing_mode, ..self }),
    {
        EnvLoader { key_parsing_mode, ..self }
    }

    pub fn search_upward(self, search_upward: bool) -> (r: Self)
        ensures
            r == (EnvLoader { search_upward, ..self }),
    {
        EnvLoader { search_upward, ..self }
    }

    pub fn substitution_mode(self, substitution_mode: SubstitutionMode) -> (r: Self)
        ensures
            r == (EnvLoader { substitution_mode, ..self }),
    {
        EnvLoader { substitution_mode, ..self }
    }

    pub fn verbose(self, verbose: bool) -> (r: Self)
        ensures
            r == (EnvLoader { verbose, ..self }),
    {
        EnvLoader { verbose, ..self }
    }

    pub fn quiet(self, quiet: bool) -> (r: Self)
        ensures
            r == (EnvLoader { quiet, ..self }),
    {
        EnvLoader { quiet, ..self }
    }

    pub fn target(self, target: TargetEnv) -> (r: Self)
        ensures
            r == (EnvLoader { target, ..self }),
    {
        EnvLoader { target, ..self }
    }

    pub fn target_env(&self) -> (r: &TargetEnv)
        ensures
            *r == self.target,
    {
        &self.target
    }

    pub fn target_env_mut(&mut self) -> (r: &mut TargetEnv)
        ensures
            *r == old(self).target,
            *final(self) == (EnvLoader { target: *final(r), ..*old(self) }),
    {
        &mut self.target
    }

    pub fn into_target(self) -> (r: TargetEnv)
        ensures
            r == self.target,
    {
        self.target
    }

    /// Diagnostics are printed when verbose and not quiet.
    pub fn logging_enabled(&self) -> (r: bool)
        ensures
            r == (self.verbose && !self.quiet),
    {
        self.verbose && !self.quiet
    }

    /// The paths to read: those given, or `.env` when none was.
    pub fn effective_paths(&self) -> (r: Vec<String>)
        ensures
            paths_view(r@) == if self.paths@.len() == 0 {
                seq![".env"@]
            } else {
                paths_view(self.paths@)
            },
    {
        if self.paths.len() == 0 {
            let mut v: Vec<String> = Vec::new();
            v.push(".env".to_owned());
            assert(paths_view(v@) =~= seq![".env"@]);
            v
        } else {
            let mut v: Vec<String> = Vec::new();
            let mut i: usize = 0;
            while i < self.paths.len()
                invariant
                    i <= self.paths.len(),
                    paths_view(v@) == paths_view(self.paths@).subrange(0, i as int),
                decreases self.paths.len() - i,
            {
                let c = self.paths[i].clone();
                assert(c == self.paths@[i as int]);
                let ghost prev = v@;
                v.push(c);
                assert(v@ == prev.push(c));
                assert(paths_view(v@) =~= paths_view(prev).push(c@));
                assert(paths_view(self.paths@).subrange(0, i + 1) =~= paths_view(self.paths@).subrange(0, i as int).push(c@));
                i += 1;
                assert(paths_view(v@) =~= paths_view(self.paths@).subrange(0, i as int));
            }
            assert(paths_view(self.paths@).subrange(0, self.paths@.len() as int) =~= paths_view(
                self.paths@,
            ));
            v
        }
    }

    /// The entries of one file; `None` for a missing file that is not required.
    pub fn read_entries(&self, f: SourceFile, include_source: bool) -> (r: Result<
        Option<Vec<Entry>>,
        Error,
    >)
        ensures
            match r {
                Ok(None) => file_outcome(
                    f,
                    self.required,
                    self.encoding,
                    self.key_parsing_mode,
                    self.expands(),
                ) == Ok::<Option<Seq<EntryModel>>, LoadFailure>(None),
                Ok(Some(v)) => file_outcome(
                    f,
                    self.required,
                    self.encoding,
                    self.key_parsing_mode,
                    self.expands(),
                ) == Ok::<Option<Seq<EntryModel>>, LoadFailure>(Some(table_model(v@)))
                    && forall|k: int|
                    0 <= k < v@.len() ==> (#[trigger] v@[k]).source == if include_source {
                        Some(f.path)
                    } else {
                        None
                    },
                Err(e) => file_outcome(
                    f,
                    self.required,
                    self.encoding,
                    self.key_parsing_mode,
                    self.expands(),
                ) matches Err(failure) && error_is(e, failure),
            },
    {
        let ghost whole = f;
        let SourceFile { path, read } = f;
        match read {
            FileRead::Missing(e) => {
                if self.required {
                    Err(Error::Io(e))
                } else {
                    Ok(None)
                }
            },
            FileRead::Failed(e) => Err(Error::Io(e)),
            FileRead::Contents(bytes) => {
                let text = match decode(&bytes, self.encoding) {
                    Ok(t) => t,
                    Err(e) => {
                        return Err(e);
                    },
                };
                if text.len() > MAX_INPUT_CHARS {
                    return Err(Error::Io(input_too_large()));
                }
                let source = if include_source {
                    Some(path)
                } else {
                    None
                };
                let preserve_dollar = self.substitution_mode == SubstitutionMode::Expand;
                match parse_chars(&text, &source, self.key_parsing_mode, preserve_dollar) {
                    Err(e) => Err(Error::Parse(e)),
                    Ok(parsed) => Ok(Some(parsed)),
                }
            },
        }
    }

    /// Read the entries of `files`, in order, merging them with the last file
    /// winning; returns the entries and the number of files read.
    #[verifier::rlimit(60)]
    pub fn collect_entries(&self, files: Vec<SourceFile>, include_source: bool) -> (r: Result<
        (Vec<Entry>, usize),
        Error,
    >)
        ensures
            match r {
                Ok((v, count)) => self.collected(files@, include_source) == Ok::<
                    (Seq<SourcedModel>, int),
                    LoadFailure,
                >((sourced(v@), count as int)),
                Err(e) => self.collected(files@, include_source) matches Err(f) && error_is(e, f),
            },
    {
        let ghost all = files@;
        let n = files.len();
        let preserve_dollar = self.substitution_mode == SubstitutionMode::Expand;
        let mut rest = files;
        let mut merged: Vec<Entry> = Vec::new();
        let mut count: usize = 0;
        let mut j: usize = 0;
        assert(all.subrange(0, n as int) =~= all);
        assert(sourced(merged@) =~= Seq::<SourcedModel>::empty());
        while j < n
            invariant
                all == files@,
                n == all.len(),
                j <= n,
                count <= j,
                rest@ == all.subrange(j as int, n as int),
                preserve_dollar == self.expands(),
                self.collected(all, include_source) == collect_from(
                    all,
                    j as int,
                    self.required,
                    self.encoding,
                    self.key_parsing_mode,
                    self.expands(),
                    include_source,
                    sourced(merged@),
                    count as int,
                ),
            decreases n - j,
        {
            let f = rest.remove(0);
            assert(f == all[j as int]);
            assert(rest@ =~= all.subrange(j + 1, n as int));
            let outcome = self.read_entries(f, include_source);
            proof {
                let o = file_outcome(
                    all[j as int],
                    self.required,
                    self.encoding,
                    self.key_parsing_mode,
                    self.expands(),
                );
                assert(collect_from(
                    all,
                    j as int,
                    self.required,
                    self.encoding,
                    self.key_parsing_mode,
                    self.expands(),
                    include_source,
                    sourced(merged@),
                    count as int,
                ) == match o {
                    Err(x) => Err(x),
                    Ok(None) => collect_from(
                        all,
                        j + 1,
                        self.required,
                        self.encoding,
                        self.key_parsing_mode,
                        self.expands(),
                        include_source,
                        sourced(merged@),
                        count as int,
                    ),
                    Ok(Some(t)) => collect_from(
                        all,
                        j + 1,
                        self.required,
                        self.encoding,
                        self.key_parsing_mode,
                        self.expands(),
                        include_source,
                        merge(
                            sourced(merged@),
                            with_source(t, source_for(all[j as int], include_source)),
                        ),
                        count + 1,
                    ),
                });
            }
            match outcome {
                Err(e) => {
                    assert(file_outcome(
                        all[j as int],
                        self.required,
                        self.encoding,
                        self.key_parsing_mode,
                        self.expands(),
                    ) matches Err(x) && error_is(e, x));
                    assert(self.collected(all, include_source) matches Err(x) && error_is(e, x));
                    return Err(e);
                },
                Ok(None) => {},
                Ok(Some(parsed)) => {
                    proof {
                        assert(sourced(parsed@) =~= with_source(
                            table_model(parsed@),
                            source_for(all[j as int], include_source),
                        ));
                    }
                    merge_into(&mut merged, parsed);
                    count += 1;
                },
            }
            j += 1;
        }
        Ok((merged, count))
    }

    /// Expand the values of `entries` against this loader's target, when
    /// substitution is enabled.
    pub fn apply_substitution(&self, entries: &mut Vec<Entry>)
        ensures
            final(entries)@.len() == old(entries)@.len(),
            raw_of(final(entries)@) == final_pairs(
                table_model(old(entries)@),
                self.target@,
                self.override_existing,
                self.key_parsing_mode,
                self.substitution_mode,
            ),
            forall|j: int|
                0 <= j < old(entries)@.len() ==> (#[trigger] final(entries)@[j]).line == old(
                    entries,
                )@[j].line && final(entries)@[j].source == old(entries)@[j].source,
    {
        let ghost start = entries@;
        proof {
            assert(table_model(start).map_values(|e: EntryModel| (e.0, e.1)) =~= raw_of(start));
        }
        if self.substitution_mode == SubstitutionMode::Disabled {
            return;
        }
        resolve(entries, &self.target, self.override_existing, self.key_parsing_mode);
        proof {
            let values = resolved_values(
                ResolveContext {
                    raw: raw_of(start),
                    base: self.target@,
                    override_existing: self.override_existing,
                    mode: self.key_parsing_mode,
                },
            );
            assert(raw_of(entries@) =~= raw_of(start).map(
                |i: int, p: (Seq<char>, Seq<char>)| (p.0, values[i]),
            ));
        }
    }

    /// Read, merge and expand the entries of `files` without writing them
    /// anywhere. Each entry records the path of the file it came from.
    pub fn parse_only(&self, files: Vec<SourceFile>) -> (r: Result<Vec<Entry>, Error>)
        ensures
            match r {
                Ok(v) => self.collected(files@, true) matches Ok((t, _)) && raw_of(v@)
                    == final_pairs(
                    models_of(t),
                    self.target@,
                    self.override_existing,
                    self.key_parsing_mode,
                    self.substitution_mode,
                ) && v@.len() == t.len() && (forall|k: int|
                    0 <= k < v@.len() ==> (#[trigger] v@[k]).line == t[k].0.2 && v@[k].source
                        == t[k].1),
                Err(e) => self.collected(files@, true) matches Err(f) && error_is(e, f),
            },
    {
        let (mut entries, _) = match self.collect_entries(files, true) {
            Ok(x) => x,
            Err(e) => {
                return Err(e);
            },
        };
        let ghost before = entries@;
        assert(table_model(before) =~= models_of(sourced(before)));
        self.apply_substitution(&mut entries);
        proof {
            assert forall|k: int| 0 <= k < entries@.len() implies (#[trigger] entries@[k]).line
                == sourced(before)[k].0.2 && entries@[k].source == sourced(before)[k].1 by {
                assert(entries@[k].line == before[k].line);
            }
        }
        Ok(entries)
    }

    /// Read, merge and expand the entries of `files`, then write them into the
    /// target: a key that the target holds is kept unless `override_existing`.
    pub fn load(&mut self, files: Vec<SourceFile>) -> (r: Result<LoadReport, Error>)
        ensures
            *final(self) == (EnvLoader { target: final(self).target, ..*old(self) }),
            match r {
                Ok(report) => old(self).collected(files@, false) matches Ok((t, count)) && count
                    == report.files_read && (
                    final(self).target@,
                    report.loaded as int,
                    report.skipped_existing as int,
                ) == apply_from(
                    old(self).target@,
                    final_pairs(
                        models_of(t),
                        old(self).target@,
                        old(self).override_existing,
                        old(self).key_parsing_mode,
                        old(self).substitution_mode,
                    ),
                    0,
                    old(self).override_existing,
                    0,
                    0,
                ),
                Err(e) => old(self).collected(files@, false) matches Err(f) && error_is(e, f)
                    && final(self).target@ == old(self).target@,
            },
    {
        let (mut entries, files_read) = match self.collect_entries(files, false) {
            Ok(x) => x,
            Err(e) => {
                return Err(e);
            },
        };
        assert(table_model(entries@) =~= models_of(sourced(entries@)));
        self.apply_substitution(&mut entries);
        let ghost pairs = raw_of(entries@);
        let ghost start = self.target@;
        let mut loaded: usize = 0;
        let mut skipped: usize = 0;
        let mut k: usize = 0;
        while k < entries.len()
            invariant
                k <= entries.len(),
                loaded + skipped == k,
                pairs == raw_of(entries@),
                *self == (EnvLoader { target: self.target, ..*old(self) }),
                apply_from(start, pairs, 0, self.override_existing, 0, 0) == apply_from(
                    self.target@,
                    pairs,
                    k as int,
                    self.override_existing,
                    loaded as int,
                    skipped as int,
                ),
            decreases entries.len() - k,
        {
            let key = entries[k].key.as_str();
            if !self.override_existing && self.target.contains_key(key) {
                skipped += 1;
            } else {
                self.target.set_var(key, entries[k].value.as_str());
                loaded += 1;
            }
            k += 1;
        }
        Ok(LoadReport { loaded, skipped_existing: skipped, files_read })
    }
}

/// The convention's paths for `environment`, without repeats.
pub fn convention_paths(environment: &str) -> (r: Vec<String>)
    ensures
        paths_view(r@) == convention_list(environment@),
{
    let chars = chars_of(environment);
    let lo = skip_ws(&chars, 0, chars.len());
    let hi = trim_ws_end(&chars, lo, chars.len());
    let name = slice_chars(&chars, lo, hi);
    assert(chars@.subrange(0, chars@.len() as int) =~= chars@);
    assert(name@ == trim(environment@));
    let mut paths: Vec<String> = Vec::new();
    push_unique_path(&mut paths, ".env".to_owned());
    assert(paths_view(paths@) =~= seq![".env"@]);
    if name.len() > 0 {
        let mut p = ".env.".to_owned();
        append_chars(&mut p, &name);
        push_unique_path(&mut paths, p);
    }
    push_unique_path(&mut paths, ".env.local".to_owned());
    if name.len() > 0 {
        let mut p = ".env.".to_owned();
        append_chars(&mut p, &name);
        let suffix = chars_of(".local");
        append_chars(&mut p, &suffix);
        push_unique_path(&mut paths, p);
    }
    paths
}

fn push_unique_path(paths: &mut Vec<String>, path: String)
    ensures
        paths_view(final(paths)@) == push_unique(paths_view(old(paths)@), path@),
{
    let mut i: usize = 0;
    while i < paths.len()
        invariant
            i <= paths.len(),
            forall|j: int| 0 <= j < i ==> paths_view(paths@)[j] != path@,
        decreases paths.len() - i,
    {
        if paths[i] == path {
            assert(paths_view(paths@)[i as int] == path@);
            return;
        }
        i += 1;
    }
    let ghost before = paths@;
    paths.push(path);
    assert(paths_view(paths@) =~= paths_view(before).push(path@));
}

/// A list with `t` in it when `t` is not empty.
pub open spec fn keep_nonempty(t: Seq<char>) -> Seq<Seq<char>> {
    if t.len() > 0 {
        seq![t]
    } else {
        Seq::empty()
    }
}

/// The comma-separated paths of `s`, each trimmed, empty ones dropped.
pub open spec fn file_list(s: Seq<char>) -> Seq<Seq<char>>
    decreases s.len(),
{
    match first_index(s, ',', 0) {
        Some(k) => if 0 <= k < s.len() {
            keep_nonempty(trim(s.subrange(0, k))) + file_list(s.subrange(k + 1, s.len() as int))
        } else {
            keep_nonempty(trim(s))
        },
        None => keep_nonempty(trim(s)),
    }
}

/// Append the comma-separated paths of `raw` to `files`, each trimmed, empty
/// ones skipped; an error when `raw` names none.
pub fn parse_file_text(raw: &str, files: &mut Vec<String>) -> (r: Result<(), String>)
    ensures
        paths_view(final(files)@) == paths_view(old(files)@) + file_list(raw@),
        r is Err <==> file_list(raw@).len() == 0,
{
    let all = chars_of(raw);
    let ghost start = paths_view(files@);
    let mut rest = copy_all(&all);
    let mut added = false;
    loop
        invariant
            paths_view(files@) + file_list(rest@) == start + file_list(all@),
            added == (paths_view(files@).len() > start.len()),
            paths_view(files@).len() >= start.len(),
        ensures
            paths_view(files@) == start + file_list(all@),
            added == (paths_view(files@).len() > start.len()),
        decreases rest@.len(),
    {
        let ghost before = paths_view(files@);
        let ghost r0 = rest@;
        let cut = find_char(&rest, ',', 0);
        let end = match cut {
            Some(k) => k,
            None => rest.len(),
        };
        proof {
            lemma_first_index_bounds(rest@, ',', 0);
        }
        let lo = skip_ws(&rest, 0, end);
        let hi = trim_ws_end(&rest, lo, end);
        proof {
            assert(rest@.subrange(0, end as int).subrange(lo as int, end as int) =~= rest@.subrange(
                lo as int,
                end as int,
            ));
        }
        if hi > lo {
            files.push(string_of(&rest, lo, hi));
            added = true;
        }
        assert(paths_view(files@) =~= before + keep_nonempty(rest@.subrange(lo as int, hi as int)));
        match cut {
            None => {
                assert(rest@.subrange(0, rest@.len() as int) =~= rest@);
                rest = Vec::new();
                assert(file_list(rest@) =~= Seq::<Seq<char>>::empty());
                assert(paths_view(files@) + file_list(rest@) =~= before + file_list(r0));
                assert(paths_view(files@) =~= paths_view(files@) + file_list(rest@));
                break;
            },
            Some(k) => {
                rest = slice_chars(&rest, k + 1, rest.len());
                assert(paths_view(files@) + file_list(rest@) =~= before + file_list(r0));
            },
        }
    }
    if !added {
        return Err("`-f/--file` requires at least one path".to_owned());
    }
    Ok(())
}

fn copy_all(v: &Vec<char>) -> (r: Vec<char>)
    ensures
        r@ == v@,
{
    assert(v@.subrange(0, v@.len() as int) =~= v@);
    slice_chars(v, 0, v.len())
}

} // verus!
