//! Languages, their comment syntax, and the statistics gathered for them.
use vstd::prelude::*;

use crate::analysis::{code_lines, count_lines};
use crate::config_reader::{CfgBlock, CfgCommentType, CfgLangEntry, Config, ConfigError};
use crate::text::{chars_of, slice_chars, views};

verus! {

/// A block comment's delimiters.
#[derive(Debug)]
pub struct Block {
    pub open: String,
    pub close: String,
}

/// How a language writes comments: line-comment prefixes and an optional
/// block-comment delimiter pair.
#[derive(Debug)]
pub struct CommentType {
    pub line: Vec<String>,
    pub block: Option<Block>,
}

impl CommentType {
    /// The line-comment prefixes, as character sequences.
    pub open spec fn prefixes(&self) -> Seq<Seq<char>> {
        views(self.line@)
    }

    /// Block delimiters, when present, are non-empty.
    pub open spec fn block_ok(&self) -> bool {
        match self.block {
            Some(b) => b.open@.len() > 0 && b.close@.len() > 0,
            None => true,
        }
    }

    /// A complete comment specification: at least one line prefix and valid
    /// block delimiters.
    pub open spec fn well_formed(&self) -> bool {
        self.line@.len() > 0 && self.block_ok()
    }
}

/// The block comment that `cfg` describes: both tokens present and non-empty.
pub open spec fn block_from(cfg: CfgBlock) -> Result<Block, ConfigError> {
    match cfg.open {
        Some(open) if open@.len() > 0 => match cfg.close {
            Some(close) if close@.len() > 0 => Ok(Block { open, close }),
            _ => Err(ConfigError::InvalidBlockComment),
        },
        _ => Err(ConfigError::InvalidBlockComment),
    }
}

/// The comment syntax that `cfg` describes: at least one line prefix, and a
/// valid block comment if one is given.
pub open spec fn comment_type_from(cfg: CfgCommentType) -> Result<CommentType, ConfigError> {
    match cfg.line {
        Some(line) if line@.len() > 0 => match cfg.block {
            Some(b) => match block_from(b) {
                Ok(block) => Ok(CommentType { line, block: Some(block) }),
                Err(e) => Err(e),
            },
            None => Ok(CommentType { line, block: None }),
        },
        _ => Err(ConfigError::LineCommentMissing),
    }
}

impl TryFrom<CfgBlock> for Block {
    type Error = ConfigError;

    fn try_from(cfg_block: CfgBlock) -> Result<Self, Self::Error> {
        let open = match cfg_block.open {
            Some(open) if !open.as_str().is_empty() => open,
            _ => return Err(ConfigError::InvalidBlockComment),
        };
        let close = match cfg_block.close {
            Some(close) if !close.as_str().is_empty() => close,
            _ => return Err(ConfigError::InvalidBlockComment),
        };
        Ok(Self { open, close })
    }
}

impl vstd::std_specs::convert::TryFromSpecImpl<CfgBlock> for Block {
    open spec fn obeys_try_from_spec() -> bool {
        true
    }

    open spec fn try_from_spec(v: CfgBlock) -> Result<Self, ConfigError> {
        block_from(v)
    }
}

impl TryFrom<CfgCommentType> for CommentType {
    type Error = ConfigError;

    fn try_from(comment: CfgCommentType) -> Result<Self, Self::Error> {
        let line = match comment.line {
            Some(line) if line.len() > 0 => line,
            _ => return Err(ConfigError::LineCommentMissing),
        };
        let block = match comment.block {
            Some(block) => Some(Block::try_from(block)?),
            None => None,
        };
        Ok(Self { line, block })
    }
}

impl vstd::std_specs::convert::TryFromSpecImpl<CfgCommentType> for CommentType {
    open spec fn obeys_try_from_spec() -> bool {
        true
    }

    open spec fn try_from_spec(v: CfgCommentType) -> Result<Self, ConfigError> {
        comment_type_from(v)
    }
}

/// A language: its name, the file extensions (without the dot) that it
/// claims, and its comment syntax.
#[derive(Debug)]
pub struct LangSpec {
    pub name: String,
    pub extensions: Vec<String>,
    pub comments: CommentType,
}

impl LangSpec {
    pub fn new(name: String, extensions: Vec<String>, comments: CommentType) -> (r: Self)
        ensures
            r == (LangSpec { name, extensions, comments }),
    {
        Self { name, extensions, comments }
    }

    /// A language that can enter a registry.
    pub open spec fn well_formed(&self) -> bool {
        self.extensions@.len() > 0 && self.comments.well_formed()
    }

    /// The language claims the extension `ext`.
    pub open spec fn claims(&self, ext: Seq<char>) -> bool {
        views(self.extensions@).contains(ext)
    }
}

/// The language that `cfg` describes: a name, at least one extension and a
/// valid comment syntax, checked in that order.
pub open spec fn lang_spec_from(cfg: CfgLangEntry) -> Result<LangSpec, ConfigError> {
    match cfg.name {
        None => Err(ConfigError::LanguageNameMissing),
        Some(name) => match cfg.extensions {
            Some(extensions) if extensions@.len() > 0 => match cfg.comments {
                None => Err(ConfigError::CommentsMissing),
                Some(c) => match comment_type_from(c) {
                    Ok(comments) => Ok(LangSpec { name, extensions, comments }),
                    Err(e) => Err(e),
                },
            },
            _ => Err(ConfigError::ExtensionMissing),
        },
    }
}

impl TryFrom<CfgLangEntry> for LangSpec {
    type Error = ConfigError;

    fn try_from(cfg_lang: CfgLangEntry) -> Result<Self, Self::Error> {
        let name = match cfg_lang.name {
            Some(name) => name,
            None => return Err(ConfigError::LanguageNameMissing),
        };
        let extensions = match cfg_lang.extensions {
            Some(extensions) if extensions.len() > 0 => extensions,
            _ => return Err(ConfigError::ExtensionMissing),
        };
        let comments = match cfg_lang.comments {
            Some(comments) => CommentType::try_from(comments)?,
            None => return Err(ConfigError::CommentsMissing),
        };
        Ok(LangSpec::new(name, extensions, comments))
    }
}

impl vstd::std_specs::convert::TryFromSpecImpl<CfgLangEntry> for LangSpec {
    open spec fn obeys_try_from_spec() -> bool {
        true
    }

    open spec fn try_from_spec(v: CfgLangEntry) -> Result<Self, ConfigError> {
        lang_spec_from(v)
    }
}

/// What a scan found for one language: the distinct files counted and their
/// lines of code.
#[derive(Debug)]
pub struct LangStats {
    pub files: Vec<String>,
    pub loc: u64,
}

impl LangStats {
    pub fn new() -> (r: Self)
        ensures
            r.files@.len() == 0,
            r.loc == 0,
    {
        LangStats { files: Vec::new(), loc: 0 }
    }

    /// The set of files counted.
    pub open spec fn file_set(&self) -> Set<Seq<char>> {
        views(self.files@).to_set()
    }

    /// Each file is listed once.
    pub open spec fn well_formed(&self) -> bool {
        views(self.files@).no_duplicates()
    }
}

/// A language with the statistics gathered for it.
#[derive(Debug)]
pub struct LangEntry {
    pub spec: LangSpec,
    pub stats: LangStats,
}

/// A file handed to a scan: its path and its lines, in order.
#[derive(Debug)]
pub struct SourceFile {
    pub path: String,
    pub lines: Vec<String>,
}

/// One language's line of a report.
#[derive(Debug, Clone, PartialEq, Eq)]
pub struct LangReport {
    pub name: String,
    pub files: usize,
    pub loc: u64,
}

/// Index of the last `c` in `s[..j]`, or -1.
pub open spec fn last_index_of(s: Seq<char>, c: char, j: int) -> int
    decreases j,
{
    if j <= 0 {
        -1
    } else if s[j - 1] == c {
        j - 1
    } else {
        last_index_of(s, c, j - 1)
    }
}

/// The extension of the file that `path` names: what follows the last `.` of
/// its file name (the part after the last `/`), unless that dot is the
/// name's first character or the name has none.
pub open spec fn extension_of(path: Seq<char>) -> Option<Seq<char>> {
    let name_start = last_index_of(path, '/', path.len() as int) + 1;
    let dot = last_index_of(path, '.', path.len() as int);
    if dot <= name_start {
        None
    } else {
        Some(path.subrange(dot + 1, path.len() as int))
    }
}

/// The languages of `entries`, in order.
pub open spec fn specs_of(entries: Seq<LangEntry>) -> Seq<LangSpec> {
    entries.map_values(|e: LangEntry| e.spec)
}

/// Index of the first of `langs[i..]` that claims `ext`.
pub open spec fn first_claimant(langs: Seq<LangSpec>, ext: Seq<char>, i: int) -> Option<int>
    decreases langs.len() - i,
{
    if i < 0 || i >= langs.len() {
        None
    } else if langs[i].claims(ext) {
        Some(i)
    } else {
        first_claimant(langs, ext, i + 1)
    }
}

/// The language that owns files with extension `ext`: the first registered
/// one that claims it.
pub open spec fn owner(langs: Seq<LangSpec>, ext: Seq<char>) -> Option<int> {
    first_claimant(langs, ext, 0)
}

/// The language that owns the file at `path`.
pub open spec fn owner_of_path(langs: Seq<LangSpec>, path: Seq<char>) -> Option<int> {
    match extension_of(path) {
        Some(ext) => owner(langs, ext),
        None => None,
    }
}

/// The extensions of `exts` that one of `langs` already claims.
pub open spec fn claimed(langs: Seq<LangSpec>, exts: Seq<Seq<char>>) -> Seq<Seq<char>>
    decreases exts.len(),
{
    if exts.len() == 0 {
        Seq::empty()
    } else {
        let before = claimed(langs, exts.drop_last());
        if owner(langs, exts.last()) is Some {
            before.push(exts.last())
        } else {
            before
        }
    }
}

/// The files among `files` that language `i` owns, and their lines of code.
/// A path is counted once: its first occurrence gives its lines.
pub open spec fn tally(langs: Seq<LangSpec>, files: Seq<SourceFile>, i: int) -> (
    Set<Seq<char>>,
    nat,
)
    decreases files.len(),
{
    if files.len() == 0 {
        (Set::empty(), 0)
    } else {
        let (paths, loc) = tally(langs, files.drop_last(), i);
        let f = files.last();
        if owner_of_path(langs, f.path@) == Some(i) && !paths.contains(f.path@) {
            (paths.insert(f.path@), add_capped(loc, code_lines(views(f.lines@), langs[i].comments)))
        } else {
            (paths, loc)
        }
    }
}

/// `a + b`, held at `u64::MAX`: a line total saturates rather than wraps.
pub open spec fn add_capped(a: nat, b: nat) -> nat {
    if a + b > u64::MAX {
        u64::MAX as nat
    } else {
        a + b
    }
}

/// The languages known to the analysis of one directory, and what the last
/// scan found for each.
#[derive(Debug)]
pub struct LangRegistry {
    dir: String,
    entries: Vec<LangEntry>,
    conflicts: Vec<String>,
}

impl Default for LangRegistry {
    fn default() -> (r: Self)
        ensures
            r.well_formed(),
            r.entries_view().len() == 0,
    {
        LangRegistry::new()
    }
}

impl LangRegistry {
    /// The directory analysed.
    pub closed spec fn dir_view(&self) -> Seq<char> {
        self.dir@
    }

    /// The entries, in order of registration.
    pub closed spec fn entries_view(&self) -> Seq<LangEntry> {
        self.entries@
    }

    /// The languages, in order of registration.
    pub open spec fn languages(&self) -> Seq<LangSpec> {
        specs_of(self.entries_view())
    }

    /// Extension claims dropped because an earlier entry held them, in order.
    pub closed spec fn conflicts_view(&self) -> Seq<Seq<char>> {
        views(self.conflicts@)
    }

    /// Every entry has a complete comment syntax and lists each file once.
    pub closed spec fn well_formed(&self) -> bool {
        forall|i: int|
            #![trigger self.entries@[i]]
            0 <= i < self.entries@.len() ==> self.entries@[i].spec.well_formed()
                && self.entries@[i].stats.well_formed()
    }

    /// `after` keeps the languages of `before`.
    pub open spec fn same_languages(before: LangRegistry, after: LangRegistry) -> bool {
        &&& after.dir_view() == before.dir_view()
        &&& after.conflicts_view() == before.conflicts_view()
        &&& after.entries_view().len() == before.entries_view().len()
        &&& after.languages() == before.languages()
    }

    /// An empty registry, with no directory and no languages.
    pub fn new() -> (r: Self)
        ensures
            r.well_formed(),
            r.dir_view().len() == 0,
            r.entries_view().len() == 0,
            r.languages() == Seq::<LangSpec>::empty(),
            r.conflicts_view() == Seq::<Seq<char>>::empty(),
    {
        let r = LangRegistry { dir: String::new(), entries: Vec::new(), conflicts: Vec::new() };
        assert(r.conflicts_view() =~= Seq::empty());
        assert(r.languages() =~= Seq::empty());
        r
    }

    /// Index of the entry that owns files with extension `ext`. The
    /// comparison is exact: no case folding.
    pub fn get_entry_id(&self, ext: &str) -> (r: Option<usize>)
        ensures
            r matches Some(i) ==> owner(self.languages(), ext@) == Some(i as int),
            r is None ==> owner(self.languages(), ext@) is None,
    {
        let e = chars_of(ext);
        self.entry_for(&e)
    }

    fn entry_for(&self, ext: &Vec<char>) -> (r: Option<usize>)
        ensures
            r matches Some(i) ==> owner(specs_of(self.entries@), ext@) == Some(i as int),
            r is None ==> owner(specs_of(self.entries@), ext@) is None,
    {
        let mut i: usize = 0;
        while i < self.entries.len()
            invariant
                i <= self.entries@.len(),
                first_claimant(specs_of(self.entries@), ext@, i as int) == owner(specs_of(self.entries@), ext@),
            decreases self.entries@.len() - i,
        {
            if contains_chars(&self.entries[i].spec.extensions, ext) {
                return Some(i);
            }
            i += 1;
        }
        None
    }
}

impl LangRegistry {
    /// The statistics of `after` are what a scan of `files` finds with the
    /// languages of `before`.
    pub open spec fn scanned(before: LangRegistry, after: LangRegistry, files: Seq<SourceFile>) -> bool {
        &&& Self::same_languages(before, after)
        &&& forall|i: int|
            0 <= i < after.entries_view().len() ==> {
                &&& (#[trigger] after.entries_view()[i]).stats.file_set() == tally(
                    before.languages(),
                    files,
                    i,
                ).0
                &&& after.entries_view()[i].stats.loc == tally(before.languages(), files, i).1
            }
    }

    /// Index of the entry that owns the file at `path`.
    pub fn language_of(&self, path: &str) -> (r: Option<usize>)
        ensures
            r matches Some(i) ==> owner_of_path(self.languages(), path@) == Some(i as int),
            r is None ==> owner_of_path(self.languages(), path@) is None,
    {
        let p = chars_of(path);
        self.owner_for_path(&p)
    }

    fn owner_for_path(&self, path: &Vec<char>) -> (r: Option<usize>)
        ensures
            r matches Some(i) ==> owner_of_path(specs_of(self.entries@), path@) == Some(i as int)
                && i < self.entries@.len(),
            r is None ==> owner_of_path(specs_of(self.entries@), path@) is None,
    {
        match extension_start(path) {
            None => None,
            Some(k) => {
                let ext = slice_chars(path, k, path.len());
                let r = self.entry_for(&ext);
                proof {
                    if let Some(i) = r {
                        lemma_first_claimant_bounds(specs_of(self.entries@), ext@, 0);
                    }
                }
                r
            },
        }
    }

    /// Appends the language `spec`, with empty statistics. Its claims on
    /// extensions that an earlier entry holds are dropped and recorded.
    fn add_entry(&mut self, spec: LangSpec)
        requires
            old(self).well_formed(),
            spec.well_formed(),
        ensures
            final(self).well_formed(),
            final(self).dir_view() == old(self).dir_view(),
            final(self).entries_view().len() == old(self).entries_view().len() + 1,
            forall|i: int|
                0 <= i < old(self).entries_view().len() ==> #[trigger] final(self).entries_view()[i]
                    == old(self).entries_view()[i],
            final(self).entries_view().last().spec == spec,
            final(self).languages() == old(self).languages().push(spec),
            forall|ext: Seq<char>|
                #![trigger owner(final(self).languages(), ext)]
                owner(old(self).languages(), ext) is Some ==> owner(final(self).languages(), ext)
                    == owner(old(self).languages(), ext),
            final(self).entries_view().last().stats.files@.len() == 0,
            final(self).entries_view().last().stats.loc == 0,
            final(self).conflicts_view() == old(self).conflicts_view() + claimed(
                old(self).languages(),
                views(spec.extensions@),
            ),
    {
        let ghost exts = views(spec.extensions@);
        let ghost before = self.conflicts_view();
        let mut k: usize = 0;
        while k < spec.extensions.len()
            invariant
                k <= spec.extensions@.len(),
                exts == views(spec.extensions@),
                self.entries@ == old(self).entries@,
                self.dir@ == old(self).dir@,
                views(self.conflicts@) == before + claimed(specs_of(self.entries@), exts.take(k as int)),
            decreases spec.extensions@.len() - k,
        {
            let e = chars_of(spec.extensions[k].as_str());
            assert(exts.take(k + 1).drop_last() =~= exts.take(k as int));
            if self.entry_for(&e).is_some() {
                let ghost prior = self.conflicts@;
                self.conflicts.push(spec.extensions[k].clone());
                assert(views(self.conflicts@) =~= views(prior).push(e@));
                assert(views(self.conflicts@) =~= before + claimed(specs_of(self.entries@), exts.take(k + 1)));
            }
            k += 1;
        }
        assert(exts.take(spec.extensions@.len() as int) =~= exts);
        let ghost added = spec;
        self.entries.push(LangEntry { spec, stats: LangStats::new() });
        assert(views(self.entries@.last().stats.files@) =~= Seq::empty());
        assert(specs_of(self.entries@) =~= specs_of(old(self).entries@).push(added));
        assert forall|ext: Seq<char>|
            #![trigger owner(self.languages(), ext)]
            owner(old(self).languages(), ext) is Some implies owner(self.languages(), ext) == owner(
                old(self).languages(),
                ext,
            ) by {
            lemma_first_registration_wins(old(self).languages(), added, ext);
        }
    }

    /// Empties every entry's statistics.
    pub fn clear_stats(&mut self)
        requires
            old(self).well_formed(),
        ensures
            final(self).well_formed(),
            Self::same_languages(*old(self), *final(self)),
            forall|i: int|
                #![trigger final(self).entries_view()[i]]
                0 <= i < final(self).entries_view().len() ==> final(self).entries_view()[i].stats.files@.len()
                    == 0 && final(self).entries_view()[i].stats.loc == 0,
    {
        let mut i: usize = 0;
        while i < self.entries.len()
            invariant
                i <= self.entries@.len(),
                self.entries@.len() == old(self).entries@.len(),
                self.dir@ == old(self).dir@,
                self.conflicts@ == old(self).conflicts@,
                forall|j: int|
                    0 <= j < self.entries@.len() ==> #[trigger] self.entries@[j].spec
                        == old(self).entries@[j].spec,
                self.well_formed(),
                forall|j: int|
                    0 <= j < i ==> (#[trigger] self.entries@[j]).stats.files@.len() == 0
                        && self.entries@[j].stats.loc == 0,
            decreases self.entries@.len() - i,
        {
            self.entries[i].stats = LangStats::new();
            assert(views(self.entries@[i as int].stats.files@) =~= Seq::empty());
            i += 1;
        }
        assert(specs_of(self.entries@) =~= specs_of(old(self).entries@));
    }
}

impl LangRegistry {
    /// Adds `file` to the statistics of the language that owns it, if any.
    /// A path already counted for that language is not counted again.
    pub fn record_file(&mut self, file: &SourceFile)
        requires
            old(self).well_formed(),
        ensures
            final(self).well_formed(),
            Self::same_languages(*old(self), *final(self)),
            forall|i: int|
                #![trigger final(self).entries_view()[i]]
                0 <= i < old(self).entries_view().len() ==> if owner_of_path(
                    old(self).languages(),
                    file.path@,
                ) == Some(i) && !old(self).entries_view()[i].stats.file_set().contains(file.path@) {
                    &&& final(self).entries_view()[i].stats.file_set() == old(
                        self,
                    ).entries_view()[i].stats.file_set().insert(file.path@)
                    &&& final(self).entries_view()[i].stats.loc == add_capped(
                        old(self).entries_view()[i].stats.loc as nat,
                        code_lines(views(file.lines@), old(self).languages()[i].comments),
                    )
                } else {
                    final(self).entries_view()[i].stats == old(self).entries_view()[i].stats
                },
    {
        let p = chars_of(file.path.as_str());
        if let Some(i) = self.owner_for_path(&p) {
            let ghost prior = self.entries@[i as int].stats.files@;
            if !contains_chars(&self.entries[i].stats.files, &p) {
                let loc = count_lines(&file.lines, &self.entries[i].spec.comments);
                self.entries[i].stats.files.push(file.path.clone());
                proof {
                    assert(views(self.entries@[i as int].stats.files@) =~= views(prior).push(p@));
                    views(prior).lemma_push_to_set_commute(p@);
                    lemma_push_distinct(views(prior), p@);
                }
                self.entries[i].stats.loc = self.entries[i].stats.loc.saturating_add(loc);
            } else {
                assert(views(prior).to_set().contains(p@)) by {
                    let k = choose|k: int| 0 <= k < views(prior).len() && views(prior)[k] == p@;
                    assert(views(prior).to_set().contains(views(prior)[k]));
                }
            }
        }
        assert(specs_of(self.entries@) =~= specs_of(old(self).entries@));
    }

    /// Runs a scan over `files`: every entry's statistics are emptied, then
    /// each file whose extension an entry owns is counted for that entry.
    /// The result depends on the languages and on `files` alone. A line
    /// total that would pass `u64::MAX` stays there.
    pub fn update_stats(&mut self, files: &Vec<SourceFile>)
        requires
            old(self).well_formed(),
        ensures
            final(self).well_formed(),
            Self::scanned(*old(self), *final(self), files@),
    {
        self.clear_stats();
        let mut k: usize = 0;
        while k < files.len()
            invariant
                k <= files@.len(),
                self.well_formed(),
                Self::same_languages(*old(self), *self),
                forall|i: int|
                    #![trigger self.entries@[i]]
                    0 <= i < self.entries@.len() ==> {
                        &&& self.entries@[i].stats.file_set() == tally(
                            old(self).languages(),
                            files@.take(k as int),
                            i,
                        ).0
                        &&& self.entries@[i].stats.loc == tally(
                            old(self).languages(),
                            files@.take(k as int),
                            i,
                        ).1
                    },
            decreases files@.len() - k,
        {
            assert(files@.take(k + 1).drop_last() =~= files@.take(k as int));
            self.record_file(&files[k]);
            k += 1;
        }
        assert(files@.take(files@.len() as int) =~= files@);
    }
}

proof fn lemma_push_distinct(s: Seq<Seq<char>>, x: Seq<char>)
    requires
        s.no_duplicates(),
        !s.contains(x),
    ensures
        s.push(x).no_duplicates(),
{
    assert forall|i: int, j: int|
        0 <= i < s.push(x).len() && 0 <= j < s.push(x).len() && i != j implies s.push(x)[i]
        != s.push(x)[j] by {
        if i == s.len() {
            assert(s[j] == s.push(x)[j]);
        } else if j == s.len() {
            assert(s[i] == s.push(x)[i]);
        }
    }
}

/// The languages that `langs` describe, in order, or the first error among
/// them.
pub open spec fn configured(langs: Seq<CfgLangEntry>) -> Result<Seq<LangSpec>, ConfigError>
    decreases langs.len(),
{
    if langs.len() == 0 {
        Ok(Seq::empty())
    } else {
        match configured(langs.drop_last()) {
            Err(e) => Err(e),
            Ok(before) => match lang_spec_from(langs.last()) {
                Ok(l) => Ok(before.push(l)),
                Err(e) => Err(e),
            },
        }
    }
}

/// The extension claims dropped when `langs` are registered in order.
pub open spec fn dropped_claims(langs: Seq<LangSpec>) -> Seq<Seq<char>>
    decreases langs.len(),
{
    if langs.len() == 0 {
        Seq::empty()
    } else {
        dropped_claims(langs.drop_last()) + claimed(
            langs.drop_last(),
            views(langs.last().extensions@),
        )
    }
}

impl LangRegistry {
    /// No file has been counted yet.
    pub open spec fn stats_empty(&self) -> bool {
        forall|i: int|
            #![trigger self.entries_view()[i]]
            0 <= i < self.entries_view().len() ==> self.entries_view()[i].stats.files@.len() == 0
                && self.entries_view()[i].stats.loc == 0
    }

    /// The registry for the directory `dir` with the built-in languages:
    /// Rust, then C.
    pub fn with_builtins_langs(dir: &str) -> (r: Self)
        ensures
            r.well_formed(),
            r.stats_empty(),
            r.dir_view() == dir@,
            r.languages().len() == 2,
            r.languages()[0].name@ == "Rust"@,
            views(r.languages()[0].extensions@) == seq!["rs"@],
            r.languages()[0].comments.prefixes() == seq!["//"@, "///"@, "//!"@],
            r.languages()[0].comments.block matches Some(b) && b.open@ == "/*"@ && b.close@
                == "*/"@,
            r.languages()[1].name@ == "C"@,
            views(r.languages()[1].extensions@) == seq!["c"@, "h"@],
            r.languages()[1].comments.prefixes() == seq!["//"@],
            r.languages()[1].comments.block matches Some(b) && b.open@ == "/*"@ && b.close@
                == "*/"@,
            r.conflicts_view() == dropped_claims(r.languages()),
    {
        let mut reg = LangRegistry::new();
        reg.dir = dir.to_owned();
        proof {
            reveal_strlit("rs");
            reveal_strlit("c");
            reveal_strlit("h");
            reveal_strlit("//");
            reveal_strlit("///");
            reveal_strlit("//!");
            reveal_strlit("/*");
            reveal_strlit("*/");
        }
        let rust = LangSpec::new(
            "Rust".to_owned(),
            vec!["rs".to_owned()],
            CommentType {
                line: vec!["//".to_owned(), "///".to_owned(), "//!".to_owned()],
                block: Some(Block { open: "/*".to_owned(), close: "*/".to_owned() }),
            },
        );
        assert(views(rust.extensions@) =~= seq!["rs"@]);
        assert(rust.comments.prefixes() =~= seq!["//"@, "///"@, "//!"@]);
        reg.add_entry(rust);
        assert(reg.conflicts_view() =~= claimed(Seq::empty(), views(reg.languages()[0].extensions@)));
        let c = LangSpec::new(
            "C".to_owned(),
            vec!["c".to_owned(), "h".to_owned()],
            CommentType {
                line: vec!["//".to_owned()],
                block: Some(Block { open: "/*".to_owned(), close: "*/".to_owned() }),
            },
        );
        assert(views(c.extensions@) =~= seq!["c"@, "h"@]);
        assert(c.comments.prefixes() =~= seq!["//"@]);
        let ghost first = reg.languages();
        reg.add_entry(c);
        proof {
            lemma_dropped_claims_push(Seq::empty(), first[0]);
            assert(Seq::<LangSpec>::empty().push(first[0]) =~= first);
            lemma_dropped_claims_push(first, reg.languages()[1]);
            assert(first.push(reg.languages()[1]) =~= reg.languages());
            assert(dropped_claims(Seq::<LangSpec>::empty()) =~= Seq::empty());
        }
        reg
    }

    /// The registry that `cfg` describes, or the first error among its
    /// languages. Languages are registered in order; a claim on an extension
    /// that an earlier language holds is dropped and recorded.
    pub fn with_config(cfg: Config) -> (r: Result<Self, ConfigError>)
        ensures
            match r {
                Ok(reg) => {
                    &&& configured(cfg.languages@) == Ok::<Seq<LangSpec>, ConfigError>(
                        reg.languages(),
                    )
                    &&& reg.well_formed()
                    &&& reg.stats_empty()
                    &&& reg.dir_view() == cfg.dir@
                    &&& reg.conflicts_view() == dropped_claims(reg.languages())
                },
                Err(e) => configured(cfg.languages@) == Err::<Seq<LangSpec>, ConfigError>(e),
            },
    {
        let mut reg = LangRegistry::new();
        let ghost all = cfg.languages@;
        let total = cfg.languages.len();
        reg.dir = cfg.dir;
        let mut langs = cfg.languages;
        let mut k: usize = 0;
        assert(all.take(0) =~= Seq::empty());
        assert(dropped_claims(Seq::<LangSpec>::empty()) =~= Seq::empty());
        while langs.len() > 0
            invariant
                all == cfg.languages@,
                total == all.len(),
                k + langs@.len() == all.len(),
                langs@ == all.subrange(k as int, all.len() as int),
                configured(all.take(k as int)) == Ok::<Seq<LangSpec>, ConfigError>(
                    reg.languages(),
                ),
                reg.well_formed(),
                reg.stats_empty(),
                reg.dir_view() == cfg.dir@,
                reg.conflicts_view() == dropped_claims(reg.languages()),
            decreases langs@.len(),
        {
            let language = langs.remove(0);
            assert(all.take(k + 1).drop_last() =~= all.take(k as int));
            assert(language == all[k as int]);
            match LangSpec::try_from(language) {
                Ok(spec) => {
                    let ghost before = reg.languages();
                    let ghost added = spec;
                    reg.add_entry(spec);
                    proof {
                        lemma_dropped_claims_push(before, added);
                    }
                },
                Err(e) => {
                    proof {
                        assert(all.take(k + 1).last() == all[k as int]);
                        lemma_configured_err_stays(all, k as int + 1, all.len() as int, e);
                        assert(all.take(all.len() as int) =~= all);
                    }
                    return Err(e);
                },
            }
            k += 1;
            assert(langs@ =~= all.subrange(k as int, all.len() as int));
        }
        assert(all.take(k as int) =~= all);
        Ok(reg)
    }

    /// Per language, in order of registration: its name, the number of
    /// distinct files counted and their lines of code.
    pub fn stats_report(&self) -> (r: Vec<LangReport>)
        requires
            self.well_formed(),
        ensures
            r@.len() == self.entries_view().len(),
            forall|i: int|
                #![trigger r@[i]]
                0 <= i < r@.len() ==> {
                    &&& r@[i].name@ == self.languages()[i].name@
                    &&& r@[i].files == self.entries_view()[i].stats.file_set().len()
                    &&& r@[i].loc == self.entries_view()[i].stats.loc
                },
    {
        let mut r: Vec<LangReport> = Vec::new();
        let mut i: usize = 0;
        while i < self.entries.len()
            invariant
                i <= self.entries@.len(),
                r@.len() == i,
                self.well_formed(),
                forall|j: int|
                    #![trigger r@[j]]
                    0 <= j < i ==> {
                        &&& r@[j].name@ == self.entries@[j].spec.name@
                        &&& r@[j].files == self.entries@[j].stats.file_set().len()
                        &&& r@[j].loc == self.entries@[j].stats.loc
                    },
            decreases self.entries@.len() - i,
        {
            let entry = &self.entries[i];
            proof {
                assert(self.entries@[i as int].stats.well_formed());
                views(entry.stats.files@).unique_seq_to_set();
            }
            r.push(
                LangReport {
                    name: entry.spec.name.clone(),
                    files: entry.stats.files.len(),
                    loc: entry.stats.loc,
                },
            );
            i += 1;
        }
        r
    }

    /// The directory analysed.
    pub fn dir(&self) -> (r: &String)
        ensures
            r@ == self.dir_view(),
    {
        &self.dir
    }

    /// Extension claims that were dropped because an earlier language held
    /// them, in order.
    pub fn conflicts(&self) -> (r: &Vec<String>)
        ensures
            views(r@) == self.conflicts_view(),
    {
        &self.conflicts
    }
}

proof fn lemma_dropped_claims_push(langs: Seq<LangSpec>, spec: LangSpec)
    ensures
        dropped_claims(langs.push(spec)) == dropped_claims(langs) + claimed(
            langs,
            views(spec.extensions@),
        ),
{
    assert(langs.push(spec).drop_last() =~= langs);
}

/// Once a prefix of `langs` has an error, every longer prefix has the same.
proof fn lemma_configured_err_stays(langs: Seq<CfgLangEntry>, m: int, n: int, e: ConfigError)
    requires
        0 <= m <= n <= langs.len(),
        configured(langs.take(m)) == Err::<Seq<LangSpec>, ConfigError>(e),
    ensures
        configured(langs.take(n)) == Err::<Seq<LangSpec>, ConfigError>(e),
    decreases n - m,
{
    if m < n {
        lemma_configured_err_stays(langs, m, n - 1, e);
        assert(langs.take(n).drop_last() =~= langs.take(n - 1));
    }
}

/// Running `update_stats` twice in a row over the same files gives every
/// language the same files, file count and lines of code both times.
pub proof fn lemma_update_stats_idempotent(
    before: LangRegistry,
    once: LangRegistry,
    twice: LangRegistry,
    files: Seq<SourceFile>,
)
    requires
        once.well_formed(),
        twice.well_formed(),
        LangRegistry::scanned(before, once, files),
        LangRegistry::scanned(once, twice, files),
    ensures
        twice.entries_view().len() == once.entries_view().len(),
        forall|i: int|
            #![trigger twice.entries_view()[i]]
            0 <= i < once.entries_view().len() ==> {
                &&& twice.entries_view()[i].stats.file_set()
                    == once.entries_view()[i].stats.file_set()
                &&& twice.entries_view()[i].stats.files@.len()
                    == once.entries_view()[i].stats.files@.len()
                &&& twice.entries_view()[i].stats.loc == once.entries_view()[i].stats.loc
            },
{
    assert forall|i: int|
        #![trigger twice.entries_view()[i]]
        0 <= i < once.entries_view().len() implies twice.entries_view()[i].stats.files@.len()
        == once.entries_view()[i].stats.files@.len() by {
        assert(once.entries@[i].stats.well_formed());
        assert(twice.entries@[i].stats.well_formed());
        views(once.entries@[i].stats.files@).unique_seq_to_set();
        views(twice.entries@[i].stats.files@).unique_seq_to_set();
    }
}

/// Registering a language never takes an extension from one registered
/// before it: the first registration keeps the files with that extension.
pub proof fn lemma_first_registration_wins(langs: Seq<LangSpec>, added: LangSpec, ext: Seq<char>)
    requires
        owner(langs, ext) is Some,
    ensures
        owner(langs.push(added), ext) == owner(langs, ext),
{
    lemma_claimant_kept(langs, added, ext, 0);
}

proof fn lemma_claimant_kept(langs: Seq<LangSpec>, added: LangSpec, ext: Seq<char>, i: int)
    requires
        0 <= i,
        first_claimant(langs, ext, i) is Some,
    ensures
        first_claimant(langs.push(added), ext, i) == first_claimant(langs, ext, i),
    decreases langs.len() - i,
{
    if i < langs.len() {
        assert(langs.push(added)[i] == langs[i]);
        if !langs[i].claims(ext) {
            lemma_claimant_kept(langs, added, ext, i + 1);
        }
    }
}

/// Where the extension of the file that `path` names starts.
fn extension_start(path: &Vec<char>) -> (r: Option<usize>)
    ensures
        r matches Some(k) ==> k <= path@.len() && extension_of(path@) == Some(
            path@.subrange(k as int, path@.len() as int),
        ),
        r is None ==> extension_of(path@) is None,
{
    let n: usize = path.len();
    let slash = last_index(path, '/');
    let dot = last_index(path, '.');
    match dot {
        None => None,
        Some(d) => {
            let name_start = match slash {
                Some(s) => s + 1,
                None => 0,
            };
            if d <= name_start {
                None
            } else {
                Some(d + 1)
            }
        },
    }
}

/// Index of the last `c` in `s`.
fn last_index(s: &Vec<char>, c: char) -> (r: Option<usize>)
    ensures
        r matches Some(k) ==> k < s@.len() && last_index_of(s@, c, s@.len() as int) == k,
        r is None ==> last_index_of(s@, c, s@.len() as int) == -1,
{
    let mut j: usize = s.len();
    while j > 0
        invariant
            j <= s@.len(),
            last_index_of(s@, c, j as int) == last_index_of(s@, c, s@.len() as int),
        decreases j,
    {
        if s[j - 1] == c {
            return Some(j - 1);
        }
        j -= 1;
    }
    None
}

proof fn lemma_first_claimant_bounds(langs: Seq<LangSpec>, ext: Seq<char>, i: int)
    ensures
        first_claimant(langs, ext, i) matches Some(j) ==> i <= j < langs.len(),
    decreases langs.len() - i,
{
    if !(i < 0 || i >= langs.len()) && !langs[i].claims(ext) {
        lemma_first_claimant_bounds(langs, ext, i + 1);
    }
}

/// Whether one of `exts` is exactly `ext`.
fn contains_chars(exts: &Vec<String>, ext: &Vec<char>) -> (r: bool)
    ensures
        r == views(exts@).contains(ext@),
{
    let mut k: usize = 0;
    while k < exts.len()
        invariant
            k <= exts@.len(),
            forall|m: int| 0 <= m < k ==> exts@[m]@ != ext@,
        decreases exts@.len() - k,
    {
        let e = chars_of(exts[k].as_str());
        if same_chars(&e, ext) {
            assert(views(exts@)[k as int] == ext@);
            return true;
        }
        k += 1;
    }
    assert(!views(exts@).contains(ext@)) by {
        if views(exts@).contains(ext@) {
            let m = choose|m: int| 0 <= m < views(exts@).len() && views(exts@)[m] == ext@;
            assert(exts@[m]@ == ext@);
        }
    }
    false
}

/// Whether `a` and `b` hold the same characters.
fn same_chars(a: &Vec<char>, b: &Vec<char>) -> (r: bool)
    ensures
        r == (a@ == b@),
{
    if a.len() != b.len() {
        return false;
    }
    let mut k: usize = 0;
    while k < a.len()
        invariant
            k <= a@.len(),
            a@.len() == b@.len(),
            forall|m: int| 0 <= m < k ==> a@[m] == b@[m],
        decreases a@.len() - k,
    {
        if a[k] != b[k] {
            return false;
        }
        k += 1;
    }
    assert(a@ =~= b@);
    true
}

} // verus!
