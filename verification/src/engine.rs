//! The scan engine.
//!
//! `SimilarImages` holds the configuration (roots, exclusions, extension
//! and size filters, grouping radius), drives a directory walk as a state
//! machine, files every eligible entry into the size buckets, indexes the
//! externally computed fingerprints, and builds the groups of similar
//! files.  The walk itself is cooperative: the engine hands out one
//! pending directory at a time and is fed back what that directory
//! contains; reading the filesystem is the caller's business, every
//! decision about what was read is made — and verified — here.
use crate::buckets::{
    bucket_insert, capped, dup_count, group_count, lost_space, retained, sat_add, SizeBucketIndex,
};
use crate::index::{groups_from, FingerprintIndex, KeyGroup};
use crate::metric::KEY_LEN_LIMIT;
use crate::pattern::{glob_match, glob_matches};
use vstd::prelude::*;
use vstd::string::StrSliceExecFns;
use vstd::string::StringExecFns;

verus! {

/// One file that passed every eligibility check during the walk.
pub struct FileEntry {
    pub path: String,
    pub size: u64,
    pub modified_date: u64,
}

/// Run statistics, reset at the start of every scan.
pub struct Info {
    pub number_of_checked_folders: usize,
    pub number_of_checked_files: usize,
    pub number_of_ignored_files: usize,
    pub number_of_ignored_things: usize,
    pub number_of_duplicated_files_by_size: u64,
    pub number_of_groups_by_size: u64,
    pub lost_space_by_size: u64,
}

impl Info {
    pub open spec fn is_reset(&self) -> bool {
        &&& self.number_of_checked_folders == 0
        &&& self.number_of_checked_files == 0
        &&& self.number_of_ignored_files == 0
        &&& self.number_of_ignored_things == 0
        &&& self.number_of_duplicated_files_by_size == 0
        &&& self.number_of_groups_by_size == 0
        &&& self.lost_space_by_size == 0
    }

    pub fn new() -> (r: Self)
        ensures
            r.is_reset(),
    {
        Info {
            number_of_checked_folders: 0,
            number_of_checked_files: 0,
            number_of_ignored_files: 0,
            number_of_ignored_things: 0,
            number_of_duplicated_files_by_size: 0,
            number_of_groups_by_size: 0,
            lost_space_by_size: 0,
        }
    }
}

impl Default for Info {
    fn default() -> (r: Self)
        ensures
            r.is_reset(),
    {
        Info::new()
    }
}

/// Messages collected while working: plain notes, recoverable warnings,
/// and configuration errors.
pub struct Messages {
    pub messages: Vec<String>,
    pub warnings: Vec<String>,
    pub errors: Vec<String>,
}

impl Messages {
    pub fn new() -> (r: Self)
        ensures
            r.messages@.len() == 0,
            r.warnings@.len() == 0,
            r.errors@.len() == 0,
    {
        Messages { messages: Vec::new(), warnings: Vec::new(), errors: Vec::new() }
    }
}

/// What kind of directory entry the caller observed.  `Inaccessible`
/// records an entry whose kind or metadata could not be read at all.
pub enum EntryKind {
    Folder,
    Regular,
    Other,
    Inaccessible,
}

/// What the caller could learn of an entry's modification time.
pub enum ModifiedTime {
    At(u64),
    BeforeEpoch,
    Unavailable,
}

/// One directory entry as the caller observed it.  A name of `None`
/// records a name that could not be represented as text; such an entry is
/// invisible to the scan.
pub struct RawEntry {
    pub name: Option<String>,
    pub kind: EntryKind,
    pub size: u64,
    pub modified: ModifiedTime,
}

/// What reading one pending directory produced.
pub enum DirListing {
    Entries(Vec<RawEntry>),
    Unreadable,
}

/// What the engine asks for next during a walk.
pub enum ScanStep {
    ReadDir(String),
    WalkDone,
    Stopped,
}

/// The fingerprint the caller computed for one file, or its failure.
pub enum FingerprintOutcome {
    Key(Vec<u8>),
    Failed,
}

/// Where a scan stands.
pub enum ScanPhase {
    Idle,
    Walking,
    AwaitingDir,
    Hashing,
    Done,
    Stopped,
}

/// The configuration a walk runs under, as mathematical values.
pub struct ScanRules {
    pub excluded_dirs: Seq<Seq<char>>,
    pub patterns: Seq<Seq<char>>,
    pub extensions: Seq<Seq<char>>,
    pub min_size: u64,
    pub recursive: bool,
}

pub open spec fn str_views(v: Seq<String>) -> Seq<Seq<char>> {
    v.map_values(|s: String| s@)
}

pub open spec fn entry_views(v: Seq<FileEntry>) -> Seq<(Seq<char>, u64, u64)> {
    v.map_values(|e: FileEntry| (e.path@, e.size, e.modified_date))
}

/// Does `path` match any of the exclusion patterns?
pub open spec fn path_excluded(patterns: Seq<Seq<char>>, path: Seq<char>) -> bool {
    exists|i: int| 0 <= i < patterns.len() && glob_match(#[trigger] patterns[i], path)
}

/// Is the directory `path` excluded, by exact path or by pattern?
pub open spec fn dir_excluded(r: ScanRules, path: Seq<char>) -> bool {
    (exists|i: int| 0 <= i < r.excluded_dirs.len() && #[trigger] r.excluded_dirs[i] == path)
        || path_excluded(r.patterns, path)
}

/// The lower-case code point of `c`, folding only ASCII letters.
pub open spec fn lower_code(c: char) -> int {
    if 65 <= c as u32 && c as u32 <= 90 {
        c as u32 + 32
    } else {
        c as u32 as int
    }
}

/// Case-insensitive character equality (ASCII folding).
pub open spec fn eq_ci(a: char, b: char) -> bool {
    lower_code(a) == lower_code(b)
}

/// Does `name` end in a dot followed by `ext`, compared case-insensitively?
pub open spec fn ext_matches(name: Seq<char>, ext: Seq<char>) -> bool {
    &&& name.len() >= ext.len() + 1
    &&& name[name.len() - ext.len() - 1] == '.'
    &&& forall|w: int| 0 <= w < ext.len() ==> eq_ci(name[name.len() - ext.len() + w], #[trigger] ext[w])
}

/// With no configured extensions every name passes; otherwise the name
/// must end in one of them.
pub open spec fn extension_allowed(exts: Seq<Seq<char>>, name: Seq<char>) -> bool {
    exts.len() == 0 || exists|i: int| 0 <= i < exts.len() && ext_matches(name, #[trigger] exts[i])
}

pub open spec fn warn_cannot_open(folder: Seq<char>) -> Seq<char> {
    "Cannot open dir "@ + folder
}

pub open spec fn warn_cannot_read_entry(folder: Seq<char>) -> Seq<char> {
    "Cannot read entry in dir "@ + folder
}

pub open spec fn warn_no_modification_date(path: Seq<char>) -> Seq<char> {
    "Unable to get modification date from file "@ + path
}

pub open spec fn warn_before_epoch(path: Seq<char>) -> Seq<char> {
    "File modified before Unix Epoch: "@ + path
}

pub open spec fn warn_fingerprint_failed(path: Seq<char>) -> Seq<char> {
    "Unable to compute fingerprint of file "@ + path
}

pub open spec fn warn_malformed_fingerprint(path: Seq<char>) -> Seq<char> {
    "Malformed fingerprint for file "@ + path
}

/// What one observed entry contributes to the walk: directories to visit
/// later, an eligible file, warnings, and counter increments.
pub struct StepEffect {
    pub pending: Seq<Seq<char>>,
    pub entries: Seq<(Seq<char>, u64, u64)>,
    pub warnings: Seq<Seq<char>>,
    pub folders: int,
    pub files: int,
    pub ignored: int,
    pub other: int,
}

pub open spec fn empty_effect() -> StepEffect {
    StepEffect {
        pending: Seq::empty(),
        entries: Seq::empty(),
        warnings: Seq::empty(),
        folders: 0,
        files: 0,
        ignored: 0,
        other: 0,
    }
}

pub open spec fn effect_concat(a: StepEffect, b: StepEffect) -> StepEffect {
    StepEffect {
        pending: a.pending + b.pending,
        entries: a.entries + b.entries,
        warnings: a.warnings + b.warnings,
        folders: a.folders + b.folders,
        files: a.files + b.files,
        ignored: a.ignored + b.ignored,
        other: a.other + b.other,
    }
}

/// How one observed entry of the directory `folder` is classified: a
/// nameless entry is invisible; a subdirectory is skipped entirely when
/// excluded and otherwise counted (and, in recursive mode, queued); a
/// regular file must pass the extension filter, the minimum size, and the
/// exclusion patterns, and needs a modification time; anything else is
/// counted as an ignored other item.
pub open spec fn entry_effect(r: ScanRules, folder: Seq<char>, e: RawEntry) -> StepEffect {
    if e.kind is Inaccessible {
        StepEffect { warnings: seq![warn_cannot_read_entry(folder)], ..empty_effect() }
    } else {
        entry_effect_named(r, folder, e)
    }
}

/// The effect of a readable entry, by its name and kind.
pub open spec fn entry_effect_named(r: ScanRules, folder: Seq<char>, e: RawEntry) -> StepEffect {
    match e.name {
        Option::None => empty_effect(),
        Option::Some(n) => {
            let name = n@;
            match e.kind {
                EntryKind::Folder => {
                    let full = folder + name + "/"@;
                    if dir_excluded(r, full) {
                        empty_effect()
                    } else {
                        StepEffect {
                            folders: 1,
                            pending: if r.recursive {
                                seq![full]
                            } else {
                                Seq::empty()
                            },
                            ..empty_effect()
                        }
                    }
                },
                EntryKind::Regular => {
                    if !extension_allowed(r.extensions, name) {
                        StepEffect { ignored: 1, ..empty_effect() }
                    } else if e.size < r.min_size {
                        StepEffect { ignored: 1, ..empty_effect() }
                    } else {
                        let full = folder + name;
                        if path_excluded(r.patterns, full) {
                            empty_effect()
                        } else {
                            match e.modified {
                                ModifiedTime::Unavailable => StepEffect {
                                    warnings: seq![warn_no_modification_date(full)],
                                    ..empty_effect()
                                },
                                ModifiedTime::BeforeEpoch => StepEffect {
                                    warnings: seq![warn_before_epoch(full)],
                                    entries: seq![(full, e.size, 0u64)],
                                    files: 1,
                                    ..empty_effect()
                                },
                                ModifiedTime::At(t) => StepEffect {
                                    entries: seq![(full, e.size, t)],
                                    files: 1,
                                    ..empty_effect()
                                },
                            }
                        }
                    }
                },
                EntryKind::Other => StepEffect { other: 1, ..empty_effect() },
                EntryKind::Inaccessible => empty_effect(),
            }
        },
    }
}

/// The combined effect of a whole directory listing, in order.
pub open spec fn listing_effect(r: ScanRules, folder: Seq<char>, es: Seq<RawEntry>) -> StepEffect
    decreases es.len(),
{
    if es.len() == 0 {
        empty_effect()
    } else {
        effect_concat(
            listing_effect(r, folder, es.drop_last()),
            entry_effect(r, folder, es.last()),
        )
    }
}

/// The bucket views after filing each new entry in order, the first under
/// index `base`.
pub open spec fn buckets_fold(
    bs: Seq<(u64, Seq<usize>)>,
    base: int,
    es: Seq<(Seq<char>, u64, u64)>,
) -> Seq<(u64, Seq<usize>)>
    decreases es.len(),
{
    if es.len() == 0 {
        bs
    } else {
        bucket_insert(
            buckets_fold(bs, base, es.drop_last()),
            es.last().1,
            (base + es.len() - 1) as usize,
        )
    }
}

pub open spec fn capped_usize(v: int) -> int {
    if v <= usize::MAX {
        v
    } else {
        usize::MAX as int
    }
}

/// Adds with saturation at the largest `usize`.
fn sat_add_usize(a: usize, b: usize) -> (r: usize)
    ensures
        r == capped_usize(a + b),
{
    match a.checked_add(b) {
        Some(v) => v,
        None => usize::MAX,
    }
}

/// The characters of a string slice.
pub fn chars_of(s: &str) -> (r: Vec<char>)
    ensures
        r@ == s@,
{
    let n = s.unicode_len();
    let mut r: Vec<char> = Vec::new();
    let mut i: usize = 0;
    while i < n
        invariant
            i <= n,
            n == s@.len(),
            r@ == s@.subrange(0, i as int),
        decreases n - i,
    {
        let c = s.get_char(i);
        r.push(c);
        proof {
            assert(s@.subrange(0, i + 1 as int) =~= s@.subrange(0, i as int).push(s@[i as int]));
        }
        i = i + 1;
    }
    proof {
        assert(s@.subrange(0, s@.len() as int) =~= s@);
    }
    r
}

/// Case-insensitive character comparison, folding ASCII letters.
fn eq_ci_exec(a: char, b: char) -> (r: bool)
    ensures
        r == eq_ci(a, b),
{
    let ua = a as u32;
    let ub = b as u32;
    let la: u32 = if ua >= 65 && ua <= 90 {
        ua + 32
    } else {
        ua
    };
    let lb: u32 = if ub >= 65 && ub <= 90 {
        ub + 32
    } else {
        ub
    };
    la == lb
}

/// Does `name` end in a dot followed by `ext` (case-insensitively)?
fn ext_match_exec(name: &Vec<char>, ext: &Vec<char>) -> (r: bool)
    ensures
        r == ext_matches(name@, ext@),
{
    let nlen = name.len();
    let elen = ext.len();
    if elen == usize::MAX || nlen < elen + 1 {
        return false;
    }
    let dot_at = nlen - elen - 1;
    if name[dot_at] != '.' {
        return false;
    }
    let mut w: usize = 0;
    while w < elen
        invariant
            w <= elen,
            elen == ext@.len(),
            nlen == name@.len(),
            nlen >= elen + 1,
            forall|t: int| 0 <= t < w ==> eq_ci(name@[nlen - elen + t], ext@[t]),
        decreases elen - w,
    {
        if !eq_ci_exec(name[nlen - elen + w], ext[w]) {
            return false;
        }
        w = w + 1;
    }
    true
}


/// The cancellation receiver type of the outside channel crate.
#[verifier::external_type_specification]
#[verifier::external_body]
#[verifier::reject_recursive_types(T)]
pub struct ExReceiver<T>(crossbeam_channel::Receiver<T>);

/// Relies on crossbeam_channel::Receiver::try_recv: a non-blocking poll
/// that reports whether a message was ready.  Whether the cancellation
/// signal has fired depends on the outside sender, so nothing is promised
/// of the result.
#[verifier::external_body]
fn poll_fired(rx: &crossbeam_channel::Receiver<()>) -> bool {
    rx.try_recv().is_ok()
}

/// String equality by contents.
fn str_eq(a: &String, b: &String) -> (r: bool)
    ensures
        r == (a@ == b@),
{
    *a == *b
}

/// An element of a sequence of filtered roots: the included roots, in
/// order, with the excluded ones left out.
pub open spec fn kept_roots(r: ScanRules, roots: Seq<Seq<char>>) -> Seq<Seq<char>>
    decreases roots.len(),
{
    if roots.len() == 0 {
        Seq::empty()
    } else {
        let rest = kept_roots(r, roots.drop_last());
        if dir_excluded(r, roots.last()) {
            rest
        } else {
            rest.push(roots.last())
        }
    }
}

/// The scan engine: configuration, walk state, statistics, buckets,
/// fingerprint index and the groups of a finished scan.
pub struct SimilarImages {
    pub information: Info,
    pub text_messages: Messages,
    pub included_directories: Vec<String>,
    pub excluded_directories: Vec<String>,
    pub excluded_items: Vec<String>,
    pub allowed_extensions: Vec<String>,
    pub minimal_file_size: u64,
    pub similarity_radius: u64,
    pub recursive_search: bool,
    pub phase: ScanPhase,
    pub pending: Vec<String>,
    pub current_folder: Option<String>,
    pub entries: Vec<FileEntry>,
    pub buckets: SizeBucketIndex,
    pub index: FingerprintIndex,
    pub hashed_upto: usize,
    pub groups: Vec<KeyGroup>,
    pub stopped_search: bool,
}

impl SimilarImages {
    /// The configuration as mathematical values.
    pub open spec fn rules(&self) -> ScanRules {
        ScanRules {
            excluded_dirs: str_views(self.excluded_directories@),
            patterns: str_views(self.excluded_items@),
            extensions: str_views(self.allowed_extensions@),
            min_size: self.minimal_file_size,
            recursive: self.recursive_search,
        }
    }

    pub open spec fn spec_phase(&self) -> ScanPhase {
        self.phase
    }

    pub open spec fn spec_info(&self) -> Info {
        self.information
    }

    pub open spec fn spec_warnings(&self) -> Seq<Seq<char>> {
        str_views(self.text_messages.warnings@)
    }

    pub open spec fn spec_errors(&self) -> Seq<Seq<char>> {
        str_views(self.text_messages.errors@)
    }

    pub open spec fn spec_pending(&self) -> Seq<Seq<char>> {
        str_views(self.pending@)
    }

    pub open spec fn spec_entries(&self) -> Seq<(Seq<char>, u64, u64)> {
        entry_views(self.entries@)
    }

    pub open spec fn spec_buckets(&self) -> Seq<(u64, Seq<usize>)> {
        self.buckets.view_of()
    }

    pub open spec fn spec_pairs(&self) -> Set<(Seq<u8>, usize)> {
        self.index.pairs()
    }

    pub open spec fn spec_hashed(&self) -> int {
        self.hashed_upto as int
    }

    pub open spec fn spec_radius(&self) -> u64 {
        self.similarity_radius
    }

    /// The internal invariant.  Among other things it carries the
    /// exclusion guarantee: no gathered entry matches an exclusion
    /// pattern, and no pending or handed-out directory is excluded.
    pub open spec fn wf(&self) -> bool {
        &&& self.index.wf()
        &&& self.hashed_upto <= self.entries@.len()
        &&& forall|p: (Seq<u8>, usize)| #[trigger]
            self.index.pairs().contains(p) ==> p.1 < self.entries@.len()
        &&& forall|i: int|
            0 <= i < self.entries@.len() ==> !path_excluded(
                str_views(self.excluded_items@),
                (#[trigger] self.entries@[i]).path@,
            )
        &&& forall|i: int|
            0 <= i < self.pending@.len() ==> !dir_excluded(
                self.rules(),
                (#[trigger] self.pending@[i])@,
            )
        &&& match self.current_folder {
            Option::Some(d) => !dir_excluded(self.rules(), d@),
            Option::None => true,
        }
    }

    /// All configuration fields are unchanged between two states.
    pub open spec fn same_config(&self, other: &SimilarImages) -> bool {
        &&& self.included_directories@ == other.included_directories@
        &&& self.excluded_directories@ == other.excluded_directories@
        &&& self.excluded_items@ == other.excluded_items@
        &&& self.allowed_extensions@ == other.allowed_extensions@
        &&& self.minimal_file_size == other.minimal_file_size
        &&& self.similarity_radius == other.similarity_radius
        &&& self.recursive_search == other.recursive_search
    }

    pub fn new() -> (r: Self)
        ensures
            r.wf(),
            r.spec_phase() is Idle,
            r.spec_info().is_reset(),
            r.spec_warnings().len() == 0,
            r.spec_errors().len() == 0,
            r.included_directories@.len() == 0,
            r.excluded_directories@.len() == 0,
            r.excluded_items@.len() == 0,
            r.allowed_extensions@.len() == 0,
            r.minimal_file_size == 0,
            r.spec_radius() == 0,
            r.recursive_search == true,
            r.spec_entries().len() == 0,
            r.spec_pairs() == Set::<(Seq<u8>, usize)>::empty(),
            r.spec_pending().len() == 0,
            r.current_folder is None,
            r.spec_buckets().len() == 0,
            r.spec_hashed() == 0,
            r.groups@.len() == 0,
            r.text_messages.messages@.len() == 0,
            !r.stopped_search,
    {
        let r = SimilarImages {
            information: Info::new(),
            text_messages: Messages::new(),
            included_directories: Vec::new(),
            excluded_directories: Vec::new(),
            excluded_items: Vec::new(),
            allowed_extensions: Vec::new(),
            minimal_file_size: 0,
            similarity_radius: 0,
            recursive_search: true,
            phase: ScanPhase::Idle,
            pending: Vec::new(),
            current_folder: Option::None,
            entries: Vec::new(),
            buckets: SizeBucketIndex::new(),
            index: FingerprintIndex::new(),
            hashed_upto: 0,
            groups: Vec::new(),
            stopped_search: false,
        };
        proof {
            assert(entry_views(r.entries@) =~= Seq::<(Seq<char>, u64, u64)>::empty());
            assert(str_views(r.text_messages.warnings@) =~= Seq::<Seq<char>>::empty());
            assert(str_views(r.text_messages.errors@) =~= Seq::<Seq<char>>::empty());
            assert(str_views(r.pending@) =~= Seq::<Seq<char>>::empty());
        }
        r
    }

    pub fn get_stopped_search(&self) -> (r: bool)
        ensures
            r == self.stopped_search,
    {
        self.stopped_search
    }

    pub fn get_text_messages(&self) -> (r: &Messages)
        ensures
            r == &self.text_messages,
    {
        &self.text_messages
    }

    pub fn get_information(&self) -> (r: &Info)
        ensures
            r == &self.information,
    {
        &self.information
    }

    pub fn get_entries(&self) -> (r: &Vec<FileEntry>)
        ensures
            r == &self.entries,
    {
        &self.entries
    }

    pub fn get_similar_groups(&self) -> (r: &Vec<KeyGroup>)
        ensures
            r == &self.groups,
    {
        &self.groups
    }

    /// Sets the recursion flag and changes nothing else; the next walk
    /// descends into subdirectories exactly when the flag is set.
    pub fn set_recursive_search(&mut self, recursive_search: bool)
        requires
            old(self).wf(),
        ensures
            final(self).wf(),
            *final(self) == (SimilarImages { recursive_search, ..*old(self) }),
    {
        self.recursive_search = recursive_search;
        proof {
            self.lemma_wf_after_filter_change(old(self));
        }
    }

    /// Sets the minimum eligible file size and changes nothing else.
    pub fn set_minimal_file_size(&mut self, minimal_file_size: u64)
        requires
            old(self).wf(),
        ensures
            final(self).wf(),
            *final(self) == (SimilarImages { minimal_file_size, ..*old(self) }),
    {
        self.minimal_file_size = minimal_file_size;
        proof {
            self.lemma_wf_after_filter_change(old(self));
        }
    }

    /// Sets the grouping radius and changes nothing else.
    pub fn set_similarity_radius(&mut self, similarity_radius: u64)
        requires
            old(self).wf(),
        ensures
            final(self).wf(),
            *final(self) == (SimilarImages { similarity_radius, ..*old(self) }),
    {
        self.similarity_radius = similarity_radius;
        proof {
            self.lemma_wf_after_filter_change(old(self));
        }
    }

    /// Sets the allowed-extension filter and changes nothing else.
    pub fn set_allowed_extensions(&mut self, allowed_extensions: Vec<String>)
        requires
            old(self).wf(),
        ensures
            final(self).wf(),
            *final(self) == (SimilarImages { allowed_extensions, ..*old(self) }),
    {
        self.allowed_extensions = allowed_extensions;
        proof {
            self.lemma_wf_after_filter_change(old(self));
        }
    }

    /// The engine invariant reads the configuration only through the
    /// exclusion lists, so changing any other configuration field
    /// preserves it.
    proof fn lemma_wf_after_filter_change(&self, before: &SimilarImages)
        requires
            before.wf(),
            self.excluded_directories@ == before.excluded_directories@,
            self.excluded_items@ == before.excluded_items@,
            self.index == before.index,
            self.hashed_upto == before.hashed_upto,
            self.entries@ == before.entries@,
            self.pending@ == before.pending@,
            self.current_folder == before.current_folder,
        ensures
            self.wf(),
    {
        assert forall|i: int| 0 <= i < self.pending@.len() implies !dir_excluded(
            self.rules(),
            (#[trigger] self.pending@[i])@,
        ) by {
            assert(!dir_excluded(before.rules(), (before.pending@[i])@));
            lemma_same_exclusions(before.rules(), self.rules(), (self.pending@[i])@);
        };
        if self.current_folder is Some {
            lemma_same_exclusions(before.rules(), self.rules(), self.spec_current());
        }
        assert forall|i: int| 0 <= i < self.entries@.len() implies !path_excluded(
            str_views(self.excluded_items@),
            (#[trigger] self.entries@[i]).path@,
        ) by {
            assert(!path_excluded(str_views(before.excluded_items@), (before.entries@[i]).path@));
        };
    }

    /// Registers one root to scan; the roots do not bear on any gathered
    /// state, so nothing else changes.  An empty path is a configuration
    /// error and is rejected with an error message; otherwise the path is
    /// normalised to end in a separator and added.
    pub fn set_included_directory(&mut self, included_directory: String)
        requires
            old(self).wf(),
        ensures
            final(self).wf(),
            included_directory@.len() == 0 ==> {
                &&& *final(self) == (SimilarImages {
                    text_messages: final(self).text_messages,
                    ..*old(self)
                })
                &&& final(self).text_messages.warnings@ == old(self).text_messages.warnings@
                &&& final(self).text_messages.messages@ == old(self).text_messages.messages@
                &&& final(self).spec_errors() == old(self).spec_errors().push(
                    "Included directory must not be empty"@,
                )
            },
            included_directory@.len() > 0 ==> {
                &&& *final(self) == (SimilarImages {
                    included_directories: final(self).included_directories,
                    ..*old(self)
                })
                &&& final(self).included_directories@.drop_last() == old(
                    self,
                ).included_directories@
                &&& final(self).included_directories@.len() == old(
                    self,
                ).included_directories@.len() + 1
                &&& final(self).included_directories@.last()@ == normalized_dir(
                    included_directory@,
                )
            },
    {
        if included_directory.as_str().unicode_len() == 0 {
            let ghost before = self.text_messages.errors@;
            self.text_messages.errors.push(
                String::from_str("Included directory must not be empty"),
            );
            proof {
                lemma_str_views_push(before, self.text_messages.errors@);
                self.lemma_wf_after_filter_change(old(self));
            }
            return ;
        }
        let normalized = normalize_dir(included_directory);
        self.included_directories.push(normalized);
        proof {
            assert(self.included_directories@.drop_last() =~= old(self).included_directories@);
            self.lemma_wf_after_filter_change(old(self));
        }
    }

    /// Registers one directory to exclude by exact path.  A changed
    /// exclusion invalidates what was gathered under the old one, so any
    /// scan state is abandoned; the statistics, messages and
    /// configuration are otherwise untouched.
    pub fn set_excluded_directory(&mut self, excluded_directory: String)
        requires
            old(self).wf(),
        ensures
            final(self).wf(),
            final(self).same_config(&(SimilarImages {
                excluded_directories: final(self).excluded_directories,
                ..*old(self)
            })),
            final(self).information == old(self).information,
            final(self).text_messages.warnings@ == old(self).text_messages.warnings@,
            final(self).text_messages.messages@ == old(self).text_messages.messages@,
            final(self).stopped_search == old(self).stopped_search,
            final(self).spec_phase() is Idle,
            final(self).spec_entries().len() == 0,
            final(self).spec_pending().len() == 0,
            final(self).current_folder is None,
            final(self).spec_buckets().len() == 0,
            final(self).spec_pairs() == Set::<(Seq<u8>, usize)>::empty(),
            final(self).spec_hashed() == 0,
            final(self).groups@.len() == 0,
            excluded_directory@.len() == 0 ==> {
                &&& final(self).excluded_directories@ == old(self).excluded_directories@
                &&& final(self).spec_errors() == old(self).spec_errors().push(
                    "Excluded directory must not be empty"@,
                )
            },
            excluded_directory@.len() > 0 ==> {
                &&& final(self).spec_errors() == old(self).spec_errors()
                &&& final(self).excluded_directories@.drop_last() == old(
                    self,
                ).excluded_directories@
                &&& final(self).excluded_directories@.len() == old(
                    self,
                ).excluded_directories@.len() + 1
                &&& final(self).excluded_directories@.last()@ == normalized_dir(
                    excluded_directory@,
                )
            },
    {
        self.clear_scan_state();
        if excluded_directory.as_str().unicode_len() == 0 {
            let ghost before = self.text_messages.errors@;
            self.text_messages.errors.push(
                String::from_str("Excluded directory must not be empty"),
            );
            proof {
                lemma_str_views_push(before, self.text_messages.errors@);
            }
            return ;
        }
        let normalized = normalize_dir(excluded_directory);
        self.excluded_directories.push(normalized);
        proof {
            assert(self.excluded_directories@.drop_last() =~= old(self).excluded_directories@);
        }
    }

    /// Registers one exclusion pattern.  A changed exclusion invalidates
    /// what was gathered under the old one, so any scan state is
    /// abandoned; the statistics, messages and configuration are
    /// otherwise untouched.
    pub fn set_excluded_items(&mut self, excluded_items: String)
        requires
            old(self).wf(),
        ensures
            final(self).wf(),
            final(self).same_config(&(SimilarImages {
                excluded_items: final(self).excluded_items,
                ..*old(self)
            })),
            final(self).information == old(self).information,
            final(self).text_messages.warnings@ == old(self).text_messages.warnings@,
            final(self).text_messages.messages@ == old(self).text_messages.messages@,
            final(self).stopped_search == old(self).stopped_search,
            final(self).spec_phase() is Idle,
            final(self).spec_entries().len() == 0,
            final(self).spec_pending().len() == 0,
            final(self).current_folder is None,
            final(self).spec_buckets().len() == 0,
            final(self).spec_pairs() == Set::<(Seq<u8>, usize)>::empty(),
            final(self).spec_hashed() == 0,
            final(self).groups@.len() == 0,
            excluded_items@.len() == 0 ==> {
                &&& final(self).excluded_items@ == old(self).excluded_items@
                &&& final(self).spec_errors() == old(self).spec_errors().push(
                    "Excluded pattern must not be empty"@,
                )
            },
            excluded_items@.len() > 0 ==> {
                &&& final(self).spec_errors() == old(self).spec_errors()
                &&& final(self).excluded_items@ == old(self).excluded_items@.push(excluded_items)
            },
    {
        self.clear_scan_state();
        if excluded_items.as_str().unicode_len() == 0 {
            let ghost before = self.text_messages.errors@;
            self.text_messages.errors.push(String::from_str("Excluded pattern must not be empty"));
            proof {
                lemma_str_views_push(before, self.text_messages.errors@);
            }
            return ;
        }
        self.excluded_items.push(excluded_items);
    }

    /// Drops everything a scan in progress or a finished scan gathered.
    fn clear_scan_state(&mut self)
        requires
            old(self).wf(),
        ensures
            final(self).wf(),
            final(self).same_config(old(self)),
            final(self).information == old(self).information,
            final(self).text_messages == old(self).text_messages,
            final(self).stopped_search == old(self).stopped_search,
            final(self).spec_phase() is Idle,
            final(self).spec_entries().len() == 0,
            final(self).spec_pending().len() == 0,
            final(self).current_folder is None,
            final(self).spec_pairs() == Set::<(Seq<u8>, usize)>::empty(),
            final(self).spec_buckets().len() == 0,
            final(self).spec_hashed() == 0,
            final(self).groups@.len() == 0,
    {
        self.phase = ScanPhase::Idle;
        self.pending = Vec::new();
        self.current_folder = Option::None;
        self.entries = Vec::new();
        self.buckets = SizeBucketIndex::new();
        self.index = FingerprintIndex::new();
        self.hashed_upto = 0;
        self.groups = Vec::new();
    }

    /// Does the directory path match an excluded exact path or pattern?
    fn dir_is_excluded(&self, path: &String) -> (r: bool)
        ensures
            r == dir_excluded(self.rules(), path@),
    {
        let n = self.excluded_directories.len();
        let mut i: usize = 0;
        while i < n
            invariant
                n == self.excluded_directories@.len(),
                i <= n,
                forall|w: int| 0 <= w < i ==> (#[trigger] self.excluded_directories@[w])@ != path@,
            decreases n - i,
        {
            if str_eq(&self.excluded_directories[i], path) {
                proof {
                    assert(self.rules().excluded_dirs[i as int] == path@);
                }
                return true;
            }
            i = i + 1;
        }
        proof {
            assert forall|w: int|
                0 <= w < self.rules().excluded_dirs.len() implies #[trigger] self.rules(
            ).excluded_dirs[w] != path@ by {
                assert(self.rules().excluded_dirs[w] == (self.excluded_directories@[w])@);
            };
        }
        self.path_matches_pattern(path)
    }

    /// Does the path match any configured exclusion pattern?
    fn path_matches_pattern(&self, path: &String) -> (r: bool)
        ensures
            r == path_excluded(str_views(self.excluded_items@), path@),
    {
        let path_chars = chars_of(path.as_str());
        let n = self.excluded_items.len();
        let mut i: usize = 0;
        while i < n
            invariant
                n == self.excluded_items@.len(),
                path_chars@ == path@,
                i <= n,
                forall|w: int|
                    0 <= w < i ==> !glob_match((#[trigger] self.excluded_items@[w])@, path@),
            decreases n - i,
        {
            let pat_chars = chars_of(self.excluded_items[i].as_str());
            if glob_matches(&pat_chars, &path_chars) {
                proof {
                    assert(glob_match(str_views(self.excluded_items@)[i as int], path@));
                }
                return true;
            }
            i = i + 1;
        }
        proof {
            if path_excluded(str_views(self.excluded_items@), path@) {
                let w = choose|w: int|
                    0 <= w < str_views(self.excluded_items@).len() && glob_match(
                        #[trigger] str_views(self.excluded_items@)[w],
                        path@,
                    );
                assert(glob_match((self.excluded_items@[w])@, path@));
                assert(false);
            }
        }
        false
    }

    /// Resets the statistics and scan state and queues the included
    /// roots, leaving out any root that is itself excluded; each queued
    /// root counts as one checked folder.
    pub fn start_scan(&mut self)
        requires
            old(self).wf(),
        ensures
            final(self).wf(),
            final(self).same_config(old(self)),
            final(self).spec_phase() is Walking,
            !final(self).stopped_search,
            final(self).spec_info().number_of_checked_folders == final(self).spec_pending().len(),
            final(self).spec_info().number_of_checked_files == 0,
            final(self).spec_info().number_of_ignored_files == 0,
            final(self).spec_info().number_of_ignored_things == 0,
            final(self).spec_info().number_of_duplicated_files_by_size == 0,
            final(self).spec_info().number_of_groups_by_size == 0,
            final(self).spec_info().lost_space_by_size == 0,
            final(self).spec_pending() == kept_roots(
                final(self).rules(),
                str_views(old(self).included_directories@),
            ),
            final(self).spec_entries().len() == 0,
            final(self).spec_buckets().len() == 0,
            final(self).spec_pairs() == Set::<(Seq<u8>, usize)>::empty(),
            final(self).spec_hashed() == 0,
            final(self).groups@.len() == 0,
            final(self).current_folder is None,
            final(self).text_messages == old(self).text_messages,
    {
        self.clear_scan_state();
        self.information = Info::new();
        self.stopped_search = false;
        let mut queued: Vec<String> = Vec::new();
        let n = self.included_directories.len();
        let mut i: usize = 0;
        while i < n
            invariant
                self.wf(),
                n == self.included_directories@.len(),
                i <= n,
                str_views(queued@) == kept_roots(
                    self.rules(),
                    str_views(self.included_directories@.subrange(0, i as int)),
                ),
                forall|w: int|
                    0 <= w < queued@.len() ==> !dir_excluded(
                        self.rules(),
                        (#[trigger] queued@[w])@,
                    ),
            decreases n - i,
        {
            let root = self.included_directories[i].clone();
            let skip_root = self.dir_is_excluded(&root);
            proof {
                let pre = str_views(self.included_directories@.subrange(0, i as int));
                let cur = str_views(self.included_directories@.subrange(0, i + 1 as int));
                assert(cur.drop_last() =~= pre) by {
                    assert(self.included_directories@.subrange(0, i + 1 as int).drop_last()
                        =~= self.included_directories@.subrange(0, i as int));
                };
                assert(cur.last() == (self.included_directories@[i as int])@);
            }
            if !skip_root {
                queued.push(root);
                proof {
                    lemma_str_views_push(queued@.drop_last(), queued@);
                    assert(str_views(queued@) =~= kept_roots(
                        self.rules(),
                        str_views(self.included_directories@.subrange(0, i + 1 as int)),
                    ));
                }
            } else {
                proof {
                    assert(str_views(queued@) =~= kept_roots(
                        self.rules(),
                        str_views(self.included_directories@.subrange(0, i + 1 as int)),
                    ));
                }
            }
            i = i + 1;
        }
        proof {
            assert(self.included_directories@.subrange(0, n as int)
                =~= self.included_directories@);
        }
        let root_count = queued.len();
        self.pending = queued;
        self.information.number_of_checked_folders = root_count;
        self.phase = ScanPhase::Walking;
    }
}

/// Two configurations that agree on the excluded directories and the
/// patterns exclude exactly the same paths.
proof fn lemma_same_exclusions(r1: ScanRules, r2: ScanRules, p: Seq<char>)
    requires
        r1.excluded_dirs == r2.excluded_dirs,
        r1.patterns == r2.patterns,
    ensures
        dir_excluded(r1, p) == dir_excluded(r2, p),
{
    if exists|i: int| 0 <= i < r1.excluded_dirs.len() && #[trigger] r1.excluded_dirs[i] == p {
        let i = choose|i: int| 0 <= i < r1.excluded_dirs.len() && #[trigger] r1.excluded_dirs[i]
            == p;
        assert(r2.excluded_dirs[i] == p);
    }
    if exists|i: int| 0 <= i < r2.excluded_dirs.len() && #[trigger] r2.excluded_dirs[i] == p {
        let i = choose|i: int| 0 <= i < r2.excluded_dirs.len() && #[trigger] r2.excluded_dirs[i]
            == p;
        assert(r1.excluded_dirs[i] == p);
    }
}

/// The path with a trailing separator added when it lacks one.
pub open spec fn normalized_dir(p: Seq<char>) -> Seq<char> {
    if p.len() > 0 && p.last() == '/' {
        p
    } else {
        p + "/"@
    }
}

/// Normalises a directory path to end in a separator.
fn normalize_dir(p: String) -> (r: String)
    ensures
        r@ == normalized_dir(p@),
{
    let n = p.as_str().unicode_len();
    if n > 0 && p.as_str().get_char(n - 1) == '/' {
        p
    } else {
        p.concat("/")
    }
}

/// Pushing a string onto a vector extends its views by that string's view.
proof fn lemma_str_views_push(before: Seq<String>, after: Seq<String>)
    requires
        after.len() == before.len() + 1,
        forall|w: int| 0 <= w < before.len() ==> after[w] == before[w],
    ensures
        str_views(after) == str_views(before).push(after.last()@),
{
    assert(str_views(after) =~= str_views(before).push(after.last()@)) by {
        assert forall|w: int| 0 <= w < before.len() implies str_views(after)[w] == str_views(
            before,
        )[w] by {
            assert(after[w] == before[w]);
        };
    };
}


impl SimilarImages {
    /// The directory handed out and awaiting its listing.
    pub open spec fn spec_current(&self) -> Seq<char> {
        match self.current_folder {
            Option::Some(d) => d@,
            Option::None => Seq::empty(),
        }
    }

    /// Does the file name pass the allowed-extension filter?
    fn extension_ok(&self, name: &String) -> (r: bool)
        ensures
            r == extension_allowed(str_views(self.allowed_extensions@), name@),
    {
        let n = self.allowed_extensions.len();
        if n == 0 {
            return true;
        }
        let name_chars = chars_of(name.as_str());
        let mut i: usize = 0;
        while i < n
            invariant
                n == self.allowed_extensions@.len(),
                name_chars@ == name@,
                i <= n,
                forall|w: int|
                    0 <= w < i ==> !ext_matches(name@, (#[trigger] self.allowed_extensions@[w])@),
            decreases n - i,
        {
            let ext_chars = chars_of(self.allowed_extensions[i].as_str());
            if ext_match_exec(&name_chars, &ext_chars) {
                proof {
                    assert(ext_matches(name@, str_views(self.allowed_extensions@)[i as int]));
                }
                return true;
            }
            i = i + 1;
        }
        proof {
            if extension_allowed(str_views(self.allowed_extensions@), name@) {
                let w = choose|w: int|
                    0 <= w < str_views(self.allowed_extensions@).len() && ext_matches(
                        name@,
                        #[trigger] str_views(self.allowed_extensions@)[w],
                    );
                assert(ext_matches(name@, (self.allowed_extensions@[w])@));
                assert(false);
            }
        }
        false
    }

    /// One step of the walk.  The cancellation signal is polled first: if
    /// it has fired, the partial results are discarded and the scan
    /// reports `Stopped`.  Otherwise the next pending directory is handed
    /// out, or — when none is left — the size buckets are pruned, the
    /// duplicate statistics are accumulated, and the walk ends.
    pub fn scan_step(&mut self, rx: Option<&crossbeam_channel::Receiver<()>>) -> (r: ScanStep)
        requires
            old(self).wf(),
            old(self).spec_phase() is Walking,
        ensures
            final(self).wf(),
            final(self).same_config(old(self)),
            match r {
                ScanStep::Stopped => {
                    &&& rx is Some
                    &&& final(self).spec_phase() is Stopped
                    &&& final(self).stopped_search
                    &&& final(self).spec_info().is_reset()
                    &&& final(self).spec_entries().len() == 0
                    &&& final(self).spec_pending().len() == 0
                    &&& final(self).spec_buckets().len() == 0
                    &&& final(self).spec_pairs() == Set::<(Seq<u8>, usize)>::empty()
                    &&& final(self).groups@.len() == 0
                    &&& final(self).text_messages == old(self).text_messages
                },
                ScanStep::WalkDone => {
                    &&& old(self).spec_pending().len() == 0
                    &&& final(self).spec_phase() is Hashing
                    &&& final(self).stopped_search == old(self).stopped_search
                    &&& final(self).spec_entries() == old(self).spec_entries()
                    &&& final(self).spec_buckets() == retained(old(self).spec_buckets())
                    &&& forall|w: int|
                        0 <= w < final(self).spec_buckets().len()
                            ==> (#[trigger] final(self).spec_buckets()[w]).1.len() >= 2
                    &&& final(self).spec_info().number_of_duplicated_files_by_size == capped(
                        old(self).spec_info().number_of_duplicated_files_by_size + dup_count(
                            old(self).spec_buckets(),
                        ),
                    )
                    &&& final(self).spec_info().number_of_groups_by_size == capped(
                        old(self).spec_info().number_of_groups_by_size + group_count(
                            old(self).spec_buckets(),
                        ),
                    )
                    &&& final(self).spec_info().lost_space_by_size == capped(
                        old(self).spec_info().lost_space_by_size + lost_space(
                            old(self).spec_buckets(),
                        ),
                    )
                    &&& final(self).spec_info().number_of_checked_folders == old(
                        self,
                    ).spec_info().number_of_checked_folders
                    &&& final(self).spec_info().number_of_checked_files == old(
                        self,
                    ).spec_info().number_of_checked_files
                    &&& final(self).spec_info().number_of_ignored_files == old(
                        self,
                    ).spec_info().number_of_ignored_files
                    &&& final(self).spec_info().number_of_ignored_things == old(
                        self,
                    ).spec_info().number_of_ignored_things
                    &&& final(self).text_messages == old(self).text_messages
                    &&& final(self).spec_pairs() == old(self).spec_pairs()
                    &&& final(self).spec_hashed() == old(self).spec_hashed()
                },
                ScanStep::ReadDir(d) => {
                    &&& old(self).spec_pending().len() > 0
                    &&& d@ == old(self).spec_pending().last()
                    &&& !dir_excluded(old(self).rules(), d@)
                    &&& final(self).spec_pending() == old(self).spec_pending().drop_last()
                    &&& final(self).spec_phase() is AwaitingDir
                    &&& final(self).current_folder is Some
                    &&& final(self).spec_current() == d@
                    &&& final(self).stopped_search == old(self).stopped_search
                    &&& final(self).spec_info() == old(self).spec_info()
                    &&& final(self).spec_entries() == old(self).spec_entries()
                    &&& final(self).spec_buckets() == old(self).spec_buckets()
                    &&& final(self).text_messages == old(self).text_messages
                    &&& final(self).spec_pairs() == old(self).spec_pairs()
                    &&& final(self).spec_hashed() == old(self).spec_hashed()
                },
            },
    {
        let fired = match rx {
            Option::Some(r) => poll_fired(r),
            Option::None => false,
        };
        if fired {
            // A stopped scan is not trusted: whatever was gathered so far
            // is discarded, and the statistics return to their reset state.
            self.clear_scan_state();
            self.information = Info::new();
            self.stopped_search = true;
            self.phase = ScanPhase::Stopped;
            return ScanStep::Stopped;
        }
        if self.pending.len() == 0 {
            let stats = self.buckets.prune();
            let info_dup = self.information.number_of_duplicated_files_by_size;
            self.information.number_of_duplicated_files_by_size = sat_add(info_dup, stats.0);
            let info_groups = self.information.number_of_groups_by_size;
            self.information.number_of_groups_by_size = sat_add(info_groups, stats.1);
            let info_lost = self.information.lost_space_by_size;
            self.information.lost_space_by_size = sat_add(info_lost, stats.2);
            self.phase = ScanPhase::Hashing;
            proof {
                assert(str_views(self.pending@).len() == 0);
            }
            return ScanStep::WalkDone;
        }
        let ghost pend0 = str_views(self.pending@);
        match self.pending.pop() {
            Option::Some(d) => {
                proof {
                    assert((old(self).pending@[old(self).pending@.len() - 1])@ == d@);
                    assert(!dir_excluded(self.rules(), d@));
                    assert(str_views(self.pending@) =~= pend0.drop_last()) by {
                        assert forall|w: int|
                            0 <= w < self.pending@.len() implies str_views(self.pending@)[w]
                            == pend0.drop_last()[w] by {
                            assert(self.pending@[w] == old(self).pending@[w]);
                        };
                    };
                }
                self.current_folder = Option::Some(d.clone());
                self.phase = ScanPhase::AwaitingDir;
                ScanStep::ReadDir(d)
            },
            Option::None => {
                proof {
                    assert(false);
                }
                ScanStep::WalkDone
            },
        }
    }
}


/// Pushing an entry onto the entry vector extends its views by that
/// entry's view.
proof fn lemma_entry_views_push(before: Seq<FileEntry>, after: Seq<FileEntry>)
    requires
        after.len() == before.len() + 1,
        forall|w: int| 0 <= w < before.len() ==> after[w] == before[w],
    ensures
        entry_views(after) == entry_views(before).push(
            (after.last().path@, after.last().size, after.last().modified_date),
        ),
{
    assert(entry_views(after) =~= entry_views(before).push(
        (after.last().path@, after.last().size, after.last().modified_date),
    )) by {
        assert forall|w: int| 0 <= w < before.len() implies entry_views(after)[w] == entry_views(
            before,
        )[w] by {
            assert(after[w] == before[w]);
        };
    };
}

impl SimilarImages {
    /// Digests the listing of the directory handed out by the last
    /// `scan_step`.  An unreadable directory leaves one warning and
    /// nothing else; otherwise every observed entry is classified exactly
    /// as `listing_effect` describes: subdirectories are queued unless
    /// excluded, eligible files become entries and are filed into the
    /// size buckets, and the counters and warnings advance accordingly.
    pub fn feed_directory(&mut self, listing: DirListing)
        requires
            old(self).wf(),
            old(self).spec_phase() is AwaitingDir,
            old(self).current_folder is Some,
        ensures
            final(self).wf(),
            final(self).same_config(old(self)),
            final(self).spec_phase() is Walking,
            final(self).current_folder is None,
            final(self).stopped_search == old(self).stopped_search,
            final(self).spec_errors() == old(self).spec_errors(),
            final(self).spec_pairs() == old(self).spec_pairs(),
            final(self).spec_hashed() == old(self).spec_hashed(),
            match listing {
                DirListing::Unreadable => {
                    &&& final(self).spec_warnings() == old(self).spec_warnings().push(
                        warn_cannot_open(old(self).spec_current()),
                    )
                    &&& final(self).spec_pending() == old(self).spec_pending()
                    &&& final(self).spec_entries() == old(self).spec_entries()
                    &&& final(self).spec_buckets() == old(self).spec_buckets()
                    &&& final(self).spec_info() == old(self).spec_info()
                },
                DirListing::Entries(v) => {
                    let eff = listing_effect(old(self).rules(), old(self).spec_current(), v@);
                    &&& final(self).spec_pending() == old(self).spec_pending() + eff.pending
                    &&& final(self).spec_entries() == old(self).spec_entries() + eff.entries
                    &&& final(self).spec_warnings() == old(self).spec_warnings() + eff.warnings
                    &&& final(self).spec_buckets() == buckets_fold(
                        old(self).spec_buckets(),
                        old(self).spec_entries().len() as int,
                        eff.entries,
                    )
                    &&& final(self).spec_info().number_of_checked_folders == capped_usize(
                        old(self).spec_info().number_of_checked_folders + eff.folders,
                    )
                    &&& final(self).spec_info().number_of_checked_files == capped_usize(
                        old(self).spec_info().number_of_checked_files + eff.files,
                    )
                    &&& final(self).spec_info().number_of_ignored_files == capped_usize(
                        old(self).spec_info().number_of_ignored_files + eff.ignored,
                    )
                    &&& final(self).spec_info().number_of_ignored_things == capped_usize(
                        old(self).spec_info().number_of_ignored_things + eff.other,
                    )
                    &&& final(self).spec_info().number_of_duplicated_files_by_size == old(
                        self,
                    ).spec_info().number_of_duplicated_files_by_size
                    &&& final(self).spec_info().number_of_groups_by_size == old(
                        self,
                    ).spec_info().number_of_groups_by_size
                    &&& final(self).spec_info().lost_space_by_size == old(
                        self,
                    ).spec_info().lost_space_by_size
                },
            },
    {
        let ghost r0 = old(self).rules();
        let folder: String = match &self.current_folder {
            Option::Some(d) => d.clone(),
            Option::None => {
                proof {
                    assert(false);
                }
                String::new()
            },
        };
        self.current_folder = Option::None;
        self.phase = ScanPhase::Walking;
        match listing {
            DirListing::Unreadable => {
                let ghost warn0 = self.text_messages.warnings@;
                let msg = String::from_str("Cannot open dir ").concat(folder.as_str());
                self.text_messages.warnings.push(msg);
                proof {
                    lemma_str_views_push(warn0, self.text_messages.warnings@);
                }
            },
            DirListing::Entries(v) => {
                let ghost cur = folder@;
                let ghost pend0 = str_views(self.pending@);
                let ghost ent0 = entry_views(self.entries@);
                let ghost warn0 = str_views(self.text_messages.warnings@);
                let ghost buck0 = self.buckets.view_of();
                let ghost base = self.entries@.len() as int;
                let ghost info0 = self.information;
                let n = v.len();
                let mut w: usize = 0;
                while w < n
                    invariant
                        self.wf(),
                        self.same_config(old(self)),
                        self.rules() == r0,
                        self.phase is Walking,
                        self.current_folder is None,
                        self.stopped_search == old(self).stopped_search,
                        str_views(self.text_messages.errors@) == old(self).spec_errors(),
                        self.index == old(self).index,
                        self.hashed_upto == old(self).hashed_upto,
                        self.groups == old(self).groups,
                        folder@ == cur,
                        n == v@.len(),
                        w <= n,
                        0 <= base,
                        ({
                            let eff = listing_effect(r0, cur, v@.subrange(0, w as int));
                            &&& str_views(self.pending@) == pend0 + eff.pending
                            &&& entry_views(self.entries@) == ent0 + eff.entries
                            &&& str_views(self.text_messages.warnings@) == warn0 + eff.warnings
                            &&& self.buckets.view_of() == buckets_fold(buck0, base, eff.entries)
                            &&& base + eff.entries.len() == self.entries@.len()
                            &&& self.information.number_of_checked_folders == capped_usize(
                                info0.number_of_checked_folders + eff.folders,
                            )
                            &&& self.information.number_of_checked_files == capped_usize(
                                info0.number_of_checked_files + eff.files,
                            )
                            &&& self.information.number_of_ignored_files == capped_usize(
                                info0.number_of_ignored_files + eff.ignored,
                            )
                            &&& self.information.number_of_ignored_things == capped_usize(
                                info0.number_of_ignored_things + eff.other,
                            )
                            &&& self.information.number_of_duplicated_files_by_size
                                == info0.number_of_duplicated_files_by_size
                            &&& self.information.number_of_groups_by_size
                                == info0.number_of_groups_by_size
                            &&& self.information.lost_space_by_size == info0.lost_space_by_size
                        }),
                    decreases n - w,
                {
                    proof {
                        let pre = v@.subrange(0, w as int);
                        let now = v@.subrange(0, w + 1 as int);
                        assert(now.drop_last() =~= pre);
                        assert(now.last() == v@[w as int]);
                    }
                    let ghost eff_pre = listing_effect(r0, cur, v@.subrange(0, w as int));
                    let ghost e_eff = entry_effect(r0, cur, v@[w as int]);
                    let entry = &v[w];
                    let inaccessible = match entry.kind {
                        EntryKind::Inaccessible => true,
                        _ => false,
                    };
                    if inaccessible {
                        let ghost warn_pre = self.text_messages.warnings@;
                        let msg = String::from_str("Cannot read entry in dir ").concat(
                            folder.as_str(),
                        );
                        self.text_messages.warnings.push(msg);
                        proof {
                            lemma_str_views_push(warn_pre, self.text_messages.warnings@);
                            assert(e_eff.warnings =~= seq![warn_cannot_read_entry(cur)]);
                            assert(str_views(self.text_messages.warnings@) =~= warn0 + (
                            eff_pre.warnings + e_eff.warnings));
                            lemma_effect_parts(eff_pre, e_eff);
                        }
                    } else {
                    match &entry.name {
                        Option::None => {
                            proof {
                                assert(e_eff == empty_effect());
                                lemma_effect_parts(eff_pre, e_eff);
                            }
                        },
                        Option::Some(name) => {
                            match entry.kind {
                                EntryKind::Folder => {
                                    let mut full = folder.clone();
                                    full.append(name.as_str());
                                    full.append("/");
                                    proof {
                                        assert(full@ == cur + name@ + "/"@);
                                    }
                    if self.dir_is_excluded(&full) {
                                        proof {
                                            assert(e_eff == empty_effect());
                                            lemma_effect_parts(eff_pre, e_eff);
                                        }
                                    } else {
                                        let ghost fullv = full@;
                                        let folders0 =
                                            self.information.number_of_checked_folders;
                                        self.information.number_of_checked_folders =
                                            sat_add_usize(folders0, 1);
                                        if self.recursive_search {
                                            let ghost pend_pre = self.pending@;
                                            self.pending.push(full);
                                            proof {
                                                lemma_str_views_push(pend_pre, self.pending@);
                                                assert(e_eff.pending =~= seq![fullv]);
                                                assert(str_views(self.pending@) =~= pend0 + (
                                                eff_pre.pending + e_eff.pending));
                                                assert forall|t: int|
                                                    0 <= t < self.pending@.len() implies
                                                    !dir_excluded(
                                                    self.rules(),
                                                    (#[trigger] self.pending@[t])@,
                                                ) by {
                                                    if t < pend_pre.len() {
                                                        assert(self.pending@[t] == pend_pre[t]);
                                                    }
                                                };
                                            }
                                        } else {
                                            proof {
                                                assert(e_eff.pending
                                                    =~= Seq::<Seq<char>>::empty());
                                                assert(pend0 + (eff_pre.pending + e_eff.pending)
                                                    =~= pend0 + eff_pre.pending);
                                            }
                                        }
                                        proof {
                                            lemma_effect_parts(eff_pre, e_eff);
                                        }
                                    }
                                },
                                EntryKind::Regular => {
                    if !self.extension_ok(name) {
                                        let ign0 = self.information.number_of_ignored_files;
                                        self.information.number_of_ignored_files = sat_add_usize(
                                            ign0,
                                            1,
                                        );
                                        proof {
                                            lemma_effect_parts(eff_pre, e_eff);
                                        }
                                    } else if entry.size < self.minimal_file_size {
                                        let ign0 = self.information.number_of_ignored_files;
                                        self.information.number_of_ignored_files = sat_add_usize(
                                            ign0,
                                            1,
                                        );
                                        proof {
                                            lemma_effect_parts(eff_pre, e_eff);
                                        }
                                    } else {
                                        let mut full = folder.clone();
                                        full.append(name.as_str());
                                        proof {
                                            assert(full@ == cur + name@);
                                        }
                                        if self.path_matches_pattern(&full) {
                                            proof {
                                                assert(e_eff == empty_effect());
                                                lemma_effect_parts(eff_pre, e_eff);
                                            }
                                        } else {
                                            let ghost fullv = full@;
                                            match entry.modified {
                                                ModifiedTime::Unavailable => {
                                                    let ghost warn_pre =
                                                        self.text_messages.warnings@;
                                                    let msg = String::from_str(
                                                        "Unable to get modification date from file ",
                                                    ).concat(full.as_str());
                                                    self.text_messages.warnings.push(msg);
                                                    proof {
                                                        lemma_str_views_push(
                                                            warn_pre,
                                                            self.text_messages.warnings@,
                                                        );
                                                        assert(e_eff.warnings =~= seq![
                                                            warn_no_modification_date(fullv),
                                                        ]);
                                                        assert(str_views(
                                                            self.text_messages.warnings@,
                                                        ) =~= warn0 + (eff_pre.warnings
                                                            + e_eff.warnings));
                                                        lemma_effect_parts(eff_pre, e_eff);
                                                    }
                                                },
                                                ModifiedTime::BeforeEpoch => {
                                                    let ghost warn_pre =
                                                        self.text_messages.warnings@;
                                                    let msg = String::from_str(
                                                        "File modified before Unix Epoch: ",
                                                    ).concat(full.as_str());
                                                    self.text_messages.warnings.push(msg);
                                                    proof {
                                                        lemma_str_views_push(
                                                            warn_pre,
                                                            self.text_messages.warnings@,
                                                        );
                                                        assert(e_eff.warnings =~= seq![
                                                            warn_before_epoch(fullv),
                                                        ]);
                                                        assert(str_views(
                                                            self.text_messages.warnings@,
                                                        ) =~= warn0 + (eff_pre.warnings
                                                            + e_eff.warnings));
                                                    }
                                                    let ghost sz = entry.size;
                                                    let count_now = self.entries.len();
                                                    proof {
                                                        assert(base + eff_pre.entries.len()
                                                            == count_now as int);
                                                        assert(entry_views(self.entries@).len()
                                                            == self.entries@.len());
                                                        assert(ent0.len() == base);
                                                    }
                                                    self.record_entry(full, entry.size, 0);
                                                    proof {
                                                        lemma_record_step(
                                                            ent0,
                                                            buck0,
                                                            base,
                                                            eff_pre,
                                                            e_eff,
                                                            (fullv, sz, 0u64),
                                                            entry_views(self.entries@),
                                                            self.buckets.view_of(),
                                                        );
                                                        lemma_effect_parts(eff_pre, e_eff);
                                                    }
                                                },
                                                ModifiedTime::At(t) => {
                                                    let ghost sz = entry.size;
                                                    let count_now = self.entries.len();
                                                    proof {
                                                        assert(base + eff_pre.entries.len()
                                                            == count_now as int);
                                                        assert(entry_views(self.entries@).len()
                                                            == self.entries@.len());
                                                        assert(ent0.len() == base);
                                                    }
                                                    self.record_entry(full, entry.size, t);
                                                    proof {
                                                        lemma_record_step(
                                                            ent0,
                                                            buck0,
                                                            base,
                                                            eff_pre,
                                                            e_eff,
                                                            (fullv, sz, t),
                                                            entry_views(self.entries@),
                                                            self.buckets.view_of(),
                                                        );
                                                        lemma_effect_parts(eff_pre, e_eff);
                                                    }
                                                },
                                            }
                                        }
                                    }
                                },
                                EntryKind::Other => {
                                    let ign0 = self.information.number_of_ignored_things;
                                    self.information.number_of_ignored_things = sat_add_usize(
                                        ign0,
                                        1,
                                    );
                                    proof {
                                        lemma_effect_parts(eff_pre, e_eff);
                                    }
                                },
                                EntryKind::Inaccessible => {
                                    proof {
                                        assert(false);
                                    }
                                },
                            }
                        },
                    }
                    }
                    w = w + 1;
                }
                proof {
                    assert(v@.subrange(0, n as int) =~= v@);
                }
            },
        }
    }

    /// Appends one eligible file entry and files it into the size
    /// buckets.
    fn record_entry(&mut self, path: String, size: u64, modified_date: u64)
        requires
            old(self).wf(),
            !path_excluded(str_views(old(self).excluded_items@), path@),
        ensures
            final(self).wf(),
            *final(self) == (SimilarImages {
                entries: final(self).entries,
                buckets: final(self).buckets,
                information: final(self).information,
                ..*old(self)
            }),
            entry_views(final(self).entries@) == entry_views(old(self).entries@).push(
                (path@, size, modified_date),
            ),
            final(self).buckets.view_of() == bucket_insert(
                old(self).buckets.view_of(),
                size,
                old(self).entries@.len() as usize,
            ),
            final(self).information == (Info {
                number_of_checked_files: final(self).information.number_of_checked_files,
                ..old(self).information
            }),
            final(self).information.number_of_checked_files == capped_usize(
                old(self).information.number_of_checked_files + 1,
            ),
    {
        let ghost ent_pre = self.entries@;
        let idx = self.entries.len();
        self.entries.push(FileEntry { path, size, modified_date });
        self.buckets.insert(size, idx);
        let files0 = self.information.number_of_checked_files;
        self.information.number_of_checked_files = sat_add_usize(files0, 1);
        proof {
            lemma_entry_views_push(ent_pre, self.entries@);
            assert forall|p: (Seq<u8>, usize)| #[trigger]
                self.index.pairs().contains(p) implies p.1 < self.entries@.len() by {
                assert(old(self).index.pairs().contains(p));
            };
            assert forall|i: int| 0 <= i < self.entries@.len() implies !path_excluded(
                str_views(self.excluded_items@),
                (#[trigger] self.entries@[i]).path@,
            ) by {
                if i < ent_pre.len() {
                    assert(self.entries@[i] == ent_pre[i]);
                }
            };
        }
    }
}

/// Recording one eligible file advances the entry views and the bucket
/// fold by exactly that file.
proof fn lemma_record_step(
    ent0: Seq<(Seq<char>, u64, u64)>,
    buck0: Seq<(u64, Seq<usize>)>,
    base: int,
    pre: StepEffect,
    e: StepEffect,
    x: (Seq<char>, u64, u64),
    ents_now: Seq<(Seq<char>, u64, u64)>,
    bucks_now: Seq<(u64, Seq<usize>)>,
)
    requires
        e.entries == seq![x],
        ents_now == (ent0 + pre.entries).push(x),
        0 <= base,
        base == ent0.len(),
        base + pre.entries.len() <= usize::MAX,
        bucks_now == bucket_insert(
            buckets_fold(buck0, base, pre.entries),
            x.1,
            (base + pre.entries.len()) as usize,
        ),
    ensures
        ents_now == ent0 + effect_concat(pre, e).entries,
        bucks_now == buckets_fold(buck0, base, effect_concat(pre, e).entries),
        base + effect_concat(pre, e).entries.len() == ents_now.len(),
{
    let es = pre.entries + e.entries;
    assert(es.drop_last() =~= pre.entries);
    assert(es.last() == x);
    assert(ents_now =~= ent0 + es);
    assert(effect_concat(pre, e).entries == es);
    assert(buckets_fold(buck0, base, es) == bucket_insert(
        buckets_fold(buck0, base, es.drop_last()),
        es.last().1,
        (base + es.len() - 1) as usize,
    ));
    assert(buckets_fold(buck0, base, es.drop_last()) == buckets_fold(buck0, base, pre.entries));
    assert((base + es.len() - 1) as usize == (base + pre.entries.len()) as usize);
    assert(bucks_now == buckets_fold(buck0, base, es));
}

/// Components of an entry effect that are empty leave the corresponding
/// component of the combined effect unchanged.
proof fn lemma_effect_parts(pre: StepEffect, e: StepEffect)
    ensures
        e.pending.len() == 0 ==> effect_concat(pre, e).pending == pre.pending,
        e.entries.len() == 0 ==> effect_concat(pre, e).entries == pre.entries,
        e.warnings.len() == 0 ==> effect_concat(pre, e).warnings == pre.warnings,
{
    if e.pending.len() == 0 {
        assert(pre.pending + e.pending =~= pre.pending);
    }
    if e.entries.len() == 0 {
        assert(pre.entries + e.entries =~= pre.entries);
    }
    if e.warnings.len() == 0 {
        assert(pre.warnings + e.warnings =~= pre.warnings);
    }
}


impl SimilarImages {
    /// The path of the next entry awaiting its fingerprint, if any.
    pub fn next_hash_target(&self) -> (r: Option<String>)
        requires
            self.wf(),
            self.spec_phase() is Hashing,
        ensures
            match r {
                Option::Some(p) => self.spec_hashed() < self.spec_entries().len() && p@
                    == self.spec_entries()[self.spec_hashed()].0,
                Option::None => self.spec_hashed() == self.spec_entries().len(),
            },
    {
        if self.hashed_upto < self.entries.len() {
            Option::Some(self.entries[self.hashed_upto].path.clone())
        } else {
            Option::None
        }
    }

    /// Takes the externally computed fingerprint of the entry under the
    /// cursor.  A failed or malformed fingerprint leaves a warning and
    /// keeps the file out of the index; a well-formed key is indexed with
    /// the entry as its owner.  The cursor advances either way.
    pub fn feed_fingerprint(&mut self, outcome: FingerprintOutcome)
        requires
            old(self).wf(),
            old(self).spec_phase() is Hashing,
            old(self).spec_hashed() < old(self).spec_entries().len(),
        ensures
            final(self).wf(),
            final(self).same_config(old(self)),
            final(self).spec_phase() is Hashing,
            final(self).spec_hashed() == old(self).spec_hashed() + 1,
            final(self).spec_entries() == old(self).spec_entries(),
            final(self).spec_buckets() == old(self).spec_buckets(),
            final(self).spec_pending() == old(self).spec_pending(),
            final(self).spec_errors() == old(self).spec_errors(),
            final(self).stopped_search == old(self).stopped_search,
            final(self).spec_info() == old(self).spec_info(),
            match outcome {
                FingerprintOutcome::Failed => {
                    &&& final(self).spec_pairs() == old(self).spec_pairs()
                    &&& final(self).spec_warnings() == old(self).spec_warnings().push(
                        warn_fingerprint_failed(old(self).spec_entries()[old(self).spec_hashed()].0),
                    )
                },
                FingerprintOutcome::Key(k) => {
                    if k@.len() <= KEY_LEN_LIMIT {
                        &&& final(self).spec_pairs() == old(self).spec_pairs().insert(
                            (k@, old(self).hashed_upto),
                        )
                        &&& final(self).spec_warnings() == old(self).spec_warnings()
                    } else {
                        &&& final(self).spec_pairs() == old(self).spec_pairs()
                        &&& final(self).spec_warnings() == old(self).spec_warnings().push(
                            warn_malformed_fingerprint(
                                old(self).spec_entries()[old(self).spec_hashed()].0,
                            ),
                        )
                    }
                },
            },
    {
        let total = self.entries.len();
        let idx = self.hashed_upto;
        proof {
            assert(entry_views(self.entries@).len() == self.entries@.len());
            assert(idx < total);
        }
        match outcome {
            FingerprintOutcome::Failed => {
                let ghost warn0 = self.text_messages.warnings@;
                let msg = String::from_str("Unable to compute fingerprint of file ").concat(
                    self.entries[idx].path.as_str(),
                );
                self.text_messages.warnings.push(msg);
                proof {
                    lemma_str_views_push(warn0, self.text_messages.warnings@);
                }
            },
            FingerprintOutcome::Key(k) => {
                if k.len() <= KEY_LEN_LIMIT {
                    self.index.insert(k, idx);
                    proof {
                        assert forall|p: (Seq<u8>, usize)| #[trigger]
                            self.index.pairs().contains(p) implies p.1
                            < self.entries@.len() by {
                            if p.1 != idx {
                                assert(old(self).index.pairs().contains(p));
                            }
                        };
                    }
                } else {
                    let ghost warn0 = self.text_messages.warnings@;
                    let msg = String::from_str("Malformed fingerprint for file ").concat(
                        self.entries[idx].path.as_str(),
                    );
                    self.text_messages.warnings.push(msg);
                    proof {
                        lemma_str_views_push(warn0, self.text_messages.warnings@);
                    }
                }
            },
        }
        self.hashed_upto = idx + 1;
    }

    /// Ends the scan once every entry's fingerprint has been taken:
    /// builds the groups of similar files at the configured radius.
    pub fn finish_scan(&mut self)
        requires
            old(self).wf(),
            old(self).spec_phase() is Hashing,
            old(self).spec_hashed() == old(self).spec_entries().len(),
        ensures
            final(self).wf(),
            final(self).same_config(old(self)),
            final(self).spec_phase() is Done,
            final(self).stopped_search == old(self).stopped_search,
            final(self).spec_entries() == old(self).spec_entries(),
            final(self).spec_buckets() == old(self).spec_buckets(),
            final(self).spec_pairs() == old(self).spec_pairs(),
            final(self).spec_info() == old(self).spec_info(),
            final(self).text_messages == old(self).text_messages,
            ({
                let gs = groups_from(
                    old(self).index.nodes@,
                    old(self).similarity_radius,
                    0,
                    Seq::new(old(self).index.nodes@.len(), |m: int| false),
                );
                &&& final(self).groups@.len() == gs.len()
                &&& forall|t: int|
                    0 <= t < gs.len() ==> (#[trigger] final(self).groups@[t]).representative@
                        == gs[t].0 && final(self).groups@[t].owners@ == gs[t].1
            }),
    {
        self.groups = self.index.build_groups(self.similarity_radius);
        self.phase = ScanPhase::Done;
    }
}

impl Default for SimilarImages {
    /// The default engine is exactly a fresh one.
    fn default() -> (r: Self)
        ensures
            r.wf(),
            r.spec_phase() is Idle,
            r.spec_info().is_reset(),
            r.spec_warnings().len() == 0,
            r.spec_errors().len() == 0,
            r.included_directories@.len() == 0,
            r.excluded_directories@.len() == 0,
            r.excluded_items@.len() == 0,
            r.allowed_extensions@.len() == 0,
            r.minimal_file_size == 0,
            r.spec_radius() == 0,
            r.recursive_search == true,
            r.spec_entries().len() == 0,
            r.spec_pairs() == Set::<(Seq<u8>, usize)>::empty(),
            r.spec_pending().len() == 0,
            r.current_folder is None,
            r.spec_buckets().len() == 0,
            r.spec_hashed() == 0,
            r.groups@.len() == 0,
            r.text_messages.messages@.len() == 0,
            !r.stopped_search,
    {
        SimilarImages::new()
    }
}


/// Exclusion correctness: in every well-formed engine state, no gathered
/// file entry's path matches an exclusion pattern, and no pending or
/// handed-out directory is excluded, by exact path or by pattern.  Since
/// buckets and groups refer to files only through entry indices, an
/// excluded file can appear in no bucket and no group.
pub proof fn lemma_exclusions_respected(s: &SimilarImages)
    requires
        s.wf(),
    ensures
        forall|i: int|
            0 <= i < s.entries@.len() ==> !path_excluded(
                str_views(s.excluded_items@),
                (#[trigger] s.entries@[i]).path@,
            ),
        forall|i: int|
            0 <= i < s.pending@.len() ==> !dir_excluded(s.rules(), (#[trigger] s.pending@[i])@),
        s.current_folder is Some ==> !dir_excluded(s.rules(), s.spec_current()),
{
}

} // verus!
