//! Taking recordings in: which files to read, and what to keep of each.
use vstd::prelude::*;

use crate::config::{IngestConfig, PathsConfig};
use crate::paths::{
    file_name, name_of_path, relative_path, relative_to, the_name_stands_behind_the_last_slash,
};
use crate::text::{push_text, same_text, texts};
use crate::ts::airtime::{date_text, AirDateTime};
use crate::ts::epg::EpgInfo;
use crate::ts::title::text_opt;

verus! {

// ---------------------------------------------------------------------- titles

/// The text in Unicode's normalization form KC.
pub uninterp spec fn nfkc_text(s: Seq<char>) -> Seq<char>;

/// The text in small letters.
pub uninterp spec fn lowercase_text(s: Seq<char>) -> Seq<char>;

/// `unicode_normalization::UnicodeNormalization::nfkc`: the text in Unicode's
/// normalization form KC, which depends on the text alone.
#[verifier::external_body]
fn nfkc(s: &str) -> (t: String)
    ensures
        t@ == nfkc_text(s@),
{
    unicode_normalization::UnicodeNormalization::nfkc(s).collect::<String>()
}

/// `str::to_lowercase`: the text in small letters by Unicode's rules, which
/// depends on the text alone.
#[verifier::external_body]
fn lowercase(s: &str) -> (t: String)
    ensures
        t@ == lowercase_text(s@),
{
    s.to_lowercase()
}

/// A title in the form that titles are compared in: compatibility forms such as
/// full-width letters made one, in small letters.
pub fn normalize_title(title: &str) -> (t: String)
    ensures
        t@ == lowercase_text(nfkc_text(title@)),
{
    let composed = nfkc(title);
    lowercase(composed.as_str())
}

// -------------------------------------------------------------------- scanning

/// Which files to look for.
pub fn scan_pattern(paths: &PathsConfig) -> (pattern: String)
    ensures
        pattern@ == paths.nas_mount@ + "/"@ + paths.ts_glob@,
{
    let mut pattern = paths.nas_mount.clone();
    pattern.append("/");
    pattern.append(paths.ts_glob.as_str());
    pattern
}

/// What becomes of a file that was found.
#[derive(Debug, Clone, Copy, PartialEq, Eq, Structural)]
pub enum ScanVerdict {
    /// It has been read, or is being read, or could not be read.
    Processed,
    /// There are patterns to include files, and none includes it.
    NotIncluded,
    /// A pattern excludes it.
    Excluded,
    /// It is to be read.
    Accepted,
}

/// Whether one of some patterns matches; patterns that are none do not count.
pub open spec fn any_hit(hits: Seq<Option<bool>>) -> bool {
    exists|i: int| 0 <= i < hits.len() && #[trigger] hits[i] == Some(true)
}

/// Whether there is a pattern at all.
pub open spec fn any_pattern(hits: Seq<Option<bool>>) -> bool {
    exists|i: int| 0 <= i < hits.len() && (#[trigger] hits[i]) is Some
}

/// What becomes of a file.
pub open spec fn verdict(
    processed: bool,
    excluded: Seq<Option<bool>>,
    included: Seq<Option<bool>>,
) -> ScanVerdict {
    if processed {
        ScanVerdict::Processed
    } else if any_pattern(included) && !any_hit(included) {
        ScanVerdict::NotIncluded
    } else if any_hit(excluded) {
        ScanVerdict::Excluded
    } else {
        ScanVerdict::Accepted
    }
}

fn has_hit(hits: &[Option<bool>]) -> (b: bool)
    ensures
        b == any_hit(hits@),
{
    let mut i: usize = 0;
    while i < hits.len()
        invariant
            i <= hits@.len(),
            forall|j: int| 0 <= j < i ==> #[trigger] hits@[j] != Some(true),
        decreases hits@.len() - i,
    {
        if let Some(true) = hits[i] {
            assert(hits@[i as int] == Some(true));
            return true;
        }
        i = i + 1;
    }
    false
}

fn has_pattern(hits: &[Option<bool>]) -> (b: bool)
    ensures
        b == any_pattern(hits@),
{
    let mut i: usize = 0;
    while i < hits.len()
        invariant
            i <= hits@.len(),
            forall|j: int| 0 <= j < i ==> (#[trigger] hits@[j]) is None,
        decreases hits@.len() - i,
    {
        if hits[i].is_some() {
            assert(hits@[i as int] is Some);
            return true;
        }
        i = i + 1;
    }
    false
}

/// Decides what becomes of a file, from whether it has been processed and what
/// each pattern to exclude or include files says of it: nothing, where the
/// pattern is none.
pub fn scan_verdict(processed: bool, excluded: &[Option<bool>], included: &[Option<bool>]) -> (v:
    ScanVerdict)
    ensures
        v == verdict(processed, excluded@, included@),
{
    if processed {
        ScanVerdict::Processed
    } else if has_pattern(included) && !has_hit(included) {
        ScanVerdict::NotIncluded
    } else if has_hit(excluded) {
        ScanVerdict::Excluded
    } else {
        ScanVerdict::Accepted
    }
}

/// Whether a pattern in the language of the `glob` crate matches a text; nothing
/// where it is no pattern.
pub uninterp spec fn glob_match(pattern: Seq<char>, text: Seq<char>) -> Option<bool>;

/// `glob::Pattern::new` and `glob::Pattern::matches`: whether the pattern is one,
/// and whether it matches, which depend on the two texts alone.  What separates
/// folders is what the system that the crate is built for says.
#[verifier::external_body]
fn glob_matches(pattern: &str, text: &str) -> (hit: Option<bool>)
    ensures
        hit == glob_match(pattern@, text@),
{
    match glob::Pattern::new(pattern) {
        Ok(p) => Some(p.matches(text)),
        Err(_) => None,
    }
}

/// What each pattern says of a path.
pub open spec fn glob_hits(patterns: Seq<Seq<char>>, path: Seq<char>) -> Seq<Option<bool>> {
    patterns.map_values(|p: Seq<char>| glob_match(p, path))
}

fn match_all(patterns: &Vec<String>, path: &str) -> (hits: Vec<Option<bool>>)
    ensures
        hits@ == glob_hits(texts(patterns@), path@),
{
    let mut hits: Vec<Option<bool>> = Vec::new();
    let mut i: usize = 0;
    while i < patterns.len()
        invariant
            i <= patterns@.len(),
            hits@ == glob_hits(texts(patterns@), path@).take(i as int),
        decreases patterns@.len() - i,
    {
        hits.push(glob_matches(patterns[i].as_str(), path));
        assert(hits@ =~= glob_hits(texts(patterns@), path@).take(i + 1));
        i = i + 1;
    }
    assert(hits@ =~= glob_hits(texts(patterns@), path@));
    hits
}

fn lists_text(list: &Vec<String>, s: &str) -> (b: bool)
    ensures
        b == texts(list@).contains(s@),
{
    let mut i: usize = 0;
    while i < list.len()
        invariant
            i <= list@.len(),
            forall|j: int| 0 <= j < i ==> #[trigger] texts(list@)[j] != s@,
        decreases list@.len() - i,
    {
        if same_text(list[i].as_str(), s) {
            assert(texts(list@)[i as int] == s@);
            return true;
        }
        i = i + 1;
    }
    false
}

/// What becomes of a file that was found.  Patterns to include files are matched
/// against its path as seen from the folder of the recordings, patterns to exclude
/// files against its whole path.
pub open spec fn path_verdict(
    path: Seq<char>,
    nas_mount: Seq<char>,
    processed: Seq<Seq<char>>,
    excluded: Seq<Seq<char>>,
    included: Seq<Seq<char>>,
) -> ScanVerdict {
    verdict(
        processed.contains(path),
        glob_hits(excluded, path),
        glob_hits(included, relative_to(path, nas_mount)),
    )
}

/// Decides what becomes of a file that was found.
pub fn filter_path(
    path: &str,
    nas_mount: &str,
    processed: &Vec<String>,
    filter_exclude: &Vec<String>,
    filter_include: &Vec<String>,
) -> (v: ScanVerdict)
    ensures
        v == path_verdict(
            path@,
            nas_mount@,
            texts(processed@),
            texts(filter_exclude@),
            texts(filter_include@),
        ),
{
    let done = lists_text(processed, path);
    let excluded = match_all(filter_exclude, path);
    let seen = relative_path(path, nas_mount);
    let included = match_all(filter_include, seen.as_str());
    scan_verdict(done, excluded.as_slice(), included.as_slice())
}

/// Exclusion wins: a file that a pattern excludes is not read, whatever includes
/// it.
pub proof fn exclusion_wins(
    processed: bool,
    excluded: Seq<Option<bool>>,
    included: Seq<Option<bool>>,
)
    requires
        any_hit(excluded),
    ensures
        verdict(processed, excluded, included) != ScanVerdict::Accepted,
{
}

/// Without patterns to include files, every file counts as included.
pub proof fn no_include_pattern_means_all(excluded: Seq<Option<bool>>)
    requires
        !any_hit(excluded),
    ensures
        verdict(false, excluded, Seq::empty()) == ScanVerdict::Accepted,
{
}

/// The name that a file is shown by.
pub fn file_label(path: &str) -> (name: String)
    ensures
        name@ == label_of(path@),
{
    match name_of_path(path) {
        Some(n) => n,
        None => String::new(),
    }
}

/// A scan over the files that were found.
pub ghost struct ScanState {
    pub paths: Seq<Seq<char>>,
    /// The place of the next file.
    pub at: int,
    /// The folder of the recordings.
    pub nas_mount: Seq<char>,
    /// The files that have been processed.
    pub processed: Seq<Seq<char>>,
    pub excluded: Seq<Seq<char>>,
    pub included: Seq<Seq<char>>,
    pub require_captions: bool,
    /// How many files were new.
    pub queued: nat,
}

impl ScanState {
    /// Whether the filters let a file pass.
    pub open spec fn accepts(self, i: int) -> bool {
        path_verdict(
            self.paths[i],
            self.nas_mount,
            self.processed,
            self.excluded,
            self.included,
        ) == ScanVerdict::Accepted
    }

    /// The first file from `from` on that the filters let pass.
    pub open spec fn first_accepted(self, from: int) -> int
        decreases self.paths.len() - from,
    {
        if 0 <= from < self.paths.len() && !self.accepts(from) {
            self.first_accepted(from + 1)
        } else {
            from
        }
    }

    /// At the next file that the filters let pass, or at the end.
    pub open spec fn at_next(self) -> ScanState {
        ScanState { at: self.first_accepted(self.at), ..self }
    }

    /// After a file without captions.
    pub open spec fn passed_over(self) -> ScanState {
        ScanState { at: self.at + 1, ..self }
    }

    /// After a file that was queued; it counts where it gave a new row.
    pub open spec fn recorded(self, rows_affected: int) -> ScanState {
        ScanState {
            at: self.at + 1,
            queued: if rows_affected > 0 {
                self.queued + 1
            } else {
                self.queued
            },
            ..self
        }
    }

    /// Whether a file is to be queued: the filters let it pass, and it has
    /// captions, where that is asked for.
    pub open spec fn queues(self, i: int, has_captions: spec_fn(Seq<char>) -> bool) -> bool {
        self.accepts(i) && (!self.require_captions || has_captions(self.paths[i]))
    }

    /// The end of a scan over files of which some are known, and what is known
    /// then.  A file that is queued gives a new row exactly where it is not known.
    pub open spec fn scanned(
        self,
        known: Set<Seq<char>>,
        has_captions: spec_fn(Seq<char>) -> bool,
    ) -> (ScanState, Set<Seq<char>>)
        decreases self.paths.len() - self.at,
    {
        let here = self.at_next();
        let path = here.paths[here.at];
        if !(self.at <= here.at < here.paths.len()) {
            (here, known)
        } else if self.require_captions && !has_captions(path) {
            here.passed_over().scanned(known, has_captions)
        } else if known.contains(path) {
            here.recorded(0).scanned(known, has_captions)
        } else {
            here.recorded(1).scanned(known.insert(path), has_captions)
        }
    }
}

/// What to do next in a scan.
pub enum ScanAction {
    /// Look for a caption stream in the file.
    FindCaptions { path: String },
    /// Queue the file, unless it is known.
    Queue { path: String, filename: String },
    /// Every file has been seen.
    Done { queued: usize },
}

/// The name of a path, for display.
pub open spec fn label_of(path: Seq<char>) -> Seq<char> {
    match file_name(path) {
        Some(n) => n,
        None => Seq::empty(),
    }
}

/// A scan over the files that were found.
pub struct ScanRun {
    paths: Vec<String>,
    at: usize,
    nas_mount: String,
    processed: Vec<String>,
    excluded: Vec<String>,
    included: Vec<String>,
    require_captions: bool,
    queued: usize,
}

impl View for ScanRun {
    type V = ScanState;

    closed spec fn view(&self) -> ScanState {
        ScanState {
            paths: texts(self.paths@),
            at: self.at as int,
            nas_mount: self.nas_mount@,
            processed: texts(self.processed@),
            excluded: texts(self.excluded@),
            included: texts(self.included@),
            require_captions: self.require_captions,
            queued: self.queued as nat,
        }
    }
}

impl ScanRun {
    #[verifier::type_invariant]
    spec fn in_bounds(self) -> bool {
        self.at <= self.paths@.len() && self.queued <= self.at
    }

    /// A scan over files below a folder, with what is known of them and what the
    /// settings ask.
    pub fn new(
        paths: Vec<String>,
        nas_mount: &str,
        processed: Vec<String>,
        ingest: &IngestConfig,
    ) -> (r: Self)
        ensures
            r@ == (ScanState {
                paths: texts(paths@),
                at: 0,
                nas_mount: nas_mount@,
                processed: texts(processed@),
                excluded: texts(ingest.filter_exclude@),
                included: texts(ingest.filter_include@),
                require_captions: ingest.require_captions,
                queued: 0,
            }),
    {
        ScanRun {
            paths,
            at: 0,
            nas_mount: nas_mount.to_string(),
            processed,
            excluded: copy_texts(&ingest.filter_exclude),
            included: copy_texts(&ingest.filter_include),
            require_captions: ingest.require_captions,
            queued: 0,
        }
    }

    /// Goes on to the next file that the filters let pass.
    pub fn next(&mut self) -> (action: ScanAction)
        ensures
            final(self)@ == old(self)@.at_next(),
            match action {
                ScanAction::FindCaptions { path } => {
                    &&& final(self)@.at < final(self)@.paths.len()
                    &&& final(self)@.require_captions
                    &&& path@ == final(self)@.paths[final(self)@.at]
                },
                ScanAction::Queue { path, filename } => {
                    &&& final(self)@.at < final(self)@.paths.len()
                    &&& !final(self)@.require_captions
                    &&& path@ == final(self)@.paths[final(self)@.at]
                    &&& filename@ == label_of(path@)
                },
                ScanAction::Done { queued } => {
                    &&& final(self)@.at == final(self)@.paths.len()
                    &&& queued == final(self)@.queued
                },
            },
    {
        proof {
            use_type_invariant(&*self);
        }
        let mut at: usize = self.at;
        while at < self.paths.len()
            invariant_except_break
                self@.first_accepted(at as int) == self@.first_accepted(self@.at),
            invariant
                self.at <= at <= self.paths@.len(),
                self.queued <= self.at,
            ensures
                at == self@.first_accepted(self@.at),
            decreases self.paths@.len() - at,
        {
            let v = filter_path(
                self.paths[at].as_str(),
                self.nas_mount.as_str(),
                &self.processed,
                &self.excluded,
                &self.included,
            );
            if v == ScanVerdict::Accepted {
                break;
            }
            at = at + 1;
        }
        self.at = at;
        if at >= self.paths.len() {
            return ScanAction::Done { queued: self.queued };
        }
        let path = self.paths[at].clone();
        if self.require_captions {
            ScanAction::FindCaptions { path }
        } else {
            let filename = file_label(path.as_str());
            ScanAction::Queue { path, filename }
        }
    }

    /// A caption stream was looked for: the file is to be queued if there is one,
    /// and passed over if not.
    pub fn searched(&mut self, caption_pid: Option<u16>) -> (action: Option<ScanAction>)
        requires
            old(self)@.at < old(self)@.paths.len(),
        ensures
            match action {
                Some(ScanAction::Queue { path, filename }) => {
                    &&& caption_pid is Some
                    &&& final(self)@ == old(self)@
                    &&& path@ == old(self)@.paths[old(self)@.at]
                    &&& filename@ == label_of(path@)
                },
                Some(_) => false,
                None => {
                    &&& caption_pid is None
                    &&& final(self)@ == old(self)@.passed_over()
                },
            },
    {
        proof {
            use_type_invariant(&*self);
        }
        if caption_pid.is_some() {
            let path = self.paths[self.at].clone();
            let filename = file_label(path.as_str());
            Some(ScanAction::Queue { path, filename })
        } else {
            assert(self.at < self.paths.len());
            self.at = self.at + 1;
            None
        }
    }

    /// The file was queued; it counts only if it was not known before.
    pub fn queued(&mut self, rows_affected: u64)
        requires
            old(self)@.at < old(self)@.paths.len(),
        ensures
            final(self)@ == old(self)@.recorded(rows_affected as int),
    {
        proof {
            use_type_invariant(&*self);
        }
        assert(self.at < self.paths.len());
        self.at = self.at + 1;
        if rows_affected > 0 {
            self.queued = self.queued + 1;
        }
    }
}

fn copy_texts(list: &Vec<String>) -> (copy: Vec<String>)
    ensures
        texts(copy@) == texts(list@),
{
    let mut copy: Vec<String> = Vec::new();
    let mut i: usize = 0;
    assert(texts(copy@) =~= texts(list@).take(0));
    while i < list.len()
        invariant
            i <= list@.len(),
            texts(copy@) == texts(list@).take(i as int),
        decreases list@.len() - i,
    {
        push_text(&mut copy, list[i].as_str());
        assert(texts(list@).take(i + 1) =~= texts(list@).take(i as int).push(list@[i as int]@));
        i = i + 1;
    }
    assert(texts(list@).take(i as int) =~= texts(list@));
    copy
}

/// A scan passes over every file that the filters refuse, and stops at the first
/// that they let pass.
pub proof fn scan_stops_at_the_first_accepted(s: ScanState, from: int)
    requires
        0 <= from <= s.paths.len(),
    ensures
        from <= s.first_accepted(from) <= s.paths.len(),
        forall|i: int| from <= i < s.first_accepted(from) ==> !s.accepts(i),
        s.first_accepted(from) < s.paths.len() ==> s.accepts(s.first_accepted(from)),
    decreases s.paths.len() - from,
{
    if from < s.paths.len() && !s.accepts(from) {
        scan_stops_at_the_first_accepted(s, from + 1);
    }
}

/// What a whole scan does: it sees every file; known are then the files known
/// before and those to be queued; and the count goes up by one for each row added.
pub proof fn scan_adds_what_it_counts(
    s: ScanState,
    known: Set<Seq<char>>,
    has_captions: spec_fn(Seq<char>) -> bool,
)
    requires
        0 <= s.at <= s.paths.len(),
        known.finite(),
    ensures
        ({
            let (end, after) = s.scanned(known, has_captions);
            &&& end == (ScanState { at: s.paths.len() as int, queued: end.queued, ..s })
            &&& after.finite()
            &&& after.len() == known.len() + (end.queued - s.queued)
            &&& forall|path: Seq<char>| #[trigger]
                after.contains(path) <==> known.contains(path) || exists|i: int|
                    s.at <= i < s.paths.len() && #[trigger] s.paths[i] == path && s.queues(
                        i,
                        has_captions,
                    )
        }),
    decreases s.paths.len() - s.at,
{
    scan_stops_at_the_first_accepted(s, s.at);
    let here = s.at_next();
    let (end, after) = s.scanned(known, has_captions);
    if here.at < here.paths.len() {
        let path = here.paths[here.at];
        let (next, then) = if s.require_captions && !has_captions(path) {
            (here.passed_over(), known)
        } else if known.contains(path) {
            (here.recorded(0), known)
        } else {
            (here.recorded(1), known.insert(path))
        };
        scan_adds_what_it_counts(next, then, has_captions);
        assert forall|p: Seq<char>| #[trigger]
            after.contains(p) <==> known.contains(p) || exists|i: int|
                s.at <= i < s.paths.len() && #[trigger] s.paths[i] == p && s.queues(
                    i,
                    has_captions,
                ) by {
            if exists|i: int|
                s.at <= i < s.paths.len() && #[trigger] s.paths[i] == p && s.queues(
                    i,
                    has_captions,
                ) {
                let i = choose|i: int|
                    s.at <= i < s.paths.len() && #[trigger] s.paths[i] == p && s.queues(
                        i,
                        has_captions,
                    );
                assert(i >= here.at);
                if i > here.at {
                    assert(next.paths[i] == p && next.queues(i, has_captions));
                }
            }
            if exists|i: int|
                next.at <= i < next.paths.len() && #[trigger] next.paths[i] == p && next.queues(
                    i,
                    has_captions,
                ) {
                let i = choose|i: int|
                    next.at <= i < next.paths.len() && #[trigger] next.paths[i] == p && next.queues(
                        i,
                        has_captions,
                    );
                assert(s.paths[i] == p && s.queues(i, has_captions));
            }
            if then.contains(p) && !known.contains(p) {
                assert(s.paths[here.at] == p && s.queues(here.at, has_captions));
            }
        }
    }
}

/// A scan in which every file to be queued is known counts nothing and adds
/// nothing.
pub proof fn known_files_are_not_queued_again(
    s: ScanState,
    known: Set<Seq<char>>,
    has_captions: spec_fn(Seq<char>) -> bool,
)
    requires
        0 <= s.at <= s.paths.len(),
        forall|i: int|
            s.at <= i < s.paths.len() && s.queues(i, has_captions) ==> known.contains(
                #[trigger] s.paths[i],
            ),
    ensures
        s.scanned(known, has_captions).0.queued == s.queued,
        s.scanned(known, has_captions).1 == known,
    decreases s.paths.len() - s.at,
{
    scan_stops_at_the_first_accepted(s, s.at);
    let here = s.at_next();
    if here.at < here.paths.len() {
        let path = here.paths[here.at];
        let next = if s.require_captions && !has_captions(path) {
            here.passed_over()
        } else {
            assert(s.queues(here.at, has_captions));
            assert(known.contains(s.paths[here.at]));
            here.recorded(0)
        };
        assert forall|i: int|
            next.at <= i < next.paths.len() && next.queues(i, has_captions) implies known.contains(
            #[trigger] next.paths[i],
        ) by {
            assert(s.queues(i, has_captions));
            assert(known.contains(s.paths[i]));
        }
        known_files_are_not_queued_again(next, known, has_captions);
    }
}

/// A second scan, with nothing changed since the first, queues nothing.
pub proof fn second_scan_queues_nothing(
    s: ScanState,
    known: Set<Seq<char>>,
    has_captions: spec_fn(Seq<char>) -> bool,
)
    requires
        0 <= s.at <= s.paths.len(),
        known.finite(),
    ensures
        ({
            let after = s.scanned(known, has_captions).1;
            &&& s.scanned(after, has_captions).0.queued == s.queued
            &&& s.scanned(after, has_captions).1 == after
        }),
{
    scan_adds_what_it_counts(s, known, has_captions);
    let after = s.scanned(known, has_captions).1;
    assert forall|i: int|
        s.at <= i < s.paths.len() && s.queues(i, has_captions) implies after.contains(
        #[trigger] s.paths[i],
    ) by {}
    known_files_are_not_queued_again(s, after, has_captions);
}

/// No file that a pattern excludes is ever queued, nor one that has been processed.
pub proof fn refused_files_are_not_queued(
    s: ScanState,
    i: int,
    has_captions: spec_fn(Seq<char>) -> bool,
)
    requires
        any_hit(glob_hits(s.excluded, s.paths[i])) || s.processed.contains(s.paths[i]),
    ensures
        !s.queues(i, has_captions),
{
}

/// How many files to read at a time: what is asked for, but at least one.
pub fn worker_count(concurrency: u32) -> (n: u32)
    ensures
        n == if concurrency == 0 {
            1
        } else {
            concurrency
        },
{
    if concurrency == 0 {
        1
    } else {
        concurrency
    }
}

// ------------------------------------------------------------------ reconciling

/// Whether files that are gone may be dropped.  Where the folder is missing, or
/// nothing at all was found in it, the disk is more likely not mounted than
/// empty, and everything is kept.
pub fn may_reconcile(mount_exists: bool, files_found: usize) -> (b: bool)
    ensures
        b == (mount_exists && files_found > 0),
{
    mount_exists && files_found > 0
}

/// The files that are gone, of those known.
pub open spec fn gone(rows: Seq<(i64, bool)>) -> Seq<i64>
    decreases rows.len(),
{
    if rows.len() == 0 {
        Seq::empty()
    } else if rows.last().1 {
        gone(rows.drop_last())
    } else {
        gone(rows.drop_last()).push(rows.last().0)
    }
}

/// The files that are gone, of those known, each with whether it still exists.
pub fn missing_ids(rows: &[(i64, bool)]) -> (ids: Vec<i64>)
    ensures
        ids@ == gone(rows@),
{
    let mut ids: Vec<i64> = Vec::new();
    let mut i: usize = 0;
    assert(rows@.take(0) =~= Seq::empty());
    while i < rows.len()
        invariant
            i <= rows@.len(),
            ids@ == gone(rows@.take(i as int)),
        decreases rows@.len() - i,
    {
        assert(rows@.take(i + 1).drop_last() =~= rows@.take(i as int));
        if !rows[i].1 {
            ids.push(rows[i].0);
        }
        i = i + 1;
    }
    assert(rows@.take(i as int) =~= rows@);
    ids
}

/// A file is dropped exactly where one of its rows says that it is gone.
pub proof fn only_missing_files_go(rows: Seq<(i64, bool)>, id: i64)
    ensures
        gone(rows).contains(id) <==> rows.contains((id, false)),
    decreases rows.len(),
{
    if rows.len() > 0 {
        only_missing_files_go(rows.drop_last(), id);
        let front = rows.drop_last();
        assert(rows =~= front.push(rows.last()));
        if front.contains((id, false)) {
            let k = choose|k: int| 0 <= k < front.len() && front[k] == (id, false);
            assert(rows[k] == (id, false));
        }
        if rows.contains((id, false)) && !front.contains((id, false)) {
            let k = choose|k: int| 0 <= k < rows.len() && rows[k] == (id, false);
            if k < front.len() {
                assert(front[k] == (id, false));
            }
        }
        let before = gone(front);
        if !rows.last().1 {
            assert(gone(rows) == before.push(rows.last().0));
            assert(gone(rows)[before.len() as int] == rows.last().0);
            if before.contains(id) {
                let k = choose|k: int| 0 <= k < before.len() && before[k] == id;
                assert(gone(rows)[k] == id);
            }
            if gone(rows).contains(id) && !before.contains(id) {
                let k = choose|k: int| 0 <= k < gone(rows).len() && gone(rows)[k] == id;
                if k < before.len() {
                    assert(before[k] == id);
                }
                assert(rows.last() == (id, false));
                assert(rows[rows.len() - 1] == (id, false));
            }
        }
    }
}

/// Whether the caption file of a recording is to be made again: only of one that
/// has been read, has captions, still exists, and has lost its caption file.
pub fn needs_caption_file(
    done: bool,
    has_captions: bool,
    recording_exists: bool,
    caption_file_exists: bool,
) -> (b: bool)
    ensures
        b == (done && has_captions && recording_exists && !caption_file_exists),
{
    done && has_captions && recording_exists && !caption_file_exists
}

// ------------------------------------------------------------- what is recorded

/// The name that a programme is recorded under: its series, or else its title,
/// or nothing where neither is known.
pub open spec fn program_name(series_title: Seq<char>, title: Seq<char>) -> Option<Seq<char>> {
    if series_title.len() > 0 {
        Some(series_title)
    } else if title.len() > 0 && title != "(unknown)"@ {
        Some(title)
    } else {
        None
    }
}

/// The name that a programme is recorded under.
pub fn program_key(epg: &EpgInfo) -> (key: Option<String>)
    ensures
        text_opt(key) == program_name(epg.series_title@, epg.title@),
{
    if !epg.series_title.as_str().is_empty() {
        Some(epg.series_title.clone())
    } else if !epg.title.as_str().is_empty() && !same_text(epg.title.as_str(), "(unknown)") {
        Some(epg.title.clone())
    } else {
        None
    }
}

/// What is recorded of a file.
#[derive(Debug)]
pub struct IngestRecord {
    /// The programme's name, and the form that names are compared in.
    pub program: Option<(String, String)>,
    pub episode_number: Option<i64>,
    pub episode_title: Option<String>,
    pub air_date: Option<String>,
}

pub open spec fn date_opt(t: Option<AirDateTime>) -> Option<Seq<char>> {
    match t {
        Some(time) => Some(date_text(time)),
        None => None,
    }
}

/// What is recorded of a file, from what its stream says.  The episode's name is the
/// one that its title holds; the long text of the programme is not recorded.
pub fn ingest_record(epg: &EpgInfo) -> (r: IngestRecord)
    ensures
        match r.program {
            Some((name, normalized)) => program_name(epg.series_title@, epg.title@) == Some(name@)
                && normalized@ == lowercase_text(nfkc_text(name@)),
            None => program_name(epg.series_title@, epg.title@) is None,
        },
        match epg.episode_number {
            Some(n) => r.episode_number == Some(n as i64),
            None => r.episode_number is None,
        },
        text_opt(r.episode_title) == text_opt(epg.sub_title),
        text_opt(r.air_date) == date_opt(epg.air_datetime),
{
    let program = match program_key(epg) {
        Some(key) => {
            let normalized = normalize_title(key.as_str());
            Some((key, normalized))
        },
        None => None,
    };
    let episode_number = match epg.episode_number {
        Some(n) => Some(n as i64),
        None => None,
    };
    let episode_title = match &epg.sub_title {
        Some(s) => Some(s.clone()),
        None => None,
    };
    let air_date = match epg.air_datetime {
        Some(t) => Some(t.date()),
        None => None,
    };
    IngestRecord { program, episode_number, episode_title, air_date }
}

/// When to look for recordings; nothing where it is left empty.
pub fn schedule(schedule_cron: &str) -> (cron: Option<String>)
    ensures
        text_opt(cron) == crate::ts::title::non_empty(crate::text::trim(schedule_cron@)),
{
    let cron = crate::text::trim_text(schedule_cron);
    if cron.as_str().is_empty() {
        None
    } else {
        Some(cron)
    }
}

/// What becomes of a file, in full: one that has been processed is left; else, where there
/// are patterns to include files, one of them must match; else no pattern may exclude it.
/// Patterns that are none count for nothing.
pub proof fn what_becomes_of_a_file(
    processed: bool,
    excluded: Seq<Option<bool>>,
    included: Seq<Option<bool>>,
)
    ensures
        verdict(processed, excluded, included) == ScanVerdict::Processed <==> processed,
        verdict(processed, excluded, included) == ScanVerdict::NotIncluded <==> !processed && (
        exists|i: int| 0 <= i < included.len() && #[trigger] included[i] == Some(false)) && (
        forall|i: int| 0 <= i < included.len() ==> #[trigger] included[i] != Some(true)),
        verdict(processed, excluded, included) == ScanVerdict::Accepted <==> !processed && (
        forall|i: int| 0 <= i < excluded.len() ==> #[trigger] excluded[i] != Some(true)) && (
        (exists|i: int| 0 <= i < included.len() && #[trigger] included[i] == Some(true)) || (
        forall|i: int| 0 <= i < included.len() ==> (#[trigger] included[i]) is None)),
{
    if any_pattern(included) && !any_hit(included) {
        let i = choose|i: int| 0 <= i < included.len() && (#[trigger] included[i]) is Some;
        assert(included[i] != Some(true));
        assert(included[i] == Some(false));
    }
    if exists|i: int| 0 <= i < included.len() && #[trigger] included[i] == Some(false) {
        let i = choose|i: int| 0 <= i < included.len() && #[trigger] included[i] == Some(false);
        assert(included[i] is Some);
    }
    if exists|i: int| 0 <= i < included.len() && #[trigger] included[i] == Some(true) {
        let i = choose|i: int| 0 <= i < included.len() && #[trigger] included[i] == Some(true);
        assert(included[i] is Some);
    }
}

/// Patterns to exclude files are matched against the whole path, patterns to include them
/// against the path as seen from the folder of the recordings.
pub proof fn patterns_see_these_paths(
    path: Seq<char>,
    nas_mount: Seq<char>,
    processed: Seq<Seq<char>>,
    pattern: Seq<char>,
)
    requires
        !processed.contains(path),
    ensures
        path_verdict(path, nas_mount, processed, seq![pattern], Seq::empty())
            == ScanVerdict::Excluded <==> glob_match(pattern, path) == Some(true),
        path_verdict(path, nas_mount, processed, Seq::empty(), seq![pattern])
            == ScanVerdict::NotIncluded <==> glob_match(pattern, relative_to(path, nas_mount))
            == Some(false),
        path_verdict(path, nas_mount, processed, Seq::empty(), Seq::empty())
            == ScanVerdict::Accepted,
        path_verdict(path, nas_mount, processed.push(path), Seq::empty(), Seq::empty())
            == ScanVerdict::Processed,
{
    let none = Seq::<Seq<char>>::empty();
    let hits = glob_hits(seq![pattern], path);
    let seen = glob_hits(seq![pattern], relative_to(path, nas_mount));
    assert(hits[0] == glob_match(pattern, path));
    assert(seen[0] == glob_match(pattern, relative_to(path, nas_mount)));
    what_becomes_of_a_file(false, hits, glob_hits(none, relative_to(path, nas_mount)));
    what_becomes_of_a_file(false, glob_hits(none, path), seen);
    assert(processed.push(path).last() == path);
    assert(processed.push(path).contains(path));
    if any_hit(hits) {
        let i = choose|i: int| 0 <= i < hits.len() && #[trigger] hits[i] == Some(true);
        assert(i == 0);
    }
}

/// A scan counts a file exactly where it gave a new row, and goes on to the next file.
pub proof fn a_scan_counts_new_rows(s: ScanState, rows: int)
    requires
        rows >= 0,
    ensures
        s.recorded(rows) == (ScanState {
            at: s.at + 1,
            queued: s.queued + (if rows == 0 {
                0nat
            } else {
                1
            }),
            ..s
        }),
        s.passed_over() == (ScanState { at: s.at + 1, ..s }),
{
}

/// A file is shown by the name behind the last slash of its path.
pub proof fn a_file_is_shown_by_its_name(folder: Seq<char>, name: Seq<char>)
    requires
        name.len() > 0,
        name[0] != '.',
        forall|i: int| 0 <= i < name.len() ==> #[trigger] name[i] != '/',
    ensures
        label_of(folder + seq!['/'] + name) == name,
{
    assert(seq!['.'][0] == '.' && seq!['.', '.'][0] == '.');
    the_name_stands_behind_the_last_slash(folder, name);
}

/// The files that are gone come in the order of their rows.
pub proof fn missing_files_come_in_order(a: Seq<(i64, bool)>, id: i64, exists_still: bool)
    ensures
        gone(a.push((id, exists_still))) == (if exists_still {
            gone(a)
        } else {
            gone(a).push(id)
        }),
        gone(Seq::empty()) == Seq::<i64>::empty(),
{
    assert(a.push((id, exists_still)).drop_last() =~= a);
}

/// A programme is recorded under its series; without one, under its title, but not where
/// nothing is known of it.
pub proof fn a_programme_is_recorded_under_its_series(series: Seq<char>, title: Seq<char>)
    ensures
        series.len() > 0 ==> program_name(series, title) == Some(series),
        title.len() > 0 && title != "(unknown)"@ ==> program_name(Seq::empty(), title) == Some(title),
        program_name(Seq::empty(), Seq::empty()) is None,
        program_name(Seq::empty(), "(unknown)"@) is None,
{
}

} // verus!
