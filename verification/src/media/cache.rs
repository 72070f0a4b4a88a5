//! The image cache: what it holds, what to throw away, and what never to touch.
//!
//! Each recording has a folder of its own in the cache, with one folder for each
//! kind of image.  The caption file lies beside those and is kept: images can be
//! made again at little cost, the caption file cannot.
use vstd::prelude::*;

use crate::paths::{
    file_name, file_name_is_a_name, join, joined, joined_stays_below, lemma_last_dot, name_of_path,
    same_opt, stem_of_name, stem_of_path, the_name_stands_behind_the_last_slash,
    the_stem_stands_before_the_last_dot,
};
use crate::text::{chars_of, push_text, same_text, texts};

verus! {

/// The folders of a recording that hold images.
pub const IMAGE_SUBDIRS: [&'static str; 4] = ["thumbs", "full", "preview", "sub"];

/// Whether a path names a folder or a hidden file rather than a recording.
pub open spec fn is_no_recording(path: Seq<char>) -> bool {
    ||| path.len() > 0 && path.last() == '/'
    ||| file_name(path) is None
    ||| file_name(path)->0[0] == '.'
}

/// The folder of a recording in the cache; none where the path has no stem.
pub open spec fn recording_folder(cache_dir: Seq<char>, path: Seq<char>) -> Option<Seq<char>> {
    if is_no_recording(path) {
        None
    } else {
        Some(joined(cache_dir, stem_of_name(file_name(path)->0)))
    }
}

/// The folder of a recording in the cache.
pub fn cache_subtree(cache_dir: &str, ts_path_str: &str) -> (folder: Option<String>)
    ensures
        same_opt(folder, recording_folder(cache_dir@, ts_path_str@)),
{
    proof {
        file_name_is_a_name(ts_path_str@);
    }
    if !ts_path_str.is_empty() {
        let len: usize = ts_path_str.unicode_len();
        if ts_path_str.get_char(len - 1) == '/' {
            return None;
        }
    }
    match name_of_path(ts_path_str) {
        None => None,
        Some(name) => {
            if name.as_str().get_char(0) == '.' {
                return None;
            }
            match stem_of_path(ts_path_str) {
                None => None,
                Some(stem) => Some(join(cache_dir, stem.as_str())),
            }
        },
    }
}

/// The folder of a recording lies below the cache folder: it is not the cache
/// folder, nor anything outside it, since the stem neither holds a slash nor
/// starts with a dot.
pub proof fn recording_folder_is_below_the_cache(cache_dir: Seq<char>, path: Seq<char>)
    ensures
        recording_folder(cache_dir, path) matches Some(folder) ==> {
            let stem = stem_of_name(file_name(path)->0);
            &&& folder == joined(cache_dir, stem)
            &&& stem.len() > 0
            &&& stem[0] != '.'
            &&& forall|i: int| 0 <= i < stem.len() ==> stem[i] != '/'
            &&& cache_dir.is_prefix_of(folder)
            &&& folder.len() > cache_dir.len()
        },
{
    if recording_folder(cache_dir, path) is Some {
        file_name_is_a_name(path);
        let name = file_name(path)->0;
        let stem = stem_of_name(name);
        lemma_last_dot(name);
        assert(stem.len() > 0);
        assert(forall|i: int| 0 <= i < stem.len() ==> stem[i] == name[i]);
        joined_stays_below(cache_dir, stem);
    }
}

// -------------------------------------------------------------------- clearing

/// A file of the image cache.
#[derive(Debug, Clone)]
pub struct CacheFile {
    pub path: String,
    /// Its size in bytes.
    pub size: u64,
    /// When it was last written to, in nanoseconds since 1970.
    pub modified: i128,
}

/// A file below the cache folder.
pub struct CacheEntry {
    pub path: String,
    /// The folder of its recording that it lies in; empty where it lies beside
    /// those folders.
    pub folder: String,
    /// Whether it is a file, and not a folder.
    pub is_file: bool,
    pub size: u64,
    /// When it was last written to, in nanoseconds since 1970, where that is known.
    pub modified: Option<i128>,
}

/// The image folders of a recording.
pub open spec fn image_folders(folder: Seq<char>) -> Seq<Seq<char>> {
    seq![
        joined(folder, "thumbs"@),
        joined(folder, "full"@),
        joined(folder, "preview"@),
        joined(folder, "sub"@),
    ]
}

/// What it takes to clear images.
pub struct ImageClearing {
    /// The folders to remove.
    pub folders: Vec<String>,
    /// The bytes that the files in them take.
    pub freed: u64,
}

/// Whether a path is that of something directly in a folder.
pub open spec fn lies_in(path: Seq<char>, folder: Seq<char>) -> bool {
    &&& (folder + seq!['/']).is_prefix_of(path)
    &&& path.len() > folder.len() + 1
    &&& forall|i: int| folder.len() < i < path.len() ==> path[i] != '/'
}

/// Whether a path is that of something directly in one of some folders.
pub open spec fn lies_in_any(path: Seq<char>, folders: Seq<Seq<char>>) -> bool {
    exists|i: int| 0 <= i < folders.len() && lies_in(path, #[trigger] folders[i])
}

/// What lies directly in some folders.
pub open spec fn entries_in(entries: Seq<CacheEntry>, folders: Seq<Seq<char>>) -> Seq<CacheEntry> {
    entries.filter(|e: CacheEntry| lies_in_any(e.path@, folders))
}

/// The bytes that the files among some entries take.
pub open spec fn file_bytes(entries: Seq<CacheEntry>) -> int
    decreases entries.len(),
{
    if entries.len() == 0 {
        0
    } else if entries.last().is_file {
        file_bytes(entries.drop_last()) + entries.last().size
    } else {
        file_bytes(entries.drop_last())
    }
}

proof fn lemma_file_bytes_of_part(entries: Seq<CacheEntry>, n: int)
    requires
        0 <= n <= entries.len(),
    ensures
        0 <= file_bytes(entries.take(n)) <= file_bytes(entries),
    decreases entries.len(),
{
    if n < entries.len() {
        lemma_file_bytes_of_part(entries.drop_last(), n);
        assert(entries.drop_last().take(n) =~= entries.take(n));
    } else {
        assert(entries.take(n) =~= entries);
        if entries.len() > 0 {
            lemma_file_bytes_of_part(entries.drop_last(), n - 1);
        }
    }
}

/// The bytes that are freed by removing some entries: those of the files.
pub fn freed_bytes(entries: &[CacheEntry]) -> (n: u64)
    requires
        file_bytes(entries@) <= u64::MAX,
    ensures
        n == file_bytes(entries@),
{
    let mut n: u64 = 0;
    let mut i: usize = 0;
    assert(entries@.take(0) =~= Seq::empty());
    while i < entries.len()
        invariant
            i <= entries@.len(),
            file_bytes(entries@) <= u64::MAX,
            n == file_bytes(entries@.take(i as int)),
        decreases entries@.len() - i,
    {
        proof {
            assert(entries@.take(i + 1).drop_last() =~= entries@.take(i as int));
            lemma_file_bytes_of_part(entries@, i + 1);
        }
        if entries[i].is_file {
            n = n + entries[i].size;
        }
        i = i + 1;
    }
    assert(entries@.take(i as int) =~= entries@);
    n
}

fn is_directly_in(path: &str, folder: &str) -> (b: bool)
    ensures
        b == lies_in(path@, folder@),
{
    let p = chars_of(path);
    let f = chars_of(folder);
    if p.len() < f.len() || p.len() - f.len() < 2 || p[f.len()] != '/' {
        proof {
            let start = folder@ + seq!['/'];
            if start.is_prefix_of(path@) && path@.len() > folder@.len() + 1 {
                assert(path@.subrange(0, start.len() as int)[folder@.len() as int] == '/');
            }
        }
        return false;
    }
    let mut i: usize = 0;
    while i < f.len()
        invariant
            i <= f@.len() < p@.len(),
            p@ == path@,
            f@ == folder@,
            forall|k: int| 0 <= k < i ==> p@[k] == f@[k],
        decreases f@.len() - i,
    {
        if p[i] != f[i] {
            proof {
                let start = folder@ + seq!['/'];
                if start.is_prefix_of(path@) {
                    assert(path@.subrange(0, start.len() as int)[i as int] == start[i as int]);
                }
            }
            return false;
        }
        i = i + 1;
    }
    assert(folder@ + seq!['/'] =~= path@.subrange(0, f@.len() as int + 1));
    let mut k: usize = f.len() + 1;
    while k < p.len()
        invariant
            f@.len() < k <= p@.len(),
            p@ == path@,
            f@ == folder@,
            forall|j: int| f@.len() < j < k ==> p@[j] != '/',
        decreases p@.len() - k,
    {
        if p[k] == '/' {
            assert(path@[k as int] == '/');
            return false;
        }
        k = k + 1;
    }
    true
}

fn is_directly_in_any(path: &str, folders: &Vec<String>) -> (b: bool)
    ensures
        b == lies_in_any(path@, texts(folders@)),
{
    let mut i: usize = 0;
    while i < folders.len()
        invariant
            i <= folders@.len(),
            forall|j: int| 0 <= j < i ==> !lies_in(path@, #[trigger] texts(folders@)[j]),
        decreases folders@.len() - i,
    {
        if is_directly_in(path, folders[i].as_str()) {
            assert(lies_in(path@, texts(folders@)[i as int]));
            return true;
        }
        i = i + 1;
    }
    false
}

fn clear_folders(folders: Vec<String>, entries: Vec<CacheEntry>) -> (c: ImageClearing)
    requires
        file_bytes(entries_in(entries@, texts(folders@))) <= u64::MAX,
    ensures
        c.folders == folders,
        c.freed == file_bytes(entries_in(entries@, texts(folders@))),
{
    let ghost all = entries@;
    let ghost inside = |e: CacheEntry| lies_in_any(e.path@, texts(folders@));
    let mut gone: Vec<CacheEntry> = Vec::new();
    reveal(Seq::filter);
    for entry in it: entries
        invariant
            it.seq() == all,
            inside == (|e: CacheEntry| lies_in_any(e.path@, texts(folders@))),
            gone@ == all.take(it.index() as int).filter(inside),
    {
        reveal(Seq::filter);
        assert(all.take(it.index() + 1).drop_last() =~= all.take(it.index() as int));
        if is_directly_in_any(entry.path.as_str(), &folders) {
            gone.push(entry);
        }
    }
    assert(all.take(all.len() as int) =~= all);
    let freed: u64 = freed_bytes(gone.as_slice());
    ImageClearing { folders, freed }
}

fn write_image_folders(folders: &mut Vec<String>, folder: &str)
    ensures
        texts(final(folders)@) == texts(old(folders)@) + image_folders(folder@),
{
    push_text(folders, join(folder, IMAGE_SUBDIRS[0]).as_str());
    push_text(folders, join(folder, IMAGE_SUBDIRS[1]).as_str());
    push_text(folders, join(folder, IMAGE_SUBDIRS[2]).as_str());
    push_text(folders, join(folder, IMAGE_SUBDIRS[3]).as_str());
    assert(texts(folders@) =~= texts(old(folders)@) + image_folders(folder@));
}

/// Clears the images of the recording in `folder`, given what lies in the cache: the
/// folders to remove, and the bytes that the files in them take.
pub fn clear_image_subdirs(folder: &str, entries: Vec<CacheEntry>) -> (c: ImageClearing)
    requires
        file_bytes(entries_in(entries@, image_folders(folder@))) <= u64::MAX,
    ensures
        texts(c.folders@) == image_folders(folder@),
        c.freed == file_bytes(entries_in(entries@, image_folders(folder@))),
{
    let mut folders: Vec<String> = Vec::new();
    write_image_folders(&mut folders, folder);
    assert(texts(folders@) =~= image_folders(folder@));
    clear_folders(folders, entries)
}

/// The folders to remove to clear the images of a recording; none where the path is
/// no recording's.
pub open spec fn folders_to_clear(cache_dir: Seq<char>, path: Seq<char>) -> Seq<Seq<char>> {
    match recording_folder(cache_dir, path) {
        Some(folder) => image_folders(folder),
        None => Seq::empty(),
    }
}

/// Clears the images of a recording, given what lies in the cache: the folders to
/// remove, and the bytes that the files in them take.  Where the path is no
/// recording's, there is nothing to remove.
pub fn clear_image_cache_for(cache_dir: &str, ts_path_str: &str, entries: Vec<CacheEntry>) -> (c:
    ImageClearing)
    requires
        file_bytes(entries_in(entries@, folders_to_clear(cache_dir@, ts_path_str@))) <= u64::MAX,
    ensures
        texts(c.folders@) == folders_to_clear(cache_dir@, ts_path_str@),
        c.freed == file_bytes(entries_in(entries@, folders_to_clear(cache_dir@, ts_path_str@))),
        recording_folder(cache_dir@, ts_path_str@) is None ==> c.freed == 0,
{
    match cache_subtree(cache_dir, ts_path_str) {
        Some(folder) => clear_image_subdirs(folder.as_str(), entries),
        None => {
            proof {
                lemma_nothing_lies_in_no_folder(entries@);
            }
            let none: Vec<String> = Vec::new();
            assert(texts(none@) =~= Seq::empty());
            clear_folders(none, entries)
        },
    }
}

proof fn lemma_nothing_lies_in_no_folder(entries: Seq<CacheEntry>)
    ensures
        entries_in(entries, Seq::empty()) == Seq::<CacheEntry>::empty(),
    decreases entries.len(),
{
    reveal(Seq::filter);
    if entries.len() > 0 {
        lemma_nothing_lies_in_no_folder(entries.drop_last());
        assert(!lies_in_any(entries.last().path@, Seq::empty()));
    }
}

/// The image folders of some recordings.
pub open spec fn all_image_folders(recordings: Seq<Seq<char>>) -> Seq<Seq<char>>
    decreases recordings.len(),
{
    if recordings.len() == 0 {
        Seq::empty()
    } else {
        all_image_folders(recordings.drop_last()) + image_folders(recordings.last())
    }
}

/// Clears the images of every recording, given their folders and what lies in the
/// cache.
pub fn clear_all_image_cache(recordings: &[String], entries: Vec<CacheEntry>) -> (c: ImageClearing)
    requires
        file_bytes(entries_in(entries@, all_image_folders(texts(recordings@)))) <= u64::MAX,
    ensures
        texts(c.folders@) == all_image_folders(texts(recordings@)),
        c.freed == file_bytes(entries_in(entries@, all_image_folders(texts(recordings@)))),
{
    let mut folders: Vec<String> = Vec::new();
    let mut i: usize = 0;
    let ghost all = texts(recordings@);
    assert(all.take(0) =~= Seq::empty());
    assert(texts(folders@) =~= Seq::empty());
    while i < recordings.len()
        invariant
            i <= recordings@.len(),
            all == texts(recordings@),
            texts(folders@) == all_image_folders(all.take(i as int)),
        decreases recordings@.len() - i,
    {
        assert(all.take(i + 1).drop_last() =~= all.take(i as int));
        write_image_folders(&mut folders, recordings[i].as_str());
        i = i + 1;
    }
    assert(all.take(i as int) =~= all);
    clear_folders(folders, entries)
}

/// Clearing the images of a recording spares its caption file: none of the
/// folders to remove is the caption file, or holds it, or is the recording's
/// folder.
pub proof fn clearing_spares_the_caption_file(folder: Seq<char>, i: int)
    requires
        0 <= i < 4,
    ensures
        ({
            let cleared = image_folders(folder)[i];
            let kept = joined(folder, "captions.pes"@);
            &&& cleared != kept
            &&& !(cleared + seq!['/']).is_prefix_of(kept)
            &&& cleared.len() > folder.len()
        }),
{
    reveal_strlit("thumbs");
    reveal_strlit("full");
    reveal_strlit("preview");
    reveal_strlit("sub");
    reveal_strlit("captions.pes");
    let cleared = image_folders(folder)[i];
    let kept = joined(folder, "captions.pes"@);
    let at = if folder.len() == 0 || folder.last() == '/' {
        folder.len() as int
    } else {
        folder.len() as int + 1
    };
    assert(kept[at] == 'c');
    assert(cleared[at] != 'c');
    if (cleared + seq!['/']).is_prefix_of(kept) {
        assert(kept.subrange(0, (cleared + seq!['/']).len() as int)[at] == kept[at]);
    }
}

/// What clearing removes is no other recording's: a path directly in one of the
/// image folders of a recording lies below that recording's own folder.
pub proof fn cleared_files_are_the_recordings_own(folder: Seq<char>, path: Seq<char>)
    requires
        folder.len() > 0,
        folder.last() != '/',
        lies_in_any(path, image_folders(folder)),
    ensures
        (folder + seq!['/']).is_prefix_of(path),
        path != joined(folder, "captions.pes"@),
{
    let k = choose|k: int| 0 <= k < 4 && lies_in(path, #[trigger] image_folders(folder)[k]);
    let inner = image_folders(folder)[k];
    reveal_strlit("thumbs");
    reveal_strlit("full");
    reveal_strlit("preview");
    reveal_strlit("sub");
    assert((folder + seq!['/']).is_prefix_of(inner)) by {
        assert(folder + seq!['/'] =~= inner.subrange(0, folder.len() as int + 1));
    }
    let start = inner + seq!['/'];
    assert(start =~= path.subrange(0, start.len() as int));
    assert forall|i: int| 0 <= i < folder.len() + 1 implies path[i] == (folder + seq!['/'])[i] by {
        assert(start[i] == inner[i]);
        assert(inner.subrange(0, folder.len() as int + 1)[i] == inner[i]);
    }
    assert(folder + seq!['/'] =~= path.subrange(0, folder.len() as int + 1));
    clearing_spares_the_caption_file(folder, k);
}

// ------------------------------------------------------------------------ size

/// Whether a folder of a recording holds images.
pub open spec fn is_image_folder(folder: Seq<char>) -> bool {
    folder == "thumbs"@ || folder == "full"@ || folder == "preview"@ || folder == "sub"@
}

/// What is known of a file of the image cache.  One whose time is not known counts
/// as written when 1970 began.
pub open spec fn as_cache_file(e: CacheEntry) -> CacheFile {
    CacheFile {
        path: e.path,
        size: e.size,
        modified: match e.modified {
            Some(t) => t,
            None => 0,
        },
    }
}

/// The files of the image cache, in order.
pub open spec fn image_files_of(entries: Seq<CacheEntry>) -> Seq<CacheFile>
    decreases entries.len(),
{
    if entries.len() == 0 {
        Seq::empty()
    } else if entries.last().is_file && is_image_folder(entries.last().folder@) {
        image_files_of(entries.drop_last()).push(as_cache_file(entries.last()))
    } else {
        image_files_of(entries.drop_last())
    }
}

fn in_image_folder(folder: &str) -> (b: bool)
    ensures
        b == is_image_folder(folder@),
{
    same_text(folder, IMAGE_SUBDIRS[0]) || same_text(folder, IMAGE_SUBDIRS[1]) || same_text(
        folder,
        IMAGE_SUBDIRS[2],
    ) || same_text(folder, IMAGE_SUBDIRS[3])
}

/// The files of the image cache, of those below the cache folder.
pub fn image_files(entries: Vec<CacheEntry>) -> (files: Vec<CacheFile>)
    ensures
        files@ == image_files_of(entries@),
{
    let ghost all = entries@;
    let mut files: Vec<CacheFile> = Vec::new();
    assert(all.take(0) =~= Seq::empty());
    for entry in it: entries
        invariant
            it.seq() == all,
            files@ == image_files_of(all.take(it.index() as int)),
    {
        assert(all.take(it.index() + 1).drop_last() =~= all.take(it.index() as int));
        if entry.is_file && in_image_folder(entry.folder.as_str()) {
            let modified: i128 = match entry.modified {
                Some(t) => t,
                None => 0,
            };
            files.push(CacheFile { path: entry.path, size: entry.size, modified });
        }
    }
    assert(all.take(all.len() as int) =~= all);
    files
}

/// What lies outside the image folders, such as a caption file, is not part of
/// the image cache: every file of it comes from an entry in an image folder.
pub proof fn only_images_count(entries: Seq<CacheEntry>, i: int)
    requires
        0 <= i < image_files_of(entries).len(),
    ensures
        exists|k: int|
            0 <= k < entries.len() && is_image_folder((#[trigger] entries[k]).folder@)
                && entries[k].is_file && image_files_of(entries)[i] == as_cache_file(entries[k]),
    decreases entries.len(),
{
    let front = entries.drop_last();
    let last = entries.last();
    if last.is_file && is_image_folder(last.folder@) && i == image_files_of(front).len() {
        assert(entries[entries.len() - 1] == last);
    } else {
        only_images_count(front, i);
        let k = choose|k: int|
            0 <= k < front.len() && is_image_folder((#[trigger] front[k]).folder@)
                && front[k].is_file && image_files_of(front)[i] == as_cache_file(front[k]);
        assert(entries[k] == front[k]);
    }
}

/// The bytes that files take.
pub open spec fn total_size(files: Seq<CacheFile>) -> int
    decreases files.len(),
{
    if files.len() == 0 {
        0
    } else {
        total_size(files.drop_last()) + files.last().size
    }
}

proof fn lemma_total_size_of_part(files: Seq<CacheFile>, n: int)
    requires
        0 <= n <= files.len(),
    ensures
        0 <= total_size(files.take(n)) <= total_size(files),
    decreases files.len(),
{
    if n < files.len() {
        lemma_total_size_of_part(files.drop_last(), n);
        assert(files.drop_last().take(n) =~= files.take(n));
    } else {
        assert(files.take(n) =~= files);
        if files.len() > 0 {
            lemma_total_size_of_part(files.drop_last(), n - 1);
        }
    }
}

fn sum_sizes(files: &[CacheFile]) -> (total: u64)
    requires
        total_size(files@) <= u64::MAX,
    ensures
        total == total_size(files@),
{
    let mut total: u64 = 0;
    let mut i: usize = 0;
    while i < files.len()
        invariant
            i <= files@.len(),
            total_size(files@) <= u64::MAX,
            total == total_size(files@.take(i as int)),
        decreases files@.len() - i,
    {
        proof {
            assert(files@.take(i + 1).drop_last() =~= files@.take(i as int));
            lemma_total_size_of_part(files@, i + 1);
        }
        total = total + files[i].size;
        i = i + 1;
    }
    assert(files@.take(i as int) =~= files@);
    total
}

/// The number of files and the bytes that they take.
pub fn image_cache_stats(files: &[CacheFile]) -> (stats: (u64, u64))
    requires
        total_size(files@) <= u64::MAX,
    ensures
        stats.0 == files@.len(),
        stats.1 == total_size(files@),
{
    (files.len() as u64, sum_sizes(files))
}

// --------------------------------------------------------------------- cleanup

/// Files with one more, in its place by age: the oldest first, and behind those
/// of its own age.
pub open spec fn insert_by_age(files: Seq<CacheFile>, file: CacheFile) -> Seq<CacheFile>
    decreases files.len(),
{
    if files.len() == 0 || files.last().modified <= file.modified {
        files.push(file)
    } else {
        insert_by_age(files.drop_last(), file).push(files.last())
    }
}

/// Files by age, the oldest first; files of one age stay in order.
pub open spec fn by_age(files: Seq<CacheFile>) -> Seq<CacheFile>
    decreases files.len(),
{
    if files.len() == 0 {
        files
    } else {
        insert_by_age(by_age(files.drop_last()), files.last())
    }
}

proof fn lemma_insert_by_age(files: Seq<CacheFile>, file: CacheFile, k: int)
    requires
        0 <= k <= files.len(),
        k > 0 ==> files[k - 1].modified <= file.modified,
        forall|i: int| k <= i < files.len() ==> files[i].modified > file.modified,
    ensures
        insert_by_age(files, file) == files.insert(k, file),
    decreases files.len(),
{
    if k < files.len() {
        assert(files.last().modified > file.modified);
        lemma_insert_by_age(files.drop_last(), file, k);
        assert(files.insert(k, file) =~= files.drop_last().insert(k, file).push(files.last()));
    } else {
        assert(files.insert(k, file) =~= files.push(file));
    }
}

/// Sorting by age puts no file behind a newer one, and neither loses nor adds a
/// file.
pub proof fn by_age_sorts(files: Seq<CacheFile>)
    ensures
        forall|i: int, j: int|
            0 <= i <= j < by_age(files).len() ==> (#[trigger] by_age(files)[i]).modified <= (
            #[trigger] by_age(files)[j]).modified,
        by_age(files).to_multiset() == files.to_multiset(),
        by_age(files).len() == files.len(),
        total_size(by_age(files)) == total_size(files),
    decreases files.len(),
{
    if files.len() > 0 {
        by_age_sorts(files.drop_last());
        lemma_insert_sorts(by_age(files.drop_last()), files.last());
        broadcast use vstd::seq_lib::group_to_multiset_ensures;

        assert(files =~= files.drop_last().push(files.last()));
    }
}

proof fn lemma_insert_sorts(files: Seq<CacheFile>, file: CacheFile)
    requires
        forall|i: int, j: int|
            0 <= i <= j < files.len() ==> (#[trigger] files[i]).modified <= (
            #[trigger] files[j]).modified,
    ensures
        forall|i: int, j: int|
            0 <= i <= j < insert_by_age(files, file).len() ==> (#[trigger] insert_by_age(
                files,
                file,
            )[i]).modified <= (#[trigger] insert_by_age(files, file)[j]).modified,
        forall|i: int|
            0 <= i < insert_by_age(files, file).len() ==> (#[trigger] insert_by_age(
                files,
                file,
            )[i]).modified <= (if files.len() > 0 && files.last().modified > file.modified {
                files.last().modified
            } else {
                file.modified
            }),
        insert_by_age(files, file).to_multiset() == files.to_multiset().insert(file),
        insert_by_age(files, file).len() == files.len() + 1,
        total_size(insert_by_age(files, file)) == total_size(files) + file.size,
    decreases files.len(),
{
    broadcast use vstd::seq_lib::group_to_multiset_ensures;

    if files.len() == 0 || files.last().modified <= file.modified {
        assert(files.push(file).drop_last() =~= files);
    } else {
        lemma_insert_sorts(files.drop_last(), file);
        let inner = insert_by_age(files.drop_last(), file);
        assert(inner.push(files.last()).drop_last() =~= inner);
        assert(files =~= files.drop_last().push(files.last()));
        assert(inner.push(files.last()).to_multiset() =~= files.to_multiset().insert(file));
    }
}

/// A cleanup in progress.
pub ghost struct CleanupState {
    /// The files, the oldest first.
    pub queue: Seq<CacheFile>,
    /// The place of the next one.
    pub at: int,
    /// The bytes still taken.
    pub total: int,
    /// The bytes freed.
    pub freed: int,
    /// The bytes that may be taken.
    pub max_bytes: int,
}

impl CleanupState {
    pub open spec fn start(files: Seq<CacheFile>, max_bytes: int) -> CleanupState {
        CleanupState {
            queue: by_age(files),
            at: 0,
            total: total_size(files),
            freed: 0,
            max_bytes,
        }
    }

    /// The file to remove next, while too many bytes are taken.
    pub open spec fn next(self) -> Option<CacheFile> {
        if self.total > self.max_bytes && self.at < self.queue.len() {
            Some(self.queue[self.at])
        } else {
            None
        }
    }

    /// After trying to remove the next file.  One that could not be removed
    /// stays, and its bytes with it.
    pub open spec fn record(self, removed: bool) -> CleanupState {
        let size = self.queue[self.at].size;
        CleanupState {
            at: self.at + 1,
            total: if removed {
                self.total - size
            } else {
                self.total
            },
            freed: if removed {
                self.freed + size
            } else {
                self.freed
            },
            ..self
        }
    }

    /// The bytes taken include those of the files to come.
    pub open spec fn wf(self) -> bool {
        &&& 0 <= self.at <= self.queue.len()
        &&& total_size(self.queue.skip(self.at)) <= self.total
        &&& 0 <= self.freed
        &&& self.total + self.freed <= u64::MAX
    }

    /// What is left when every file can be removed.
    pub open spec fn run(self) -> CleanupState
        decreases self.queue.len() - self.at,
    {
        if self.next() is Some && self.at >= 0 {
            self.record(true).run()
        } else {
            self
        }
    }
}

proof fn lemma_next_size(files: Seq<CacheFile>)
    requires
        files.len() > 0,
    ensures
        total_size(files) == files[0].size + total_size(files.skip(1)),
        total_size(files.skip(1)) >= 0,
    decreases files.len(),
{
    lemma_total_size_of_part(files.skip(1), 0);
    assert(files.skip(1).take(0) =~= Seq::empty());
    if files.len() == 1 {
        assert(files.skip(1) =~= Seq::empty());
        assert(files.drop_last() =~= Seq::empty());
    } else {
        lemma_next_size(files.drop_last());
        assert(files.drop_last().skip(1) =~= files.skip(1).drop_last());
    }
}

/// Removes the oldest images until the rest is small enough.
pub struct CacheCleanup {
    queue: Vec<CacheFile>,
    at: usize,
    total: u64,
    freed: u64,
    max_bytes: u64,
}

impl View for CacheCleanup {
    type V = CleanupState;

    closed spec fn view(&self) -> CleanupState {
        CleanupState {
            queue: self.queue@,
            at: self.at as int,
            total: self.total as int,
            freed: self.freed as int,
            max_bytes: self.max_bytes as int,
        }
    }
}

impl CacheCleanup {
    pub fn new(files: Vec<CacheFile>, max_bytes: u64) -> (c: Self)
        requires
            total_size(files@) <= u64::MAX,
        ensures
            c@ == CleanupState::start(files@, max_bytes as int),
            c@.wf(),
    {
        let total: u64 = sum_sizes(files.as_slice());
        let ghost all = files@;
        let mut queue: Vec<CacheFile> = Vec::new();
        assert(by_age(all.take(0)) =~= Seq::empty());
        for file in it: files
            invariant
                it.seq() == all,
                queue@ == by_age(all.take(it.index() as int)),
        {
            assert(all.take(it.index() + 1).drop_last() =~= all.take(it.index() as int));
            let mut k: usize = queue.len();
            while k > 0 && queue[k - 1].modified > file.modified
                invariant
                    k <= queue@.len(),
                    forall|i: int| k <= i < queue@.len() ==> queue@[i].modified > file.modified,
                decreases k,
            {
                k = k - 1;
            }
            proof {
                lemma_insert_by_age(queue@, file, k as int);
            }
            queue.insert(k, file);
        }
        assert(all.take(all.len() as int) =~= all);
        proof {
            by_age_sorts(all);
            assert(queue@.skip(0) =~= queue@);
        }
        CacheCleanup { queue, at: 0, total, freed: 0, max_bytes }
    }

    /// The file to remove next.
    pub fn next(&self) -> (file: Option<&CacheFile>)
        requires
            self@.wf(),
        ensures
            match file {
                Some(f) => self@.next() == Some(*f),
                None => self@.next() is None,
            },
    {
        if self.total > self.max_bytes && self.at < self.queue.len() {
            Some(&self.queue[self.at])
        } else {
            None
        }
    }

    /// Takes note of whether the file was removed.
    pub fn record(&mut self, removed: bool)
        requires
            old(self)@.wf(),
            old(self)@.next() is Some,
        ensures
            final(self)@ == old(self)@.record(removed),
            final(self)@.wf(),
    {
        proof {
            lemma_next_size(self.queue@.skip(self.at as int));
            assert(self.queue@.skip(self.at as int).skip(1) =~= self.queue@.skip(self.at + 1));
        }
        assert(self.at < self.queue.len());
        if removed {
            let size: u64 = self.queue[self.at].size;
            self.total = self.total - size;
            self.freed = self.freed + size;
        }
        self.at = self.at + 1;
    }

    /// The bytes freed so far.
    pub fn freed(&self) -> (bytes: u64)
        ensures
            bytes == self@.freed,
    {
        self.freed
    }
}

/// Where every file can be removed, a cleanup ends with no more bytes than
/// allowed; what it freed and what is left are what there was; and it removed
/// nothing after the rest was small enough.
pub proof fn cleanup_reaches_the_limit(s: CleanupState)
    requires
        0 <= s.at <= s.queue.len(),
        s.total == total_size(s.queue.skip(s.at)),
        s.max_bytes >= 0,
    ensures
        s.run().total <= s.max_bytes,
        s.run().total + s.run().freed == s.total + s.freed,
        s.run().total == total_size(s.queue.skip(s.run().at)),
        s.at <= s.run().at <= s.queue.len(),
        s.run().at > s.at ==> total_size(s.queue.skip(s.run().at - 1)) > s.max_bytes,
    decreases s.queue.len() - s.at,
{
    if s.next() is Some {
        lemma_next_size(s.queue.skip(s.at));
        assert(s.queue.skip(s.at).skip(1) =~= s.queue.skip(s.at + 1));
        cleanup_reaches_the_limit(s.record(true));
    } else if s.at == s.queue.len() {
        assert(s.queue.skip(s.at) =~= Seq::empty());
    }
}

/// A cache that is small enough loses nothing.
pub proof fn small_cache_is_left_alone(files: Seq<CacheFile>, max_bytes: int)
    requires
        total_size(files) <= max_bytes,
    ensures
        CleanupState::start(files, max_bytes).next() is None,
{
}

/// The folder of a recording is that of its stem; a path that ends with a slash, or whose
/// name starts with a dot, names none.
pub proof fn a_recording_has_the_folder_of_its_stem(
    cache_dir: Seq<char>,
    folder: Seq<char>,
    name: Seq<char>,
    ending: Seq<char>,
)
    requires
        name.len() > 0,
        name[0] != '.',
        forall|i: int| 0 <= i < name.len() ==> #[trigger] name[i] != '/',
        forall|i: int| 0 <= i < ending.len() ==> (#[trigger] ending[i]) != '/' && ending[i] != '.',
    ensures
        ({
            let path = folder + seq!['/'] + (name + seq!['.'] + ending);
            &&& recording_folder(cache_dir, path) == Some(joined(cache_dir, name))
            &&& recording_folder(cache_dir, path + seq!['/']) is None
            &&& recording_folder(cache_dir, folder + seq!['/'] + (seq!['.'] + name)) is None
        }),
{
    let file = name + seq!['.'] + ending;
    let path = folder + seq!['/'] + file;
    assert(file[0] == name[0]);
    assert forall|i: int| 0 <= i < file.len() implies #[trigger] file[i] != '/' by {
        if i < name.len() {
            assert(file[i] == name[i]);
        } else if i > name.len() {
            assert(file[i] == ending[i - name.len() - 1]);
        }
    }
    assert(file[0] != '.' && seq!['.'][0] == '.' && seq!['.', '.'][0] == '.');
    the_name_stands_behind_the_last_slash(folder, file);
    the_stem_stands_before_the_last_dot(name, ending);
    assert(path.last() == file[file.len() - 1]);
    assert((path + seq!['/']).last() == '/');
    let hidden = seq!['.'] + name;
    assert forall|i: int| 0 <= i < hidden.len() implies #[trigger] hidden[i] != '/' by {
        if i > 0 {
            assert(hidden[i] == name[i - 1]);
        }
    }
    assert(hidden[0] == '.');
    let dotted = folder + seq!['/'] + hidden;
    if hidden != seq!['.', '.'] {
        assert(hidden.len() > 1);
        the_name_stands_behind_the_last_slash(folder, hidden);
    } else {
        assert(dotted =~= folder + seq!['/', '.', '.']);
        the_name_stands_behind_the_last_slash(folder, file);
    }
}

/// The image folders of a recording are these four.
pub proof fn a_recording_has_four_image_folders(folder: Seq<char>, path: Seq<char>)
    ensures
        lies_in_any(path, image_folders(folder)) <==> lies_in(path, joined(folder, "thumbs"@))
            || lies_in(path, joined(folder, "full"@)) || lies_in(path, joined(folder, "preview"@))
            || lies_in(path, joined(folder, "sub"@)),
{
    let all = image_folders(folder);
    assert(all[0] == joined(folder, "thumbs"@) && all[1] == joined(folder, "full"@) && all[2]
        == joined(folder, "preview"@) && all[3] == joined(folder, "sub"@));
    if lies_in_any(path, all) {
        let k = choose|k: int| 0 <= k < all.len() && lies_in(path, #[trigger] all[k]);
        assert(k == 0 || k == 1 || k == 2 || k == 3);
    }
}

/// What was put in a folder lies in it; what lies deeper does not.
pub proof fn a_file_put_in_a_folder_lies_in_it(folder: Seq<char>, name: Seq<char>, deeper: Seq<char>)
    requires
        name.len() > 0,
        forall|i: int| 0 <= i < name.len() ==> #[trigger] name[i] != '/',
    ensures
        lies_in(folder + seq!['/'] + name, folder),
        !lies_in(folder + seq!['/'] + name + seq!['/'] + deeper, folder),
        !lies_in(folder, folder),
{
    let path = folder + seq!['/'] + name;
    assert(folder + seq!['/'] =~= path.subrange(0, folder.len() as int + 1));
    assert forall|i: int| folder.len() < i < path.len() implies path[i] != '/' by {
        assert(path[i] == name[i - folder.len() - 1]);
    }
    let deep = path + seq!['/'] + deeper;
    assert(deep[path.len() as int] == '/');
}

/// Of the entries of several folders, the bytes add up; folders themselves take none.
pub proof fn bytes_of_files_add_up(a: Seq<CacheEntry>, b: Seq<CacheEntry>, e: CacheEntry)
    ensures
        file_bytes(a + b) == file_bytes(a) + file_bytes(b),
        file_bytes(seq![e]) == (if e.is_file {
            e.size as int
        } else {
            0
        }),
    decreases b.len(),
{
    reveal_with_fuel(file_bytes, 2);
    assert(seq![e].drop_last() =~= Seq::empty());
    if b.len() == 0 {
        assert(a + b =~= a);
    } else {
        bytes_of_files_add_up(a, b.drop_last(), e);
        assert((a + b).drop_last() =~= a + b.drop_last());
    }
}

/// The bytes of images add up.
pub proof fn bytes_of_images_add_up(a: Seq<CacheFile>, b: Seq<CacheFile>, f: CacheFile)
    ensures
        total_size(a + b) == total_size(a) + total_size(b),
        total_size(seq![f]) == f.size,
    decreases b.len(),
{
    reveal_with_fuel(total_size, 2);
    assert(seq![f].drop_last() =~= Seq::empty());
    if b.len() == 0 {
        assert(a + b =~= a);
    } else {
        bytes_of_images_add_up(a, b.drop_last(), f);
        assert((a + b).drop_last() =~= a + b.drop_last());
    }
}

/// Every file in an image folder is part of the image cache, with its path, its size and
/// its time; one whose time is not known counts as the oldest there can be since 1970.
pub proof fn every_image_counts(a: Seq<CacheEntry>, e: CacheEntry, b: Seq<CacheEntry>)
    ensures
        image_files_of(a + seq![e] + b) == image_files_of(a) + (if e.is_file && (e.folder@
            == "thumbs"@ || e.folder@ == "full"@ || e.folder@ == "preview"@ || e.folder@
            == "sub"@) {
            seq![
                CacheFile {
                    path: e.path,
                    size: e.size,
                    modified: if e.modified is Some {
                        e.modified->0
                    } else {
                        0
                    },
                },
            ]
        } else {
            Seq::empty()
        }) + image_files_of(b),
        image_files_of(Seq::empty()) == Seq::<CacheFile>::empty(),
    decreases b.len(),
{
    let all = a + seq![e] + b;
    if b.len() == 0 {
        assert(all =~= a.push(e));
        assert(a.push(e).drop_last() =~= a);
        assert(image_files_of(all) =~= image_files_of(a) + (if e.is_file && is_image_folder(
            e.folder@,
        ) {
            seq![as_cache_file(e)]
        } else {
            Seq::empty()
        }) + image_files_of(b));
    } else {
        every_image_counts(a, e, b.drop_last());
        assert(all.drop_last() =~= a + seq![e] + b.drop_last());
        assert(all.last() == b.last());
        let middle = if e.is_file && is_image_folder(e.folder@) {
            seq![as_cache_file(e)]
        } else {
            Seq::empty()
        };
        if b.last().is_file && is_image_folder(b.last().folder@) {
            assert((image_files_of(a) + middle + image_files_of(b.drop_last())).push(
                as_cache_file(b.last()),
            ) =~= image_files_of(a) + middle + image_files_of(b));
        }
    }
}

/// While too many bytes are taken, the oldest file that has not been tried goes next; one
/// that could not be removed keeps its bytes, one that was removed gives them back.
pub proof fn the_oldest_file_goes_next(files: Seq<CacheFile>, max_bytes: int)
    requires
        total_size(files) > max_bytes >= 0,
    ensures
        ({
            let s = CleanupState::start(files, max_bytes);
            &&& s.next() is Some
            &&& files.contains(s.next()->0)
            &&& forall|i: int|
                0 <= i < files.len() ==> s.next()->0.modified <= (#[trigger] files[i]).modified
            &&& s.record(true).total == total_size(files) - s.next()->0.size
            &&& s.record(true).freed == s.next()->0.size
            &&& s.record(false).total == total_size(files)
            &&& s.record(false).freed == 0
        }),
{
    broadcast use vstd::seq_lib::group_to_multiset_ensures;

    by_age_sorts(files);
    let sorted = by_age(files);
    assert(files.len() > 0);
    let first = sorted[0];
    assert(sorted.contains(first));
    assert(files.to_multiset().count(first) > 0);
    assert(files.contains(first));
    assert forall|i: int| 0 <= i < files.len() implies first.modified <= (
    #[trigger] files[i]).modified by {
        assert(files.contains(files[i]));
        assert(sorted.to_multiset().count(files[i]) > 0);
        assert(sorted.contains(files[i]));
        let k = choose|k: int| 0 <= k < sorted.len() && sorted[k] == files[i];
        assert(sorted[0].modified <= sorted[k].modified);
    }
}

/// The files last written to at one time, in their order.
pub open spec fn written_at(files: Seq<CacheFile>, time: i128) -> Seq<CacheFile> {
    files.filter(|f: CacheFile| f.modified == time)
}

proof fn lemma_written_at_push(files: Seq<CacheFile>, file: CacheFile, time: i128)
    ensures
        written_at(files.push(file), time) == (if file.modified == time {
            written_at(files, time).push(file)
        } else {
            written_at(files, time)
        }),
{
    reveal(Seq::filter);
    assert(files.push(file).drop_last() =~= files);
}

proof fn lemma_insert_is_stable(files: Seq<CacheFile>, file: CacheFile, time: i128)
    ensures
        written_at(insert_by_age(files, file), time) == written_at(files.push(file), time),
    decreases files.len(),
{
    if files.len() > 0 && files.last().modified > file.modified {
        let front = files.drop_last();
        lemma_insert_is_stable(front, file, time);
        lemma_written_at_push(insert_by_age(front, file), files.last(), time);
        lemma_written_at_push(front, file, time);
        lemma_written_at_push(front, files.last(), time);
        lemma_written_at_push(files, file, time);
        assert(front.push(files.last()) =~= files);
    }
}

/// Files of one age stay in the order in which they came.
pub proof fn files_of_one_age_stay_in_order(files: Seq<CacheFile>, time: i128)
    ensures
        written_at(by_age(files), time) == written_at(files, time),
    decreases files.len(),
{
    if files.len() > 0 {
        let front = files.drop_last();
        files_of_one_age_stay_in_order(front, time);
        lemma_insert_is_stable(by_age(front), files.last(), time);
        lemma_written_at_push(by_age(front), files.last(), time);
        lemma_written_at_push(front, files.last(), time);
        assert(front.push(files.last()) =~= files);
    }
}

/// Files are tried one after another, as long as too many bytes are taken.
pub proof fn files_are_tried_one_after_another(s: CleanupState, removed: bool)
    requires
        0 <= s.at <= s.queue.len(),
    ensures
        s.next() is Some <==> s.total > s.max_bytes && s.at < s.queue.len(),
        s.next() matches Some(f) ==> f == s.queue[s.at],
        s.record(removed).at == s.at + 1,
        s.record(removed).queue == s.queue,
        s.record(removed).max_bytes == s.max_bytes,
        s.record(true).total == s.total - s.queue[s.at].size,
        s.record(true).freed == s.freed + s.queue[s.at].size,
        s.record(false).total == s.total,
        s.record(false).freed == s.freed,
{
}

/// Clearing counts what lies directly in the folders, and nothing else.
pub proof fn clearing_counts_what_lies_in_the_folders(
    entries: Seq<CacheEntry>,
    e: CacheEntry,
    folders: Seq<Seq<char>>,
)
    ensures
        entries_in(entries.push(e), folders) == (if exists|k: int|
            0 <= k < folders.len() && lies_in(e.path@, #[trigger] folders[k]) {
            entries_in(entries, folders).push(e)
        } else {
            entries_in(entries, folders)
        }),
{
    reveal(Seq::filter);
    assert(entries.push(e).drop_last() =~= entries);
}

/// The images of all recordings are those of each.
pub proof fn the_images_of_all_are_those_of_each(
    recordings: Seq<Seq<char>>,
    folder: Seq<char>,
    cache_dir: Seq<char>,
    path: Seq<char>,
)
    ensures
        all_image_folders(recordings.push(folder)) == all_image_folders(recordings) + image_folders(
            folder,
        ),
        all_image_folders(Seq::empty()) == Seq::<Seq<char>>::empty(),
        recording_folder(cache_dir, path) is None ==> folders_to_clear(cache_dir, path).len() == 0,
        recording_folder(cache_dir, path) matches Some(own) ==> folders_to_clear(cache_dir, path)
            == image_folders(own),
{
    assert(recordings.push(folder).drop_last() =~= recordings);
}

} // verus!
