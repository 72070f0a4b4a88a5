//! Where the images of a caption are kept.
use vstd::prelude::*;

use crate::paths::{
    file_stem, join, joined, stem_of_path, the_name_stands_behind_the_last_slash,
    the_stem_stands_before_the_last_dot,
};
use crate::text::{
    ascii_digit, dec, decimal_reads_back, padded_dec, padded_decimal_reads_back, push_dec,
    push_padded_dec, push_signed_dec, push_text, signed_dec, texts, written_number_reads_back,
};

verus! {

/// The stem that names a recording's folder in the cache.
pub open spec fn recording_stem(path: Seq<char>) -> Seq<char> {
    match file_stem(path) {
        Some(stem) => stem,
        None => "unknown"@,
    }
}

pub fn ts_stem(ts_path: &str) -> (stem: String)
    ensures
        stem@ == recording_stem(ts_path@),
{
    match stem_of_path(ts_path) {
        Some(stem) => stem,
        None => "unknown".to_string(),
    }
}

/// An image of a caption: the caption, and the frame in two digits.
pub open spec fn frame_name(id: int, n: nat) -> Seq<char> {
    signed_dec(id) + "_"@ + padded_dec(n, 2) + ".jpg"@
}

fn write_frame_name(id: i64, n: u32) -> (s: String)
    ensures
        s@ == frame_name(id as int, n as nat),
{
    let mut s = String::new();
    push_signed_dec(&mut s, id);
    s.append("_");
    push_padded_dec(&mut s, n as u64, 2);
    s.append(".jpg");
    assert(s@ =~= frame_name(id as int, n as nat));
    s
}

/// A file in one of the folders of a recording.
pub open spec fn cached(
    cache_dir: Seq<char>,
    stem: Seq<char>,
    kind: Seq<char>,
    name: Seq<char>,
) -> Seq<char> {
    joined(joined(joined(cache_dir, stem), kind), name)
}

fn cached_path(cache_dir: &str, stem: &str, kind: &str, name: &str) -> (p: String)
    ensures
        p@ == cached(cache_dir@, stem@, kind@, name@),
{
    join(join(join(cache_dir, stem).as_str(), kind).as_str(), name)
}

/// Where a thumbnail is kept.
pub fn thumb_path(cache_dir: &str, stem: &str, id: i64, n: u32) -> (p: String)
    ensures
        p@ == cached(cache_dir@, stem@, "thumbs"@, frame_name(id as int, n as nat)),
{
    cached_path(cache_dir, stem, "thumbs", write_frame_name(id, n).as_str())
}

/// Where a full image is kept.
pub fn full_path(cache_dir: &str, stem: &str, id: i64, n: u32) -> (p: String)
    ensures
        p@ == cached(cache_dir@, stem@, "full"@, frame_name(id as int, n as nat)),
{
    cached_path(cache_dir, stem, "full", write_frame_name(id, n).as_str())
}

/// Where a full image without the caption is kept.
pub fn full_nosub_path(cache_dir: &str, stem: &str, id: i64, n: u32) -> (p: String)
    ensures
        p@ == cached(
            cache_dir@,
            stem@,
            "full"@,
            signed_dec(id as int) + "_"@ + padded_dec(n as nat, 2) + "_nosub.jpg"@,
        ),
{
    let mut name = String::new();
    push_signed_dec(&mut name, id);
    name.append("_");
    push_padded_dec(&mut name, n as u64, 2);
    name.append("_nosub.jpg");
    assert(name@ =~= signed_dec(id as int) + "_"@ + padded_dec(n as nat, 2) + "_nosub.jpg"@);
    cached_path(cache_dir, stem, "full", name.as_str())
}

/// Where the image that stands for a caption is kept.
pub fn preview_path(cache_dir: &str, stem: &str, id: i64) -> (p: String)
    ensures
        p@ == cached(cache_dir@, stem@, "preview"@, signed_dec(id as int) + ".jpg"@),
{
    let mut name = String::new();
    push_signed_dec(&mut name, id);
    name.append(".jpg");
    assert(name@ =~= signed_dec(id as int) + ".jpg"@);
    cached_path(cache_dir, stem, "preview", name.as_str())
}

/// Where the picture of a caption is kept.
pub fn sub_path(cache_dir: &str, stem: &str, id: i64) -> (p: String)
    ensures
        p@ == cached(cache_dir@, stem@, "sub"@, signed_dec(id as int) + ".png"@),
{
    let mut name = String::new();
    push_signed_dec(&mut name, id);
    name.append(".png");
    assert(name@ =~= signed_dec(id as int) + ".png"@);
    cached_path(cache_dir, stem, "sub", name.as_str())
}

/// Where the caption file of a recording is kept.
pub fn pes_blob_path(cache_dir: &str, stem: &str) -> (p: String)
    ensures
        p@ == joined(joined(cache_dir@, stem@), "captions.pes"@),
{
    join(join(cache_dir, stem).as_str(), "captions.pes")
}

/// Where the command writes thumbnail `n` before it gets its name; the command
/// counts from one.
pub fn thumb_tmp_path(cache_dir: &str, stem: &str, n: u32) -> (p: String)
    ensures
        p@ == cached(cache_dir@, stem@, "thumbs"@, "_tmp_"@ + dec((n + 1) as nat) + ".jpg"@),
{
    let mut name = "_tmp_".to_string();
    push_dec(&mut name, n as u64 + 1);
    name.append(".jpg");
    assert(name@ =~= "_tmp_"@ + dec((n + 1) as nat) + ".jpg"@);
    cached_path(cache_dir, stem, "thumbs", name.as_str())
}

/// Where the command writes thumbnails.
pub fn thumb_tmp_pattern(cache_dir: &str, stem: &str) -> (p: String)
    ensures
        p@ == cached(cache_dir@, stem@, "thumbs"@, "_tmp_%d.jpg"@),
{
    cached_path(cache_dir, stem, "thumbs", "_tmp_%d.jpg")
}

/// What to remove to make a caption's images again: two patterns of files, and
/// two files.
pub struct CaptionCacheFiles {
    pub patterns: Vec<String>,
    pub files: Vec<String>,
}

/// What to remove to make a caption's images again.
pub fn clear_caption_cache(cache_dir: &str, stem: &str, id: i64) -> (r: CaptionCacheFiles)
    ensures
        texts(r.patterns@) == seq![
            cached(cache_dir@, stem@, "thumbs"@, signed_dec(id as int) + "_*.jpg"@),
            cached(cache_dir@, stem@, "full"@, signed_dec(id as int) + "_*.jpg"@),
        ],
        texts(r.files@) == seq![
            cached(cache_dir@, stem@, "sub"@, signed_dec(id as int) + ".png"@),
            cached(cache_dir@, stem@, "preview"@, signed_dec(id as int) + ".jpg"@),
        ],
{
    let mut name = String::new();
    push_signed_dec(&mut name, id);
    name.append("_*.jpg");
    assert(name@ =~= signed_dec(id as int) + "_*.jpg"@);
    let mut patterns: Vec<String> = Vec::new();
    push_text(&mut patterns, cached_path(cache_dir, stem, "thumbs", name.as_str()).as_str());
    push_text(&mut patterns, cached_path(cache_dir, stem, "full", name.as_str()).as_str());
    let mut files: Vec<String> = Vec::new();
    push_text(&mut files, sub_path(cache_dir, stem, id).as_str());
    push_text(&mut files, preview_path(cache_dir, stem, id).as_str());
    assert(texts(patterns@) =~= seq![
        cached(cache_dir@, stem@, "thumbs"@, signed_dec(id as int) + "_*.jpg"@),
        cached(cache_dir@, stem@, "full"@, signed_dec(id as int) + "_*.jpg"@),
    ]);
    assert(texts(files@) =~= seq![
        cached(cache_dir@, stem@, "sub"@, signed_dec(id as int) + ".png"@),
        cached(cache_dir@, stem@, "preview"@, signed_dec(id as int) + ".jpg"@),
    ]);
    CaptionCacheFiles { patterns, files }
}

/// Whether a full image shows the caption.
#[derive(Debug, Clone, Copy, PartialEq, Eq, Structural)]
pub enum SubMode {
    /// The frame alone.
    Raw,
    /// The frame with the caption on it.
    Burned,
}

/// The name of a full image, by whether it shows the caption.
pub open spec fn full_name(id: int, n: nat, mode: SubMode) -> Seq<char> {
    match mode {
        SubMode::Burned => frame_name(id, n),
        SubMode::Raw => signed_dec(id) + "_"@ + padded_dec(n, 2) + "_nosub.jpg"@,
    }
}

/// Where a full image is kept, by whether it shows the caption.
pub fn full_image_path(cache_dir: &str, stem: &str, id: i64, n: u32, mode: SubMode) -> (p: String)
    ensures
        p@ == cached(cache_dir@, stem@, "full"@, full_name(id as int, n as nat, mode)),
{
    match mode {
        SubMode::Burned => full_path(cache_dir, stem, id, n),
        SubMode::Raw => full_nosub_path(cache_dir, stem, id, n),
    }
}

/// Where the thumbnails of a caption belong.
pub open spec fn thumb_files(cache_dir: Seq<char>, stem: Seq<char>, id: int, count: nat) -> Seq<
    Seq<char>,
> {
    Seq::new(count, |n: int| cached(cache_dir, stem, "thumbs"@, frame_name(id, n as nat)))
}

/// Where the command leaves the thumbnails of a caption.
pub open spec fn thumb_tmp_files(cache_dir: Seq<char>, stem: Seq<char>, count: nat) -> Seq<
    Seq<char>,
> {
    Seq::new(
        count,
        |n: int| cached(cache_dir, stem, "thumbs"@, "_tmp_"@ + dec((n + 1) as nat) + ".jpg"@),
    )
}

/// Where the thumbnails of a caption belong.
pub fn thumb_outputs(cache_dir: &str, stem: &str, id: i64, count: u32) -> (files: Vec<String>)
    ensures
        texts(files@) == thumb_files(cache_dir@, stem@, id as int, count as nat),
{
    let mut files: Vec<String> = Vec::new();
    let mut n: u32 = 0;
    assert(texts(files@) =~= thumb_files(cache_dir@, stem@, id as int, 0));
    while n < count
        invariant
            n <= count,
            texts(files@) == thumb_files(cache_dir@, stem@, id as int, n as nat),
        decreases count - n,
    {
        push_text(&mut files, thumb_path(cache_dir, stem, id, n).as_str());
        n = n + 1;
        assert(texts(files@) =~= thumb_files(cache_dir@, stem@, id as int, n as nat));
    }
    files
}

pub fn thumb_temporaries(cache_dir: &str, stem: &str, count: u32) -> (files: Vec<String>)
    ensures
        texts(files@) == thumb_tmp_files(cache_dir@, stem@, count as nat),
{
    let mut files: Vec<String> = Vec::new();
    let mut n: u32 = 0;
    assert(texts(files@) =~= thumb_tmp_files(cache_dir@, stem@, 0));
    while n < count
        invariant
            n <= count,
            texts(files@) == thumb_tmp_files(cache_dir@, stem@, n as nat),
        decreases count - n,
    {
        push_text(&mut files, thumb_tmp_path(cache_dir, stem, n).as_str());
        n = n + 1;
        assert(texts(files@) =~= thumb_tmp_files(cache_dir@, stem@, n as nat));
    }
    files
}

/// Characters of a number in decimal are digits, but for a sign at its start.
proof fn lemma_no_underscore(id: int)
    ensures
        forall|i: int| 0 <= i < signed_dec(id).len() ==> #[trigger] signed_dec(id)[i] != '_',
{
    if id < 0 {
        decimal_reads_back((-id) as nat);
        assert forall|i: int| 0 <= i < signed_dec(id).len() implies #[trigger] signed_dec(id)[i]
            != '_' by {
            if i > 0 {
                assert(signed_dec(id)[i] == dec((-id) as nat)[i - 1]);
                assert(ascii_digit(dec((-id) as nat)[i - 1]) is Some);
            }
        }
    } else {
        decimal_reads_back(id as nat);
        assert forall|i: int| 0 <= i < signed_dec(id).len() implies #[trigger] signed_dec(id)[i]
            != '_' by {
            assert(ascii_digit(dec(id as nat)[i]) is Some);
        }
    }
}

/// A name that starts with one caption and an underscore starts with no other
/// caption and an underscore: clearing the images of a caption by that start
/// touches no other caption's.
pub proof fn images_belong_to_one_caption(a: i64, b: i64, rest: Seq<char>)
    requires
        (signed_dec(a as int) + seq!['_']).is_prefix_of(signed_dec(b as int) + seq!['_'] + rest),
    ensures
        a == b,
{
    let da = signed_dec(a as int);
    let db = signed_dec(b as int);
    let start = da + seq!['_'];
    let name = db + seq!['_'] + rest;
    lemma_no_underscore(a as int);
    lemma_no_underscore(b as int);
    assert(forall|i: int| 0 <= i < start.len() ==> start[i] == name[i]) by {
        assert(start =~= name.subrange(0, start.len() as int));
    }
    assert(start[da.len() as int] == '_');
    if da.len() < db.len() {
        assert(name[da.len() as int] == db[da.len() as int]);
        assert(db[da.len() as int] != '_');
    } else if db.len() < da.len() {
        assert(name[db.len() as int] == '_');
        assert(start[db.len() as int] == da[db.len() as int]);
        assert(da[db.len() as int] != '_');
    }
    assert(da.len() == db.len());
    assert forall|i: int| 0 <= i < da.len() implies da[i] == db[i] by {
        assert(start[i] == name[i]);
    }
    assert(da =~= db);
    written_number_reads_back(a);
    written_number_reads_back(b);
}

/// Every frame of every caption has an image of its own name.
pub proof fn frame_names_are_distinct(a: i64, m: nat, b: i64, n: nat)
    requires
        frame_name(a as int, m) == frame_name(b as int, n),
    ensures
        a == b,
        m == n,
{
    reveal_strlit("_");
    reveal_strlit(".jpg");
    let rest = padded_dec(n, 2) + ".jpg"@;
    let da = signed_dec(a as int);
    assert("_"@ =~= seq!['_']);
    assert(frame_name(a as int, m) =~= da + seq!['_'] + (padded_dec(m, 2) + ".jpg"@));
    assert(frame_name(b as int, n) =~= signed_dec(b as int) + seq!['_'] + rest);
    assert((da + seq!['_']).is_prefix_of(frame_name(a as int, m))) by {
        assert(da + seq!['_'] =~= frame_name(a as int, m).subrange(0, da.len() as int + 1));
    }
    images_belong_to_one_caption(a, b, rest);
    let (pm, pn) = (padded_dec(m, 2), padded_dec(n, 2));
    let name = frame_name(a as int, m);
    let at = da.len() as int + 1;
    assert(pm.len() == pn.len());
    assert(pm =~= name.subrange(at, at + pm.len()));
    assert(pn =~= name.subrange(at, at + pn.len()));
    padded_decimal_reads_back(m, 2);
    padded_decimal_reads_back(n, 2);
}

/// A file of a recording lies in the folder of its kind, in the folder of the recording,
/// in the cache.
pub proof fn files_lie_in_the_folder_of_their_kind(
    cache_dir: Seq<char>,
    stem: Seq<char>,
    kind: Seq<char>,
    name: Seq<char>,
)
    requires
        cache_dir.len() > 0,
        cache_dir.last() != '/',
        stem.len() > 0,
        stem[0] != '/',
        stem.last() != '/',
        kind.len() > 0,
        kind[0] != '/',
        kind.last() != '/',
        name.len() > 0,
        name[0] != '/',
    ensures
        cached(cache_dir, stem, kind, name) == cache_dir + seq!['/'] + stem + seq!['/'] + kind
            + seq!['/'] + name,
{
    let one = joined(cache_dir, stem);
    assert(one.last() == stem.last());
    let two = joined(one, kind);
    assert(two.last() == kind.last());
}

/// A recording is named by its file name without the ending.
pub proof fn a_recording_is_named_by_its_file(folder: Seq<char>, name: Seq<char>, ending: Seq<char>)
    requires
        name.len() > 0,
        name[0] != '.',
        forall|i: int| 0 <= i < name.len() ==> #[trigger] name[i] != '/',
        forall|i: int| 0 <= i < ending.len() ==> (#[trigger] ending[i]) != '/' && ending[i] != '.',
    ensures
        recording_stem(folder + seq!['/'] + (name + seq!['.'] + ending)) == name,
        recording_stem(Seq::empty()) == "unknown"@,
{
    let file = name + seq!['.'] + ending;
    assert(file[0] == name[0]);
    assert forall|i: int| 0 <= i < file.len() implies #[trigger] file[i] != '/' by {
        if i < name.len() {
            assert(file[i] == name[i]);
        } else if i > name.len() {
            assert(file[i] == ending[i - name.len() - 1]);
        }
    }
    assert(file[0] != '.' && seq!['.'][0] == '.' && seq!['.', '.'][0] == '.');
    the_name_stands_behind_the_last_slash(folder, file);
    the_stem_stands_before_the_last_dot(name, ending);
    assert(Seq::<char>::empty().skip(0) =~= Seq::empty());
}

/// The images of a caption: with the caption on it, or alone, a full image has a name of
/// its own; the command numbers thumbnails from one, the frames count from zero.
pub proof fn images_are_named_by_caption_and_frame(
    cache_dir: Seq<char>,
    stem: Seq<char>,
    id: int,
    n: nat,
    count: nat,
)
    requires
        n < count,
    ensures
        full_name(id, n, SubMode::Burned) == signed_dec(id) + "_"@ + padded_dec(n, 2) + ".jpg"@,
        full_name(id, n, SubMode::Raw) == signed_dec(id) + "_"@ + padded_dec(n, 2) + "_nosub.jpg"@,
        full_name(id, n, SubMode::Raw) != full_name(id, n, SubMode::Burned),
        thumb_files(cache_dir, stem, id, count).len() == count,
        thumb_tmp_files(cache_dir, stem, count).len() == count,
        thumb_files(cache_dir, stem, id, count)[n as int] == cached(
            cache_dir,
            stem,
            "thumbs"@,
            signed_dec(id) + "_"@ + padded_dec(n, 2) + ".jpg"@,
        ),
        thumb_tmp_files(cache_dir, stem, count)[n as int] == cached(
            cache_dir,
            stem,
            "thumbs"@,
            "_tmp_"@ + dec(n + 1) + ".jpg"@,
        ),
{
    reveal_strlit(".jpg");
    reveal_strlit("_nosub.jpg");
    assert(".jpg"@.len() == 4 && "_nosub.jpg"@.len() == 10);
    assert(full_name(id, n, SubMode::Raw).len() == full_name(id, n, SubMode::Burned).len() + 6);
}

} // verus!
