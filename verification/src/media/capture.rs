//! The command that cuts still images of a caption.
use vstd::prelude::*;

use crate::config::CaptureConfig;
use crate::double::{millionths, one, one_is_large, rounded_fractions_are_near, Double};
use crate::paths::{join, joined};
use crate::text::{dec, padded_dec, push_dec, push_padded_dec, push_text, signed_dec, texts};

pub use crate::media::files::{
    cached, clear_caption_cache, frame_name, full_image_path, full_name, full_nosub_path, full_path,
    pes_blob_path, preview_path, recording_stem, sub_path, thumb_files, thumb_outputs, thumb_path,
    thumb_temporaries, thumb_tmp_files, thumb_tmp_path, thumb_tmp_pattern, ts_stem,
    CaptionCacheFiles, SubMode,
};
pub use crate::media::frames::{
    can_be_written, caption_window, decode_time, decode_window, frame_index, frame_indices,
    frame_list, pre_seek, preview_target, preview_target_sec, size, FPS_DEN, FPS_NUM,
};

verus! {

/// A time in seconds with six decimals.
pub open spec fn seconds_text(v: int) -> Seq<char> {
    let us = millionths(size(v));
    (if v < 0 {
        "-"@
    } else {
        Seq::empty()
    }) + dec((us / 1_000_000) as nat) + "."@ + padded_dec((us % 1_000_000) as nat, 6)
}

fn write_seconds(v: &Double) -> (s: String)
    requires
        can_be_written(v@),
    ensures
        s@ == seconds_text(v@),
{
    let mut s = String::new();
    if v.is_negative() {
        s.append("-");
    }
    let us: u128 = v.size_in_millionths();
    push_dec(&mut s, (us / 1_000_000) as u64);
    s.append(".");
    push_padded_dec(&mut s, (us % 1_000_000) as u64, 6);
    assert(s@ =~= seconds_text(v@));
    s
}

fn write_dec(n: u64) -> (s: String)
    ensures
        s@ == dec(n as nat),
{
    let mut s = String::new();
    push_dec(&mut s, n);
    assert(s@ =~= dec(n as nat));
    s
}

/// What to cut, and how.
pub struct CaptureParams<'a> {
    pub ts_path: &'a str,
    /// Where decoding starts, in seconds.
    pub pre_seek: Double,
    /// How long it goes on, in seconds.
    pub dur: Double,
    /// Which of the decoded frames to keep.
    pub frame_nums: &'a [u64],
    /// The picture of the caption to lay over the frames.
    pub sub_png: Option<&'a str>,
    pub width: u32,
    pub height: u32,
    /// The quality of the images; lower is better.
    pub quality: u32,
    /// Where to write; `%d` stands for the number of the image.
    pub out_pattern: &'a str,
}

/// What to cut, and how, as mathematical values.
pub ghost struct CaptureModel {
    pub ts_path: Seq<char>,
    pub pre_seek: int,
    pub dur: int,
    pub frame_nums: Seq<u64>,
    pub sub_png: Option<Seq<char>>,
    pub width: u32,
    pub height: u32,
    pub quality: u32,
    pub out_pattern: Seq<char>,
}

pub open spec fn str_opt(s: Option<&str>) -> Option<Seq<char>> {
    match s {
        Some(t) => Some(t@),
        None => None,
    }
}

impl<'a> View for CaptureParams<'a> {
    type V = CaptureModel;

    open spec fn view(&self) -> CaptureModel {
        CaptureModel {
            ts_path: self.ts_path@,
            pre_seek: self.pre_seek@,
            dur: self.dur@,
            frame_nums: self.frame_nums@,
            sub_png: str_opt(self.sub_png),
            width: self.width,
            height: self.height,
            quality: self.quality,
            out_pattern: self.out_pattern@,
        }
    }
}

/// The expression that picks frames.
pub open spec fn select_expr(frames: Seq<u64>) -> Seq<char>
    decreases frames.len(),
{
    if frames.len() == 0 {
        Seq::empty()
    } else {
        let last = "eq(n\\,"@ + dec(frames.last() as nat) + ")"@;
        if frames.len() == 1 {
            last
        } else {
            select_expr(frames.drop_last()) + "+"@ + last
        }
    }
}

/// Writes the expression that picks frames.
pub fn build_select_expr(frame_nums: &[u64]) -> (s: String)
    ensures
        s@ == select_expr(frame_nums@),
{
    let mut s = String::new();
    let mut i: usize = 0;
    assert(frame_nums@.take(0) =~= Seq::empty());
    while i < frame_nums.len()
        invariant
            i <= frame_nums@.len(),
            s@ == select_expr(frame_nums@.take(i as int)),
        decreases frame_nums@.len() - i,
    {
        let ghost before = s@;
        if i > 0 {
            s.append("+");
        }
        s.append("eq(n\\,");
        push_dec(&mut s, frame_nums[i]);
        s.append(")");
        proof {
            let next = frame_nums@.take(i + 1);
            assert(next.drop_last() =~= frame_nums@.take(i as int));
            assert(s@ =~= select_expr(next));
        }
        i = i + 1;
    }
    assert(frame_nums@.take(i as int) =~= frame_nums@);
    s
}

/// A size in the filter language.
pub open spec fn scale(w: u32, h: u32) -> Seq<char> {
    "scale="@ + dec(w as nat) + ":"@ + dec(h as nat)
}

/// The filters for the frames: deinterlace, pick, renumber, scale.
pub open spec fn frame_filter(frames: Seq<u64>, w: u32, h: u32) -> Seq<char> {
    "bwdif=mode=send_frame,select='"@ + select_expr(frames) + "',setpts=N/FRAME_RATE/TB,"@ + scale(
        w,
        h,
    ) + ",setsar=1"@
}

fn push_scale(s: &mut String, w: u32, h: u32)
    ensures
        final(s)@ == old(s)@ + scale(w, h),
{
    s.append("scale=");
    push_dec(s, w as u64);
    s.append(":");
    push_dec(s, h as u64);
    assert(s@ =~= old(s)@ + scale(w, h));
}

fn push_frame_filter(s: &mut String, frames: &[u64], w: u32, h: u32)
    ensures
        final(s)@ == old(s)@ + frame_filter(frames@, w, h),
{
    s.append("bwdif=mode=send_frame,select='");
    s.append(build_select_expr(frames).as_str());
    s.append("',setpts=N/FRAME_RATE/TB,");
    push_scale(s, w, h);
    s.append(",setsar=1");
    assert(s@ =~= old(s)@ + frame_filter(frames@, w, h));
}

/// The arguments of the command.  The place to start from stands before the
/// input, so that the command seeks rather than decodes up to it.
pub open spec fn capture_args(p: CaptureModel) -> Seq<Seq<char>> {
    let start = seq![
        "-y"@,
        "-ss"@,
        seconds_text(p.pre_seek),
        "-t"@,
        seconds_text(p.dur),
        "-i"@,
        "file:"@ + p.ts_path,
    ];
    let end = seq![
        "-fps_mode"@,
        "vfr"@,
        "-frames:v"@,
        dec(p.frame_nums.len()),
        "-q:v"@,
        dec(p.quality as nat),
        p.out_pattern,
    ];
    let frames = frame_filter(p.frame_nums, p.width, p.height);
    match p.sub_png {
        Some(sub) => start + seq![
            "-i"@,
            sub,
            "-filter_complex"@,
            "[0:v]"@ + frames + "[v];[1:v]"@ + scale(p.width, p.height)
                + "[s];[v][s]overlay=eof_action=repeat[out]"@,
            "-map"@,
            "[out]"@,
        ] + end,
        None => start + seq!["-vf"@, frames] + end,
    }
}

/// Writes the arguments of the command that cuts frames.
pub fn build_ffmpeg_args(p: &CaptureParams<'_>) -> (args: Vec<String>)
    requires
        can_be_written(p.pre_seek@),
        can_be_written(p.dur@),
    ensures
        texts(args@) == capture_args(p@),
{
    let mut args: Vec<String> = Vec::new();
    let mut url = "file:".to_string();
    url.append(p.ts_path);
    push_text(&mut args, "-y");
    push_text(&mut args, "-ss");
    push_text(&mut args, write_seconds(&p.pre_seek).as_str());
    push_text(&mut args, "-t");
    push_text(&mut args, write_seconds(&p.dur).as_str());
    push_text(&mut args, "-i");
    push_text(&mut args, url.as_str());
    match p.sub_png {
        Some(sub) => {
            let mut filter = "[0:v]".to_string();
            push_frame_filter(&mut filter, p.frame_nums, p.width, p.height);
            filter.append("[v];[1:v]");
            push_scale(&mut filter, p.width, p.height);
            filter.append("[s];[v][s]overlay=eof_action=repeat[out]");
            push_text(&mut args, "-i");
            push_text(&mut args, sub);
            push_text(&mut args, "-filter_complex");
            push_text(&mut args, filter.as_str());
            push_text(&mut args, "-map");
            push_text(&mut args, "[out]");
        },
        None => {
            let mut filter = String::new();
            push_frame_filter(&mut filter, p.frame_nums, p.width, p.height);
            assert(filter@ =~= frame_filter(p.frame_nums@, p.width, p.height));
            push_text(&mut args, "-vf");
            push_text(&mut args, filter.as_str());
        },
    }
    push_text(&mut args, "-fps_mode");
    push_text(&mut args, "vfr");
    push_text(&mut args, "-frames:v");
    push_text(&mut args, write_dec(p.frame_nums.len() as u64).as_str());
    push_text(&mut args, "-q:v");
    push_text(&mut args, write_dec(p.quality as u64).as_str());
    push_text(&mut args, p.out_pattern);
    assert(texts(args@) =~= capture_args(p@));
    args
}

/// The arguments of the command that cuts one frame, straight from its place.
pub open spec fn single_frame_args(
    ts_path: Seq<char>,
    target: int,
    w: u32,
    h: u32,
    quality: u32,
    out_path: Seq<char>,
) -> Seq<Seq<char>> {
    seq![
        "-y"@,
        "-ss"@,
        seconds_text(target),
        "-i"@,
        "file:"@ + ts_path,
        "-vf"@,
        "bwdif=mode=send_frame,"@ + scale(w, h) + ",setsar=1"@,
        "-frames:v"@,
        "1"@,
        "-q:v"@,
        dec(quality as nat),
        out_path,
    ]
}

/// Writes the arguments of the command that cuts one frame.
pub fn build_preview_args(
    ts_path: &str,
    target_sec: Double,
    width: u32,
    height: u32,
    quality: u32,
    out_path: &str,
) -> (args: Vec<String>)
    requires
        can_be_written(target_sec@),
    ensures
        texts(args@) == single_frame_args(
            ts_path@,
            target_sec@,
            width,
            height,
            quality,
            out_path@,
        ),
{
    let mut url = "file:".to_string();
    url.append(ts_path);
    let mut filter = "bwdif=mode=send_frame,".to_string();
    push_scale(&mut filter, width, height);
    filter.append(",setsar=1");
    let mut args: Vec<String> = Vec::new();
    push_text(&mut args, "-y");
    push_text(&mut args, "-ss");
    push_text(&mut args, write_seconds(&target_sec).as_str());
    push_text(&mut args, "-i");
    push_text(&mut args, url.as_str());
    push_text(&mut args, "-vf");
    push_text(&mut args, filter.as_str());
    push_text(&mut args, "-frames:v");
    push_text(&mut args, "1");
    push_text(&mut args, "-q:v");
    push_text(&mut args, write_dec(quality as u64).as_str());
    push_text(&mut args, out_path);
    assert(texts(args@) =~= single_frame_args(
        ts_path@,
        target_sec@,
        width,
        height,
        quality,
        out_path@,
    ));
    args
}

/// What the thumbnails of a caption are cut by.
pub open spec fn thumbnail_capture(
    cfg: CaptureConfig,
    ts_path: Seq<char>,
    start: int,
    end: int,
    sub_png: Option<Seq<char>>,
    out_pattern: Seq<char>,
) -> CaptureModel {
    CaptureModel {
        ts_path,
        pre_seek: pre_seek(start),
        dur: decode_time(start, end),
        frame_nums: frame_list(
            start,
            end,
            cfg.thumb_count as int,
            FPS_NUM as int,
            FPS_DEN as int,
        ),
        sub_png,
        width: cfg.thumb_width,
        height: cfg.thumb_height,
        quality: cfg.thumb_quality,
        out_pattern,
    }
}

/// The arguments of the command that cuts the thumbnails of a caption.
pub fn thumbnail_args(
    cfg: &CaptureConfig,
    ts_path: &str,
    pts_start_ms: i64,
    pts_end_ms: i64,
    sub_png: Option<&str>,
    out_pattern: &str,
) -> (args: Vec<String>)
    ensures
        texts(args@) == capture_args(
            thumbnail_capture(
                *cfg,
                ts_path@,
                pts_start_ms as int,
                pts_end_ms as int,
                str_opt(sub_png),
                out_pattern@,
            ),
        ),
{
    let (from, length) = decode_window(pts_start_ms, pts_end_ms);
    let frames = frame_indices(pts_start_ms, pts_end_ms, cfg.thumb_count, FPS_NUM, FPS_DEN);
    let p = CaptureParams {
        ts_path,
        pre_seek: from,
        dur: length,
        frame_nums: frames.as_slice(),
        sub_png,
        width: cfg.thumb_width,
        height: cfg.thumb_height,
        quality: cfg.thumb_quality,
        out_pattern,
    };
    build_ffmpeg_args(&p)
}

/// What the full image of a frame is cut by.  A frame that the caption does not
/// have is taken as the first one decoded.
pub open spec fn full_capture(
    cfg: CaptureConfig,
    ts_path: Seq<char>,
    start: int,
    end: int,
    n: int,
    sub_png: Option<Seq<char>>,
    out_path: Seq<char>,
) -> CaptureModel {
    let frames = frame_list(start, end, cfg.thumb_count as int, FPS_NUM as int, FPS_DEN as int);
    CaptureModel {
        ts_path,
        pre_seek: pre_seek(start),
        dur: decode_time(start, end),
        frame_nums: seq![
            if n < frames.len() {
                frames[n]
            } else {
                0
            },
        ],
        sub_png,
        width: cfg.width,
        height: cfg.height,
        quality: cfg.jpeg_quality,
        out_pattern: out_path,
    }
}

/// The arguments of the command that cuts the full image of frame `n`.
pub fn full_args(
    cfg: &CaptureConfig,
    ts_path: &str,
    pts_start_ms: i64,
    pts_end_ms: i64,
    n: u32,
    sub_png: Option<&str>,
    out_path: &str,
) -> (args: Vec<String>)
    ensures
        texts(args@) == capture_args(
            full_capture(
                *cfg,
                ts_path@,
                pts_start_ms as int,
                pts_end_ms as int,
                n as int,
                str_opt(sub_png),
                out_path@,
            ),
        ),
{
    let (from, length) = decode_window(pts_start_ms, pts_end_ms);
    let all = frame_indices(pts_start_ms, pts_end_ms, cfg.thumb_count, FPS_NUM, FPS_DEN);
    let frame: u64 = if (n as u64) < all.len() as u64 {
        all[n as usize]
    } else {
        0
    };
    let frames: [u64; 1] = [frame];
    let p = CaptureParams {
        ts_path,
        pre_seek: from,
        dur: length,
        frame_nums: frames.as_slice(),
        sub_png,
        width: cfg.width,
        height: cfg.height,
        quality: cfg.jpeg_quality,
        out_pattern: out_path,
    };
    assert(p@.frame_nums =~= full_capture(
        *cfg,
        ts_path@,
        pts_start_ms as int,
        pts_end_ms as int,
        n as int,
        str_opt(sub_png),
        out_path@,
    ).frame_nums);
    build_ffmpeg_args(&p)
}

/// The arguments of the command that cuts the image that stands for a caption.
pub fn preview_args(
    cfg: &CaptureConfig,
    ts_path: &str,
    pts_start_ms: i64,
    pts_end_ms: i64,
    out_path: &str,
) -> (args: Vec<String>)
    ensures
        texts(args@) == single_frame_args(
            ts_path@,
            preview_target(pts_start_ms as int, pts_end_ms as int, cfg.thumb_count as int),
            cfg.thumb_width,
            cfg.thumb_height,
            cfg.thumb_quality,
            out_path@,
        ),
{
    let target = preview_target_sec(pts_start_ms, pts_end_ms, cfg.thumb_count);
    build_preview_args(
        ts_path,
        target,
        cfg.thumb_width,
        cfg.thumb_height,
        cfg.thumb_quality,
        out_path,
    )
}

// ------------------------------------------------------------------------ jobs

/// The thumbnails of a caption, to be cut in one go.
pub struct ThumbnailJob {
    /// The folder that they go to.
    pub dir: String,
    pub args: Vec<String>,
    /// Where the command leaves each of them.
    pub temporary: Vec<String>,
    /// Where each of them belongs.
    pub outputs: Vec<String>,
}

/// What it takes to cut the thumbnails of a caption.
pub fn thumbnail_job(
    cfg: &CaptureConfig,
    cache_dir: &str,
    ts_path: &str,
    id: i64,
    pts_start_ms: i64,
    pts_end_ms: i64,
    sub_png: Option<&str>,
) -> (job: ThumbnailJob)
    ensures
        ({
            let stem = recording_stem(ts_path@);
            &&& job.dir@ == joined(joined(cache_dir@, stem), "thumbs"@)
            &&& texts(job.args@) == capture_args(
                thumbnail_capture(
                    *cfg,
                    ts_path@,
                    pts_start_ms as int,
                    pts_end_ms as int,
                    str_opt(sub_png),
                    cached(cache_dir@, stem, "thumbs"@, "_tmp_%d.jpg"@),
                ),
            )
            &&& texts(job.temporary@) == thumb_tmp_files(cache_dir@, stem, cfg.thumb_count as nat)
            &&& texts(job.outputs@) == thumb_files(
                cache_dir@,
                stem,
                id as int,
                cfg.thumb_count as nat,
            )
        }),
{
    let stem = ts_stem(ts_path);
    let dir = join(join(cache_dir, stem.as_str()).as_str(), "thumbs");
    let pattern = thumb_tmp_pattern(cache_dir, stem.as_str());
    let args = thumbnail_args(cfg, ts_path, pts_start_ms, pts_end_ms, sub_png, pattern.as_str());
    let temporary = thumb_temporaries(cache_dir, stem.as_str(), cfg.thumb_count);
    let outputs = thumb_outputs(cache_dir, stem.as_str(), id, cfg.thumb_count);
    ThumbnailJob { dir, args, temporary, outputs }
}

/// One image of a caption, to be cut.
pub struct ImageJob {
    /// The folder that it goes to.
    pub dir: String,
    pub args: Vec<String>,
    /// Where it belongs.
    pub output: String,
}

/// What it takes to cut the full image of frame `n`.  The caption is laid over it
/// only where it is to show the caption.
pub fn full_job(
    cfg: &CaptureConfig,
    cache_dir: &str,
    ts_path: &str,
    id: i64,
    pts_start_ms: i64,
    pts_end_ms: i64,
    n: u32,
    mode: SubMode,
    sub_png: Option<&str>,
) -> (job: ImageJob)
    ensures
        ({
            let stem = recording_stem(ts_path@);
            &&& job.dir@ == joined(joined(cache_dir@, stem), "full"@)
            &&& job.output@ == cached(
                cache_dir@,
                stem,
                "full"@,
                full_name(id as int, n as nat, mode),
            )
            &&& texts(job.args@) == capture_args(
                full_capture(
                    *cfg,
                    ts_path@,
                    pts_start_ms as int,
                    pts_end_ms as int,
                    n as int,
                    if mode == SubMode::Burned {
                        str_opt(sub_png)
                    } else {
                        None
                    },
                    job.output@,
                ),
            )
        }),
{
    let stem = ts_stem(ts_path);
    let dir = join(join(cache_dir, stem.as_str()).as_str(), "full");
    let output = full_image_path(cache_dir, stem.as_str(), id, n, mode);
    let overlay = if mode == SubMode::Burned {
        sub_png
    } else {
        None
    };
    let args = full_args(cfg, ts_path, pts_start_ms, pts_end_ms, n, overlay, output.as_str());
    ImageJob { dir, args, output }
}

/// What it takes to cut the image that stands for a caption.
pub fn preview_job(
    cfg: &CaptureConfig,
    cache_dir: &str,
    ts_path: &str,
    id: i64,
    pts_start_ms: i64,
    pts_end_ms: i64,
) -> (job: ImageJob)
    ensures
        ({
            let stem = recording_stem(ts_path@);
            &&& job.dir@ == joined(joined(cache_dir@, stem), "preview"@)
            &&& job.output@ == cached(
                cache_dir@,
                stem,
                "preview"@,
                signed_dec(id as int) + ".jpg"@,
            )
            &&& texts(job.args@) == single_frame_args(
                ts_path@,
                preview_target(pts_start_ms as int, pts_end_ms as int, cfg.thumb_count as int),
                cfg.thumb_width,
                cfg.thumb_height,
                cfg.thumb_quality,
                job.output@,
            )
        }),
{
    let stem = ts_stem(ts_path);
    let dir = join(join(cache_dir, stem.as_str()).as_str(), "preview");
    let output = preview_path(cache_dir, stem.as_str(), id);
    let args = preview_args(cfg, ts_path, pts_start_ms, pts_end_ms, output.as_str());
    ImageJob { dir, args, output }
}

/// The place to start from always stands before the first input, so that the
/// command seeks to it.
pub proof fn seek_stands_before_the_input(p: CaptureModel)
    ensures
        capture_args(p)[1] == "-ss"@,
        capture_args(p)[2] == seconds_text(p.pre_seek),
        capture_args(p)[5] == "-i"@,
        capture_args(p)[6] == "file:"@ + p.ts_path,
{
}

/// A time is written in millionths of a second, the nearest one.
pub proof fn a_time_is_written_in_millionths(v: int)
    ensures
        exists|us: nat|
            #![trigger dec(us / 1_000_000)]
            {
                let size = if v < 0 {
                    -v
                } else {
                    v
                };
                &&& -one() <= 2 * (us * one() - 1_000_000 * size) <= one()
                &&& seconds_text(v) == (if v < 0 {
                    "-"@
                } else {
                    Seq::empty()
                }) + dec(us / 1_000_000) + "."@ + padded_dec(us % 1_000_000, 6)
            },
{
    let size = if v < 0 {
        -v
    } else {
        v
    };
    one_is_large();
    rounded_fractions_are_near(size * 1_000_000, one());
    let us = millionths(size) as nat;
    let o = one();
    assert(us * o == o * us) by (nonlinear_arith);
    assert(seconds_text(v) == (if v < 0 {
        "-"@
    } else {
        Seq::empty()
    }) + dec(us / 1_000_000) + "."@ + padded_dec(us % 1_000_000, 6));
}

/// Frames are picked by their numbers, any of them.
pub proof fn frames_are_picked_by_number(frames: Seq<u64>, n: u64)
    ensures
        select_expr(Seq::empty()) == Seq::<char>::empty(),
        select_expr(seq![n]) == "eq(n\\,"@ + dec(n as nat) + ")"@,
        frames.len() > 0 ==> select_expr(frames.push(n)) == select_expr(frames) + "+"@ + (
        "eq(n\\,"@ + dec(n as nat) + ")"@),
{
    assert(frames.push(n).drop_last() =~= frames);
    assert(seq![n].drop_last() =~= Seq::empty());
}

/// The command for frames: where to start, for how long, from which file, which frames, of
/// which size, how many and how good, and where to.
pub proof fn the_command_for_frames(p: CaptureModel)
    ensures
        ({
            let args = capture_args(p);
            let frames = "bwdif=mode=send_frame,select='"@ + select_expr(p.frame_nums)
                + "',setpts=N/FRAME_RATE/TB,"@ + ("scale="@ + dec(p.width as nat) + ":"@ + dec(
                p.height as nat,
            )) + ",setsar=1"@;
            let n = args.len() as int;
            &&& n == if p.sub_png is Some {
                20int
            } else {
                16
            }
            &&& args[0] == "-y"@
            &&& args[1] == "-ss"@ && args[2] == seconds_text(p.pre_seek)
            &&& args[3] == "-t"@ && args[4] == seconds_text(p.dur)
            &&& args[5] == "-i"@ && args[6] == "file:"@ + p.ts_path
            &&& p.sub_png is None ==> args[7] == "-vf"@ && args[8] == frames
            &&& p.sub_png is Some ==> {
                &&& args[7] == "-i"@ && args[8] == p.sub_png->0
                &&& args[9] == "-filter_complex"@
                &&& args[10] == "[0:v]"@ + frames + "[v];[1:v]"@ + ("scale="@ + dec(
                    p.width as nat,
                ) + ":"@ + dec(p.height as nat))
                    + "[s];[v][s]overlay=eof_action=repeat[out]"@
                &&& args[11] == "-map"@ && args[12] == "[out]"@
            }
            &&& args[n - 7] == "-fps_mode"@ && args[n - 6] == "vfr"@
            &&& args[n - 5] == "-frames:v"@ && args[n - 4] == dec(p.frame_nums.len())
            &&& args[n - 3] == "-q:v"@ && args[n - 2] == dec(p.quality as nat)
            &&& args[n - 1] == p.out_pattern
        }),
{
}

/// The command for one frame: it is taken straight from its place.
pub proof fn the_command_for_one_frame(
    ts_path: Seq<char>,
    target: int,
    w: u32,
    h: u32,
    quality: u32,
    out_path: Seq<char>,
)
    ensures
        ({
            let args = single_frame_args(ts_path, target, w, h, quality, out_path);
            &&& args.len() == 12
            &&& args[0] == "-y"@
            &&& args[1] == "-ss"@ && args[2] == seconds_text(target)
            &&& args[3] == "-i"@ && args[4] == "file:"@ + ts_path
            &&& args[5] == "-vf"@
            &&& args[6] == "bwdif=mode=send_frame,"@ + ("scale="@ + dec(w as nat) + ":"@ + dec(
                h as nat,
            )) + ",setsar=1"@
            &&& args[7] == "-frames:v"@ && args[8] == "1"@
            &&& args[9] == "-q:v"@ && args[10] == dec(quality as nat)
            &&& args[11] == out_path
        }),
{
}

/// Thumbnails are cut small, all frames of a caption at once; a full image is cut large, of
/// one frame, which is the first one decoded where the caption has no such frame.  Both
/// are cut from the same part of the recording, at 30000/1001 frames a second.
pub proof fn thumbnails_and_full_images_are_cut_alike(
    cfg: CaptureConfig,
    ts_path: Seq<char>,
    start: int,
    end: int,
    n: int,
    sub_png: Option<Seq<char>>,
    out: Seq<char>,
)
    requires
        0 <= n,
    ensures
        ({
            let thumbs = thumbnail_capture(cfg, ts_path, start, end, sub_png, out);
            let full = full_capture(cfg, ts_path, start, end, n, sub_png, out);
            let frames = frame_list(start, end, cfg.thumb_count as int, 30_000, 1001);
            &&& thumbs.ts_path == ts_path && full.ts_path == ts_path
            &&& thumbs.pre_seek == pre_seek(start) && full.pre_seek == pre_seek(start)
            &&& thumbs.dur == decode_time(start, end) && full.dur == decode_time(start, end)
            &&& thumbs.frame_nums == frames
            &&& n < cfg.thumb_count ==> full.frame_nums == seq![frames[n]]
            &&& n >= cfg.thumb_count ==> full.frame_nums == seq![0u64]
            &&& thumbs.sub_png == sub_png && full.sub_png == sub_png
            &&& thumbs.width == cfg.thumb_width && thumbs.height == cfg.thumb_height
            &&& thumbs.quality == cfg.thumb_quality
            &&& full.width == cfg.width && full.height == cfg.height
            &&& full.quality == cfg.jpeg_quality
            &&& thumbs.out_pattern == out && full.out_pattern == out
        }),
{
}

} // verus!
