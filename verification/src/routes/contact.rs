//! The page of a caption, with its frames side by side.
use vstd::prelude::*;

use crate::routes::{display_title, fmt_span, full_title, span_text};
use crate::ts::title::text_opt;

verus! {

pub struct ContactTemplate {
    pub caption_id: i64,
    pub ts_file_id: i64,
    pub display_title: String,
    pub time_str: String,
    pub text: String,
    /// The frames, by number.
    pub frames: Vec<u32>,
    /// The frame chosen, or the middle one.
    pub selected_frame: i64,
    pub tags: Vec<String>,
}

/// A caption as the database gives it.
pub struct ContactRow {
    pub ts_file_id: i64,
    pub pts_start: i64,
    pub pts_end: i64,
    pub text: String,
    pub title: String,
    pub episode_number: Option<i64>,
    pub episode_title: Option<String>,
    pub selected_frame: i64,
}

/// The numbers from zero on, `n` of them.
pub fn frame_numbers(n: u32) -> (frames: Vec<u32>)
    ensures
        frames@ == Seq::new(n as nat, |i: int| i as u32),
{
    let mut frames: Vec<u32> = Vec::new();
    let mut i: u32 = 0;
    while i < n
        invariant
            i <= n,
            frames@ == Seq::new(i as nat, |k: int| k as u32),
        decreases n - i,
    {
        frames.push(i);
        i = i + 1;
        assert(frames@ =~= Seq::new(i as nat, |k: int| k as u32));
    }
    frames
}

/// The frame that stands for a caption of which none was chosen.
pub fn middle_frame_number(thumb_count: u32) -> (n: i64)
    ensures
        n == thumb_count as int / 2,
{
    (thumb_count / 2) as i64
}

/// The page of a caption.
pub fn contact_page(id: i64, row: ContactRow, thumb_count: u32, tags: Vec<String>) -> (p:
    ContactTemplate)
    ensures
        p.caption_id == id,
        p.ts_file_id == row.ts_file_id,
        p.display_title@ == full_title(row.title@, row.episode_number, text_opt(row.episode_title)),
        p.time_str@ == span_text(row.pts_start as int, row.pts_end as int),
        p.text == row.text,
        p.frames@ == Seq::new(thumb_count as nat, |i: int| i as u32),
        p.selected_frame == row.selected_frame,
        p.tags == tags,
{
    let sub = match &row.episode_title {
        Some(t) => Some(t.as_str()),
        None => None,
    };
    let title = display_title(row.title.as_str(), row.episode_number, sub);
    ContactTemplate {
        caption_id: id,
        ts_file_id: row.ts_file_id,
        display_title: title,
        time_str: fmt_span(row.pts_start, row.pts_end),
        text: row.text,
        frames: frame_numbers(thumb_count),
        selected_frame: row.selected_frame,
        tags,
    }
}

} // verus!
