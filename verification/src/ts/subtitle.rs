//! Captions: their text and times, and their pictures.
use vstd::prelude::*;

use crate::text::{chars_of, string_of, trim, trim_chars, trim_is_idempotent};

verus! {

// -------------------------------------------------------------------- captions

/// The duration of a caption that stays until the next one.
pub const DURATION_INDEFINITE: i64 = 0x7FFF_FFFF_FFFF_FFFF;

/// How long the last caption stays, where nothing else ends it.
pub const LAST_CAPTION_MS: i64 = 5000;

/// A caption as the decoder hands it out.
#[derive(Debug, Clone)]
pub struct AribCaption {
    /// The text, without ruby.
    pub text: String,
    pub pts: i64,
    pub wait_duration: i64,
    /// Whether the caption clears the screen.
    pub clear_screen: bool,
}

impl AribCaption {
    pub open spec fn duration(self) -> Option<i64> {
        if self.wait_duration == DURATION_INDEFINITE {
            None
        } else {
            Some(self.wait_duration)
        }
    }

    pub fn text(&self) -> (text: String)
        ensures
            text@ == self.text@,
    {
        self.text.clone()
    }

    /// The time, in milliseconds since the stream began.
    pub fn pts_ms(&self) -> (pts: i64)
        ensures
            pts == self.pts,
    {
        self.pts
    }

    /// The duration in milliseconds, where it is determined.
    pub fn duration_ms(&self) -> (d: Option<i64>)
        ensures
            d == self.duration(),
    {
        if self.wait_duration == DURATION_INDEFINITE {
            None
        } else {
            Some(self.wait_duration)
        }
    }

    pub fn is_clear_screen(&self) -> (b: bool)
        ensures
            b == self.clear_screen,
    {
        self.clear_screen
    }
}

/// A caption of a recording.
#[derive(Debug)]
pub struct Caption {
    pub pts_start_ms: i64,
    pub pts_end_ms: i64,
    pub text: String,
}

pub ghost struct CaptionModel {
    pub start: i64,
    pub end: i64,
    pub text: Seq<char>,
}

impl View for Caption {
    type V = CaptionModel;

    open spec fn view(&self) -> CaptionModel {
        CaptionModel { start: self.pts_start_ms, end: self.pts_end_ms, text: self.text@ }
    }
}

pub open spec fn caption_models(s: Seq<Caption>) -> Seq<CaptionModel> {
    s.map_values(|c: Caption| c@)
}

/// The captions with text, in order.
pub open spec fn with_text(decoded: Seq<AribCaption>) -> Seq<AribCaption> {
    decoded.filter(|c: AribCaption| trim(c.text@).len() > 0)
}

/// When the caption at `i` ends: after its duration, or when the next one
/// starts, or after five seconds.
pub open spec fn caption_end(captions: Seq<AribCaption>, i: int) -> int {
    match captions[i].duration() {
        Some(duration) => captions[i].pts + duration,
        None => if i + 1 < captions.len() {
            captions[i + 1].pts as int
        } else {
            captions[i].pts + LAST_CAPTION_MS
        },
    }
}

/// The first `n` captions, timed, without those that would end before they
/// start.
pub open spec fn timed(captions: Seq<AribCaption>, n: int) -> Seq<CaptionModel>
    decreases n,
{
    if n <= 0 {
        Seq::empty()
    } else {
        let c = captions[n - 1];
        let end = caption_end(captions, n - 1);
        if end <= c.pts {
            timed(captions, n - 1)
        } else {
            timed(captions, n - 1).push(
                CaptionModel { start: c.pts, end: end as i64, text: trim(c.text@) },
            )
        }
    }
}

/// The captions of a recording.
pub open spec fn captions_of(decoded: Seq<AribCaption>) -> Seq<CaptionModel> {
    timed(with_text(decoded), with_text(decoded).len() as int)
}

/// Whether every caption with text ends at a time that can be written down.
pub open spec fn ends_fit(decoded: Seq<AribCaption>) -> bool {
    forall|i: int|
        0 <= i < with_text(decoded).len() ==> i64::MIN <= #[trigger] caption_end(
            with_text(decoded),
            i,
        ) <= i64::MAX
}

fn has_text(c: &AribCaption) -> (b: bool)
    ensures
        b == (trim(c.text@).len() > 0),
{
    let chars = chars_of(c.text.as_str());
    trim_chars(chars.as_slice()).len() > 0
}

/// Whether every caption with text ends at a time that can be written down.
pub fn captions_fit(decoded: &[AribCaption]) -> (b: bool)
    ensures
        b == ends_fit(decoded@),
{
    let ghost keep = |c: AribCaption| trim(c.text@).len() > 0;
    let ghost all = decoded@;
    let mut kept: Vec<usize> = Vec::new();
    let mut i: usize = 0;
    reveal(Seq::filter);
    assert(kept@.map_values(|k: usize| all[k as int]) =~= all.take(0).filter(keep));
    while i < decoded.len()
        invariant
            i <= decoded@.len(),
            all == decoded@,
            keep == (|c: AribCaption| trim(c.text@).len() > 0),
            forall|j: int| 0 <= j < kept@.len() ==> #[trigger] kept@[j] < decoded@.len(),
            kept@.map_values(|k: usize| all[k as int]) == all.take(i as int).filter(keep),
        decreases decoded@.len() - i,
    {
        reveal(Seq::filter);
        assert(all.take(i + 1).drop_last() =~= all.take(i as int));
        if has_text(&decoded[i]) {
            let ghost before = kept@;
            kept.push(i);
            assert(kept@.map_values(|k: usize| all[k as int]) =~= before.map_values(
                |k: usize| all[k as int],
            ).push(all[i as int]));
        }
        i = i + 1;
    }
    assert(all.take(i as int) =~= all);
    let ghost texted = with_text(all);
    assert(kept@.map_values(|k: usize| all[k as int]) == texted);
    let mut j: usize = 0;
    while j < kept.len()
        invariant
            j <= kept@.len(),
            all == decoded@,
            texted == with_text(all),
            kept@.map_values(|k: usize| all[k as int]) == texted,
            forall|k: int| 0 <= k < kept@.len() ==> #[trigger] kept@[k] < decoded@.len(),
            forall|k: int|
                0 <= k < j ==> i64::MIN <= #[trigger] caption_end(texted, k) <= i64::MAX,
        decreases kept@.len() - j,
    {
        assert(kept@.map_values(|k: usize| all[k as int])[j as int] == all[kept@[j as int] as int]);
        let caption = &decoded[kept[j]];
        let fits = match caption.duration_ms() {
            Some(duration) => caption.pts.checked_add(duration).is_some(),
            None => j + 1 < kept.len() || caption.pts.checked_add(LAST_CAPTION_MS).is_some(),
        };
        if !fits {
            assert(!(i64::MIN <= caption_end(texted, j as int) <= i64::MAX));
            return false;
        }
        j = j + 1;
    }
    true
}

/// Gives the decoded captions their times and drops those without text.
pub fn extract_captions(decoded: Vec<AribCaption>) -> (captions: Vec<Caption>)
    requires
        ends_fit(decoded@),
    ensures
        caption_models(captions@) == captions_of(decoded@),
{
    let ghost all = decoded@;
    let ghost keep = |c: AribCaption| trim(c.text@).len() > 0;
    let mut kept: Vec<AribCaption> = Vec::new();
    reveal(Seq::filter);
    for c in it: decoded
        invariant
            it.seq() == all,
            keep == (|c: AribCaption| trim(c.text@).len() > 0),
            kept@ == all.take(it.index() as int).filter(keep),
    {
        reveal(Seq::filter);
        assert(all.take(it.index() + 1).drop_last() =~= all.take(it.index() as int));
        if has_text(&c) {
            kept.push(c);
        }
    }
    assert(all.take(all.len() as int) =~= all);
    assert(kept@ == with_text(all));
    let mut captions: Vec<Caption> = Vec::new();
    let mut i: usize = 0;
    while i < kept.len()
        invariant
            i <= kept@.len(),
            forall|j: int|
                0 <= j < kept@.len() ==> i64::MIN <= #[trigger] caption_end(kept@, j) <= i64::MAX,
            caption_models(captions@) == timed(kept@, i as int),
        decreases kept@.len() - i,
    {
        assert(i64::MIN <= caption_end(kept@, i as int) <= i64::MAX);
        let start: i64 = kept[i].pts;
        let end: i64 = match kept[i].duration_ms() {
            Some(duration) => start + duration,
            None => {
                if i + 1 < kept.len() {
                    kept[i + 1].pts
                } else {
                    start + LAST_CAPTION_MS
                }
            },
        };
        if end > start {
            let chars = chars_of(kept[i].text.as_str());
            let text = string_of(trim_chars(chars.as_slice()));
            let ghost before = captions@;
            let caption = Caption { pts_start_ms: start, pts_end_ms: end, text };
            captions.push(caption);
            assert(caption_models(captions@) =~= caption_models(before).push(caption@));
        }
        i = i + 1;
    }
    captions
}

/// Every caption lasts, and has text without white space at its ends.
pub proof fn captions_last_and_have_text(decoded: Seq<AribCaption>)
    requires
        ends_fit(decoded),
    ensures
        forall|i: int|
            #![trigger captions_of(decoded)[i]]
            0 <= i < captions_of(decoded).len() ==> {
                &&& captions_of(decoded)[i].start < captions_of(decoded)[i].end
                &&& captions_of(decoded)[i].text.len() > 0
                &&& trim(captions_of(decoded)[i].text) == captions_of(decoded)[i].text
            },
{
    lemma_with_text(decoded);
    lemma_timed(with_text(decoded), with_text(decoded).len() as int);
}

proof fn lemma_with_text(decoded: Seq<AribCaption>)
    ensures
        forall|i: int|
            0 <= i < with_text(decoded).len() ==> trim(
                (#[trigger] with_text(decoded)[i]).text@,
            ).len() > 0,
    decreases decoded.len(),
{
    reveal(Seq::filter);
    if decoded.len() > 0 {
        lemma_with_text(decoded.drop_last());
    }
}

proof fn lemma_timed(captions: Seq<AribCaption>, n: int)
    requires
        0 <= n <= captions.len(),
        forall|i: int|
            0 <= i < captions.len() ==> i64::MIN <= #[trigger] caption_end(captions, i) <= i64::MAX,
        forall|i: int| 0 <= i < captions.len() ==> trim((#[trigger] captions[i]).text@).len() > 0,
    ensures
        forall|i: int|
            #![trigger timed(captions, n)[i]]
            0 <= i < timed(captions, n).len() ==> {
                &&& timed(captions, n)[i].start < timed(captions, n)[i].end
                &&& timed(captions, n)[i].text.len() > 0
                &&& trim(timed(captions, n)[i].text) == timed(captions, n)[i].text
            },
    decreases n,
{
    if n > 0 {
        lemma_timed(captions, n - 1);
        assert(i64::MIN <= caption_end(captions, n - 1) <= i64::MAX);
        trim_is_idempotent(captions[n - 1].text@);
        let last = captions[n - 1];
        assert(trim(last.text@).len() > 0);
        let before = timed(captions, n - 1);
        assert forall|i: int|
            #![trigger timed(captions, n)[i]]
            0 <= i < timed(captions, n).len() implies {
            &&& timed(captions, n)[i].start < timed(captions, n)[i].end
            &&& timed(captions, n)[i].text.len() > 0
            &&& trim(timed(captions, n)[i].text) == timed(captions, n)[i].text
        } by {
            if i < before.len() {
                assert(timed(captions, n)[i] == before[i]);
            }
        }
    }
}

pub open spec fn is_texted(c: AribCaption) -> bool {
    trim(c.text@).len() > 0
}

/// Whether the decoded caption at `j` is the next one with text after that at `i`.
pub open spec fn follows(decoded: Seq<AribCaption>, i: int, j: int) -> bool {
    &&& i < j < decoded.len()
    &&& is_texted(decoded[j])
    &&& forall|k: int| i < k < j ==> !is_texted(#[trigger] decoded[k])
}

/// Whether the decoded caption at `i` has text and ends at a time: after its duration, or
/// when the next one with text starts, however far away that is; the last one with text
/// after five seconds.
pub open spec fn ends_at(decoded: Seq<AribCaption>, i: int, end: int) -> bool {
    let c = decoded[i];
    &&& is_texted(c)
    &&& c.wait_duration != i64::MAX ==> end == c.pts + c.wait_duration
    &&& c.wait_duration == i64::MAX ==> {
        ||| exists|j: int| #[trigger] follows(decoded, i, j) && end == decoded[j].pts
        ||| end == c.pts + 5000 && forall|k: int|
            i < k < decoded.len() ==> !is_texted(#[trigger] decoded[k])
    }
}

/// The places of decoded captions, in order and each once.
pub open spec fn are_places_in(places: Seq<int>, n: int) -> bool {
    &&& forall|k: int| 0 <= k < places.len() ==> 0 <= #[trigger] places[k] < n
    &&& forall|k: int, m: int|
        0 <= k < m < places.len() ==> #[trigger] places[k] < #[trigger] places[m]
}

proof fn lemma_texted_places(decoded: Seq<AribCaption>) -> (places: Seq<int>)
    ensures
        places.len() == with_text(decoded).len(),
        are_places_in(places, decoded.len() as int),
        forall|k: int|
            0 <= k < places.len() ==> with_text(decoded)[k] == decoded[#[trigger] places[k]],
        forall|k: int| 0 <= k < places.len() ==> is_texted(decoded[#[trigger] places[k]]),
        forall|i: int|
            0 <= i < decoded.len() && is_texted(#[trigger] decoded[i]) ==> places.contains(i),
    decreases decoded.len(),
{
    reveal(Seq::filter);
    if decoded.len() == 0 {
        Seq::empty()
    } else {
        let front = decoded.drop_last();
        let before = lemma_texted_places(front);
        let n = decoded.len() - 1;
        let places = if is_texted(decoded.last()) {
            before.push(n)
        } else {
            before
        };
        assert(forall|k: int| 0 <= k < before.len() ==> front[#[trigger] before[k]]
            == decoded[before[k]]);
        assert forall|i: int|
            0 <= i < decoded.len() && is_texted(#[trigger] decoded[i]) implies places.contains(
            i,
        ) by {
            if i < n {
                assert(front[i] == decoded[i]);
                assert(before.contains(i));
                let k = choose|k: int| 0 <= k < before.len() && before[k] == i;
                assert(places[k] == i);
            } else {
                assert(places[places.len() - 1] == n);
            }
        }
        places
    }
}

proof fn lemma_timed_places(captions: Seq<AribCaption>, n: int) -> (places: Seq<int>)
    requires
        0 <= n <= captions.len(),
        forall|i: int|
            0 <= i < captions.len() ==> i64::MIN <= #[trigger] caption_end(captions, i) <= i64::MAX,
    ensures
        places.len() == timed(captions, n).len(),
        are_places_in(places, n),
        forall|k: int|
            #![trigger places[k]]
            0 <= k < places.len() ==> {
                let c = captions[places[k]];
                &&& caption_end(captions, places[k]) > c.pts
                &&& timed(captions, n)[k] == CaptionModel {
                    start: c.pts,
                    end: caption_end(captions, places[k]) as i64,
                    text: trim(c.text@),
                }
            },
        forall|i: int|
            0 <= i < n && #[trigger] caption_end(captions, i) > captions[i].pts
                ==> places.contains(i),
    decreases n,
{
    if n <= 0 {
        Seq::empty()
    } else {
        let before = lemma_timed_places(captions, n - 1);
        assert(i64::MIN <= caption_end(captions, n - 1) <= i64::MAX);
        let places = if caption_end(captions, n - 1) > captions[n - 1].pts {
            before.push(n - 1)
        } else {
            before
        };
        assert forall|i: int|
            0 <= i < n && #[trigger] caption_end(captions, i)
                > captions[i].pts implies places.contains(i) by {
            if i < n - 1 {
                assert(before.contains(i));
                let k = choose|k: int| 0 <= k < before.len() && before[k] == i;
                assert(places[k] == i);
            } else {
                assert(places[places.len() - 1] == n - 1);
            }
        }
        places
    }
}

proof fn lemma_ends_at(decoded: Seq<AribCaption>, places: Seq<int>, m: int)
    requires
        places.len() == with_text(decoded).len(),
        are_places_in(places, decoded.len() as int),
        forall|k: int|
            0 <= k < places.len() ==> with_text(decoded)[k] == decoded[#[trigger] places[k]],
        forall|k: int| 0 <= k < places.len() ==> is_texted(decoded[#[trigger] places[k]]),
        forall|i: int|
            0 <= i < decoded.len() && is_texted(#[trigger] decoded[i]) ==> places.contains(i),
        0 <= m < places.len(),
    ensures
        ends_at(decoded, places[m], caption_end(with_text(decoded), m)),
        forall|end: int|
            ends_at(decoded, places[m], end) ==> end == caption_end(with_text(decoded), m),
{
    let i = places[m];
    assert(with_text(decoded)[m] == decoded[places[m]]);
    assert(is_texted(decoded[places[m]]));
    assert forall|k: int| i < k < decoded.len() && is_texted(#[trigger] decoded[k]) implies m + 1
        < places.len() && places[m + 1] <= k by {
        assert(places.contains(k));
        let at = choose|at: int| 0 <= at < places.len() && places[at] == k;
        if at <= m {
            if at < m {
                assert(places[at] < places[m]);
            }
            assert(false);
        }
        if m + 1 < at {
            assert(places[m + 1] < places[at]);
        }
    }
    if m + 1 < places.len() {
        let j = places[m + 1];
        assert(places[m] < places[m + 1]);
        assert(with_text(decoded)[m + 1] == decoded[places[m + 1]]);
        assert(is_texted(decoded[places[m + 1]]));
        assert(follows(decoded, i, j));
        assert forall|end: int| ends_at(decoded, i, end) implies end == caption_end(
            with_text(decoded),
            m,
        ) by {
            if decoded[i].wait_duration == i64::MAX {
                assert(is_texted(decoded[j]));
                let l = choose|l: int| #[trigger] follows(decoded, i, l) && end == decoded[l].pts;
                assert(follows(decoded, i, l) && end == decoded[l].pts);
                assert(is_texted(decoded[l]));
                assert(l == j);
            }
        }
    } else {
        assert forall|end: int| ends_at(decoded, i, end) implies end == caption_end(
            with_text(decoded),
            m,
        ) by {
            if decoded[i].wait_duration == i64::MAX {
                if exists|l: int| #[trigger] follows(decoded, i, l) && end == decoded[l].pts {
                    let l = choose|l: int|
                        #[trigger] follows(decoded, i, l) && end == decoded[l].pts;
                    assert(is_texted(decoded[l]));
                }
            }
        }
    }
}

/// The captions of a recording are the decoded ones with text that last, in order, each
/// once, with their own start and text.
pub proof fn captions_are_the_decoded_ones_that_last(decoded: Seq<AribCaption>) -> (places: Seq<
    int,
>)
    requires
        ends_fit(decoded),
    ensures
        places.len() == captions_of(decoded).len(),
        are_places_in(places, decoded.len() as int),
        forall|k: int|
            #![trigger places[k]]
            0 <= k < places.len() ==> {
                let c = captions_of(decoded)[k];
                &&& c.start == decoded[places[k]].pts
                &&& c.text == trim(decoded[places[k]].text@)
                &&& ends_at(decoded, places[k], c.end as int)
                &&& c.end > c.start
            },
        forall|i: int, end: int|
            0 <= i < decoded.len() && #[trigger] ends_at(decoded, i, end) && end > decoded[i].pts
                ==> places.contains(i),
{
    let texted = with_text(decoded);
    let outer = lemma_texted_places(decoded);
    let inner = lemma_timed_places(texted, texted.len() as int);
    let places = inner.map_values(|m: int| outer[m]);
    assert forall|k: int|
        #![trigger places[k]]
        0 <= k < places.len() implies 0 <= places[k] < decoded.len() && {
        let c = captions_of(decoded)[k];
        &&& c.start == decoded[places[k]].pts
        &&& c.text == trim(decoded[places[k]].text@)
        &&& ends_at(decoded, places[k], c.end as int)
        &&& c.end > c.start
    } by {
        let m = inner[k];
        assert(places[k] == outer[m]);
        assert(texted[m] == decoded[outer[m]]);
        assert(i64::MIN <= caption_end(texted, m) <= i64::MAX);
        lemma_ends_at(decoded, outer, m);
    }
    assert forall|k: int, m: int| 0 <= k < m < places.len() implies #[trigger] places[k]
        < #[trigger] places[m] by {
        assert(inner[k] < inner[m]);
        assert(outer[inner[k]] < outer[inner[m]]);
    }
    assert forall|i: int, end: int|
        0 <= i < decoded.len() && #[trigger] ends_at(decoded, i, end) && end
            > decoded[i].pts implies places.contains(i) by {
        assert(is_texted(decoded[i]));
        assert(outer.contains(i));
        let m = choose|m: int| 0 <= m < outer.len() && outer[m] == i;
        assert(texted[m] == decoded[outer[m]]);
        lemma_ends_at(decoded, outer, m);
        assert(end == caption_end(texted, m));
        assert(inner.contains(m));
        let k = choose|k: int| 0 <= k < inner.len() && inner[k] == m;
        assert(places[k] == i);
    }
    places
}

/// A caption of indefinite duration lasts until the next one with text starts, however
/// far away that is.
pub proof fn an_indefinite_caption_lasts_until_the_next(decoded: Seq<AribCaption>, i: int, j: int)
    requires
        ends_fit(decoded),
        0 <= i,
        is_texted(decoded[i]),
        decoded[i].wait_duration == i64::MAX,
        follows(decoded, i, j),
        decoded[j].pts > decoded[i].pts,
    ensures
        captions_of(decoded).contains(
            CaptionModel {
                start: decoded[i].pts,
                end: decoded[j].pts,
                text: trim(decoded[i].text@),
            },
        ),
{
    let end = decoded[j].pts as int;
    assert(ends_at(decoded, i, end));
    lemma_lasting_caption_is_kept(decoded, i, end);
}

/// The last caption with text, where its duration is indefinite, lasts five seconds.
pub proof fn the_last_caption_lasts_five_seconds(decoded: Seq<AribCaption>, i: int)
    requires
        ends_fit(decoded),
        0 <= i < decoded.len(),
        is_texted(decoded[i]),
        decoded[i].wait_duration == i64::MAX,
        forall|k: int| i < k < decoded.len() ==> !is_texted(#[trigger] decoded[k]),
    ensures
        captions_of(decoded).contains(
            CaptionModel {
                start: decoded[i].pts,
                end: (decoded[i].pts + 5000) as i64,
                text: trim(decoded[i].text@),
            },
        ),
{
    let end = decoded[i].pts + 5000;
    assert(ends_at(decoded, i, end));
    lemma_lasting_caption_is_kept(decoded, i, end);
}

/// A caption of a certain duration lasts that long, whatever follows it.
pub proof fn a_caption_lasts_for_its_duration(decoded: Seq<AribCaption>, i: int)
    requires
        ends_fit(decoded),
        0 <= i < decoded.len(),
        is_texted(decoded[i]),
        0 < decoded[i].wait_duration < i64::MAX,
    ensures
        captions_of(decoded).contains(
            CaptionModel {
                start: decoded[i].pts,
                end: (decoded[i].pts + decoded[i].wait_duration) as i64,
                text: trim(decoded[i].text@),
            },
        ),
{
    let end = decoded[i].pts + decoded[i].wait_duration;
    assert(ends_at(decoded, i, end));
    lemma_lasting_caption_is_kept(decoded, i, end);
}

proof fn lemma_lasting_caption_is_kept(decoded: Seq<AribCaption>, i: int, end: int)
    requires
        ends_fit(decoded),
        0 <= i < decoded.len(),
        ends_at(decoded, i, end),
        end > decoded[i].pts,
    ensures
        captions_of(decoded).contains(
            CaptionModel {
                start: decoded[i].pts,
                end: end as i64,
                text: trim(decoded[i].text@),
            },
        ),
{
    let places = captions_are_the_decoded_ones_that_last(decoded);
    assert(places.contains(i));
    let k = choose|k: int| 0 <= k < places.len() && places[k] == i;
    let found = captions_of(decoded)[k];
    assert(places[k] == i);
    let outer = lemma_texted_places(decoded);
    assert(outer.contains(i));
    let m = choose|m: int| 0 <= m < outer.len() && outer[m] == i;
    lemma_ends_at(decoded, outer, m);
    assert(ends_at(decoded, outer[m], end));
    assert(ends_at(decoded, outer[m], found.end as int));
    assert(found.end == end);
    assert(found =~= CaptionModel {
        start: decoded[i].pts,
        end: end as i64,
        text: trim(decoded[i].text@),
    });
}

// -------------------------------------------------------------------- pictures

/// A piece of a rendered caption, in RGBA, and its place in the frame.
#[derive(Debug, Clone)]
pub struct RenderedImage {
    pub dst_x: i32,
    pub dst_y: i32,
    pub width: i32,
    pub height: i32,
    /// The bytes from one row to the next.
    pub stride: i32,
    pub rgba: Vec<u8>,
}

#[derive(Debug, Clone, Copy, PartialEq, Eq, Structural)]
pub struct Pixel {
    pub r: u8,
    pub g: u8,
    pub b: u8,
    pub a: u8,
}

pub open spec fn clear_pixel() -> Pixel {
    Pixel { r: 0, g: 0, b: 0, a: 0 }
}

/// One colour laid over another, as opaque as `a` of 255.
pub open spec fn mix(over: u8, under: u8, a: u8) -> u8 {
    ((over * a + under * (255 - a)) / 255) as u8
}

/// One pixel laid over another.
pub open spec fn blend(over: Pixel, under: Pixel) -> Pixel {
    if over.a == 0 {
        under
    } else if over.a == 255 {
        over
    } else {
        Pixel {
            r: mix(over.r, under.r, over.a),
            g: mix(over.g, under.g, over.a),
            b: mix(over.b, under.b, over.a),
            a: (over.a + under.a * (255 - over.a) / 255) as u8,
        }
    }
}

/// A number, or zero where it is negative.
pub open spec fn at_least_zero(n: i32) -> int {
    if n < 0 {
        0
    } else {
        n as int
    }
}

/// The pixel that four bytes hold.
pub open spec fn pixel_of(bytes: Seq<u8>, at: int) -> Pixel {
    Pixel { r: bytes[at], g: bytes[at + 1], b: bytes[at + 2], a: bytes[at + 3] }
}

/// The pixel of a canvas of a width.
pub open spec fn canvas_pixel(canvas: Seq<u8>, w: int, x: int, y: int) -> Pixel {
    pixel_of(canvas, (y * w + x) * 4)
}

impl RenderedImage {
    /// Whether the image has a pixel in a row and column.  A row that its bytes
    /// do not hold in full, it does not have.
    pub open spec fn has(self, row: int, col: int) -> bool {
        &&& 0 <= row < at_least_zero(self.height)
        &&& 0 <= col < at_least_zero(self.width)
        &&& row * at_least_zero(self.stride) + at_least_zero(self.width) * 4 <= self.rgba@.len()
    }

    pub open spec fn pixel(self, row: int, col: int) -> Pixel {
        pixel_of(self.rgba@, row * at_least_zero(self.stride) + col * 4)
    }

    /// What the image makes of a pixel of the frame.  An image that starts
    /// outside the frame, to the left or above, is moved into it.
    pub open spec fn over(self, under: Pixel, x: int, y: int) -> Pixel {
        let row = y - at_least_zero(self.dst_y);
        let col = x - at_least_zero(self.dst_x);
        if self.has(row, col) {
            blend(self.pixel(row, col), under)
        } else {
            under
        }
    }
}

/// A pixel of a clear frame after the first `n` images.
pub open spec fn composed(images: Seq<RenderedImage>, n: int, x: int, y: int) -> Pixel
    decreases n,
{
    if n <= 0 {
        clear_pixel()
    } else {
        images[n - 1].over(composed(images, n - 1, x, y), x, y)
    }
}

/// One byte of a pixel: red, green, blue or opacity.
pub open spec fn channel(p: Pixel, k: int) -> u8 {
    if k == 0 {
        p.r
    } else if k == 1 {
        p.g
    } else if k == 2 {
        p.b
    } else {
        p.a
    }
}

/// Images laid over a clear frame, the first at the bottom: row by row, four bytes
/// to a pixel.
pub open spec fn canvas_of(images: Seq<RenderedImage>, w: int, h: int) -> Seq<u8> {
    Seq::new(
        (w * h * 4) as nat,
        |i: int|
            channel(composed(images, images.len() as int, (i / 4) % w, (i / 4) / w), i % 4),
    )
}

proof fn lemma_canvas(canvas: Seq<u8>, images: Seq<RenderedImage>, w: int, h: int)
    requires
        w >= 0,
        h >= 0,
        canvas.len() == w * h * 4,
        forall|x: int, y: int|
            #![trigger canvas_pixel(canvas, w, x, y)]
            0 <= x < w && 0 <= y < h ==> canvas_pixel(canvas, w, x, y) == composed(
                images,
                images.len() as int,
                x,
                y,
            ),
    ensures
        canvas == canvas_of(images, w, h),
{
    assert forall|i: int| 0 <= i < canvas.len() implies canvas[i] == canvas_of(images, w, h)[i] by {
        let q = i / 4;
        assert(0 <= q < w * h);
        assert(w > 0 && h > 0) by (nonlinear_arith)
            requires
                w >= 0,
                h >= 0,
                w * h > 0,
        ;
        let (x, y) = (q % w, q / w);
        assert(0 <= x < w && 0 <= y < h && y * w + x == q) by (nonlinear_arith)
            requires
                0 <= q < w * h,
                w > 0,
                x == q % w,
                y == q / w,
        ;
        assert(canvas_pixel(canvas, w, x, y) == composed(images, images.len() as int, x, y));
    }
    assert(canvas =~= canvas_of(images, w, h));
}

proof fn lemma_place(w: int, h: int, x: int, y: int)
    by (nonlinear_arith)
    requires
        0 <= x < w,
        0 <= y < h,
    ensures
        0 <= y * w,
        y * w + x < w * h,
{
}

proof fn lemma_places_differ(w: int, x: int, y: int, x2: int, y2: int)
    by (nonlinear_arith)
    requires
        0 <= x < w,
        0 <= x2 < w,
        y * w + x == y2 * w + x2,
    ensures
        x == x2,
        y == y2,
{
}

fn mix_byte(over: u8, under: u8, a: u8) -> (m: u8)
    ensures
        m == mix(over, under, a),
{
    proof {
        assert(0 <= over * a + under * (255 - a) <= 255 * 255) by (nonlinear_arith)
            requires
                0 <= over <= 255,
                0 <= under <= 255,
                0 <= a <= 255,
        ;
        assert(0 <= over * a <= 255 * 255) by (nonlinear_arith)
            requires
                0 <= over <= 255,
                0 <= a <= 255,
        ;
        assert(0 <= under * (255 - a) <= 255 * 255) by (nonlinear_arith)
            requires
                0 <= under <= 255,
                0 <= a <= 255,
        ;
    }
    ((over as u32 * a as u32 + under as u32 * (255 - a as u32)) / 255) as u8
}

fn blend_pixel(over: Pixel, under: Pixel) -> (p: Pixel)
    ensures
        p == blend(over, under),
{
    if over.a == 0 {
        under
    } else if over.a == 255 {
        over
    } else {
        let (oa, ua) = (over.a, under.a);
        proof {
            assert(0 <= ua * (255 - oa) <= 255 * (255 - oa)) by (nonlinear_arith)
                requires
                    0 <= ua <= 255,
                    0 <= oa <= 255,
            ;
        }
        let a: u32 = oa as u32 + ua as u32 * (255 - oa as u32) / 255;
        Pixel {
            r: mix_byte(over.r, under.r, over.a),
            g: mix_byte(over.g, under.g, over.a),
            b: mix_byte(over.b, under.b, over.a),
            a: a as u8,
        }
    }
}

fn get_pixel(bytes: &Vec<u8>, at: usize) -> (p: Pixel)
    requires
        at + 4 <= bytes.len(),
    ensures
        p == pixel_of(bytes@, at as int),
{
    Pixel { r: bytes[at], g: bytes[at + 1], b: bytes[at + 2], a: bytes[at + 3] }
}

/// Lays a pixel over one of the canvas.
fn draw_pixel(canvas: &mut Vec<u8>, w: usize, h: usize, x: usize, y: usize, p: Pixel)
    requires
        x < w,
        y < h,
        w * h * 4 <= usize::MAX,
        old(canvas)@.len() == w * h * 4,
    ensures
        final(canvas)@.len() == old(canvas)@.len(),
        forall|cx: int, cy: int|
            #![trigger canvas_pixel(final(canvas)@, w as int, cx, cy)]
            0 <= cx < w && 0 <= cy < h ==> canvas_pixel(final(canvas)@, w as int, cx, cy) == if cx
                == x && cy == y {
                blend(p, canvas_pixel(old(canvas)@, w as int, cx, cy))
            } else {
                canvas_pixel(old(canvas)@, w as int, cx, cy)
            },
{
    proof {
        lemma_place(w as int, h as int, x as int, y as int);
    }
    let at: usize = (y * w + x) * 4;
    let mixed = blend_pixel(p, get_pixel(canvas, at));
    canvas[at] = mixed.r;
    canvas[at + 1] = mixed.g;
    canvas[at + 2] = mixed.b;
    canvas[at + 3] = mixed.a;
    proof {
        assert forall|cx: int, cy: int|
            #![trigger canvas_pixel(canvas@, w as int, cx, cy)]
            0 <= cx < w && 0 <= cy < h implies canvas_pixel(canvas@, w as int, cx, cy) == (if cx
            == x && cy == y {
            blend(p, canvas_pixel(old(canvas)@, w as int, cx, cy))
        } else {
            canvas_pixel(old(canvas)@, w as int, cx, cy)
        }) by {
            lemma_place(w as int, h as int, cx, cy);
            if !(cx == x && cy == y) {
                if cy * w + cx == y * w + x {
                    lemma_places_differ(w as int, cx, cy, x as int, y as int);
                }
            }
        }
    }
}

/// Lays an image over the canvas.
fn draw_image(canvas: &mut Vec<u8>, w: usize, h: usize, image: &RenderedImage)
    requires
        w * h * 4 <= usize::MAX,
        old(canvas)@.len() == w * h * 4,
    ensures
        final(canvas)@.len() == old(canvas)@.len(),
        forall|x: int, y: int|
            #![trigger canvas_pixel(final(canvas)@, w as int, x, y)]
            0 <= x < w && 0 <= y < h ==> canvas_pixel(final(canvas)@, w as int, x, y)
                == image.over(canvas_pixel(old(canvas)@, w as int, x, y), x, y),
{
    let left: u64 = clip(image.dst_x);
    let top: u64 = clip(image.dst_y);
    let width: u64 = clip(image.width);
    let height: u64 = clip(image.height);
    let stride: u64 = clip(image.stride);
    let mut row: u64 = 0;
    while row < height
        invariant_except_break
            row <= height,
        invariant
            w * h * 4 <= usize::MAX,
            left == at_least_zero(image.dst_x) <= i32::MAX,
            top == at_least_zero(image.dst_y) <= i32::MAX,
            width == at_least_zero(image.width) <= i32::MAX,
            height == at_least_zero(image.height) <= i32::MAX,
            stride == at_least_zero(image.stride) <= i32::MAX,
            canvas@.len() == old(canvas)@.len() == w * h * 4,
            forall|x: int, y: int|
                #![trigger canvas_pixel(canvas@, w as int, x, y)]
                0 <= x < w && 0 <= y < h ==> canvas_pixel(canvas@, w as int, x, y) == if y - top
                    < row {
                    image.over(canvas_pixel(old(canvas)@, w as int, x, y), x, y)
                } else {
                    canvas_pixel(old(canvas)@, w as int, x, y)
                },
        ensures
            forall|x: int, y: int|
                0 <= x < w && 0 <= y < h && y - top >= row ==> !#[trigger] image.has(
                    y - top,
                    x - left,
                ),
        decreases height - row,
    {
        proof {
            lemma_row_start(row as int, stride as int);
        }
        let start: u64 = row * stride;
        if top + row >= h as u64 {
            break;
        }
        if start + width * 4 > image.rgba.len() as u64 {
            proof {
                assert forall|x: int, y: int|
                    0 <= x < w && 0 <= y < h && y - top >= row implies !#[trigger] image.has(
                    y - top,
                    x - left,
                ) by {
                    lemma_rows_grow(row as int, y - top, stride as int);
                }
            }
            break;
        }
        draw_row(canvas, w, h, image, row);
        row = row + 1;
    }
    proof {
        assert forall|x: int, y: int|
            #![trigger canvas_pixel(canvas@, w as int, x, y)]
            0 <= x < w && 0 <= y < h implies canvas_pixel(canvas@, w as int, x, y) == image.over(
            canvas_pixel(old(canvas)@, w as int, x, y),
            x,
            y,
        ) by {
            if y - top >= row {
                assert(!image.has(y - top, x - left));
            }
        }
    }
}

/// Lays a row of an image over the canvas.
fn draw_row(canvas: &mut Vec<u8>, w: usize, h: usize, image: &RenderedImage, row: u64)
    requires
        w * h * 4 <= usize::MAX,
        old(canvas)@.len() == w * h * 4,
        row < at_least_zero(image.height),
        at_least_zero(image.dst_y) + row < h,
        row * at_least_zero(image.stride) + at_least_zero(image.width) * 4 <= image.rgba@.len(),
    ensures
        final(canvas)@.len() == old(canvas)@.len(),
        forall|x: int, y: int|
            #![trigger canvas_pixel(final(canvas)@, w as int, x, y)]
            0 <= x < w && 0 <= y < h ==> canvas_pixel(final(canvas)@, w as int, x, y) == if y
                == at_least_zero(image.dst_y) + row {
                image.over(canvas_pixel(old(canvas)@, w as int, x, y), x, y)
            } else {
                canvas_pixel(old(canvas)@, w as int, x, y)
            },
{
    let left: u64 = clip(image.dst_x);
    let top: u64 = clip(image.dst_y);
    let width: u64 = clip(image.width);
    let stride: u64 = clip(image.stride);
    proof {
        lemma_row_start(row as int, stride as int);
    }
    let len: usize = image.rgba.len();
    let start: u64 = row * stride;
    let y0: usize = (top + row) as usize;
    let mut col: u64 = 0;
    while col < width && left + col < w as u64
        invariant
            w * h * 4 <= usize::MAX,
            left == at_least_zero(image.dst_x) <= i32::MAX,
            top == at_least_zero(image.dst_y) <= i32::MAX,
            width == at_least_zero(image.width) <= i32::MAX,
            stride == at_least_zero(image.stride) <= i32::MAX,
            row < at_least_zero(image.height) <= i32::MAX,
            start == row * stride,
            len == image.rgba@.len(),
            start + width * 4 <= len,
            y0 == top + row < h,
            col <= width,
            canvas@.len() == old(canvas)@.len() == w * h * 4,
            forall|x: int, y: int|
                #![trigger canvas_pixel(canvas@, w as int, x, y)]
                0 <= x < w && 0 <= y < h ==> canvas_pixel(canvas@, w as int, x, y) == if y == y0 && x
                    - left < col {
                    image.over(canvas_pixel(old(canvas)@, w as int, x, y), x, y)
                } else {
                    canvas_pixel(old(canvas)@, w as int, x, y)
                },
        decreases width - col,
    {
        let pixel = get_pixel(&image.rgba, (start + col * 4) as usize);
        draw_pixel(canvas, w, h, (left + col) as usize, y0, pixel);
        col = col + 1;
    }
}

fn clip(n: i32) -> (m: u64)
    ensures
        m == at_least_zero(n),
        m <= i32::MAX,
{
    if n < 0 {
        0
    } else {
        n as u64
    }
}

proof fn lemma_row_start(row: int, stride: int)
    by (nonlinear_arith)
    requires
        0 <= row <= i32::MAX,
        0 <= stride <= i32::MAX,
    ensures
        0 <= row * stride <= 0x3FFF_FFFF_0000_0001,
{
}

proof fn lemma_rows_grow(row: int, later: int, stride: int)
    by (nonlinear_arith)
    requires
        row <= later,
        0 <= stride,
    ensures
        row * stride <= later * stride,
{
}

/// Lays images over a clear frame, the first at the bottom.
pub fn composite_rgba(images: &[RenderedImage], w: usize, h: usize) -> (canvas: Vec<u8>)
    requires
        w * h * 4 <= usize::MAX,
    ensures
        canvas@ == canvas_of(images@, w as int, h as int),
{
    proof {
        assert(0 <= w * h) by (nonlinear_arith)
            requires
                0 <= w,
                0 <= h,
        ;
    }
    let mut canvas: Vec<u8> = vec![0; w * h * 4];
    let mut i: usize = 0;
    proof {
        assert forall|x: int, y: int|
            #![trigger canvas_pixel(canvas@, w as int, x, y)]
            0 <= x < w && 0 <= y < h implies canvas_pixel(canvas@, w as int, x, y) == clear_pixel()
        by {
            lemma_place(w as int, h as int, x, y);
        }
    }
    while i < images.len()
        invariant
            i <= images@.len(),
            w * h * 4 <= usize::MAX,
            canvas@.len() == w * h * 4,
            forall|x: int, y: int|
                #![trigger canvas_pixel(canvas@, w as int, x, y)]
                0 <= x < w && 0 <= y < h ==> canvas_pixel(canvas@, w as int, x, y) == composed(
                    images@,
                    i as int,
                    x,
                    y,
                ),
        decreases images@.len() - i,
    {
        draw_image(&mut canvas, w, h, &images[i]);
        i = i + 1;
    }
    proof {
        lemma_canvas(canvas@, images@, w as int, h as int);
    }
    canvas
}

/// Whether every whole pixel of an image is clear.
pub open spec fn all_clear(rgba: Seq<u8>) -> bool {
    forall|i: int| 0 <= i && 4 * i + 3 < rgba.len() ==> #[trigger] rgba[4 * i + 3] == 0
}

pub fn is_fully_transparent(rgba: &[u8]) -> (b: bool)
    ensures
        b == all_clear(rgba@),
{
    let len: usize = rgba.len();
    let mut n: usize = 0;
    while n < len / 4
        invariant
            n <= len / 4,
            len == rgba@.len(),
            forall|i: int| 0 <= i < n ==> #[trigger] rgba@[4 * i + 3] == 0,
        decreases len - n,
    {
        if rgba[4 * n + 3] != 0 {
            assert(rgba@[4 * (n as int) + 3] != 0);
            return false;
        }
        n = n + 1;
    }
    true
}

/// Why an image was not made into a PNG file.
#[derive(Debug, Clone, Copy, PartialEq, Eq, Structural)]
pub enum PngError {
    /// The image has no width or no height.
    EmptyImage,
    /// There are more or fewer bytes than the image has.
    WrongSize,
}

/// `png::EncodingError`, which is only passed on.
#[verifier::external_type_specification]
#[verifier::external_body]
pub struct ExPngEncodingError(png::EncodingError);

/// The PNG file that the `png` crate makes of an image in RGBA, eight bits to a
/// channel.
pub uninterp spec fn png_file(rgba: Seq<u8>, w: u32, h: u32) -> Seq<u8>;

/// What every PNG file starts with.
pub open spec fn png_signature() -> Seq<u8> {
    seq![0x89, 0x50, 0x4E, 0x47, 0x0D, 0x0A, 0x1A, 0x0A]
}

/// `png::Encoder` with `write_header` and `write_image_data`: it makes a file,
/// which depends on the image alone and starts with the signature, exactly of an
/// image that has pixels and as many bytes as they take.
#[verifier::external_body]
fn png_encode(rgba: &[u8], w: u32, h: u32) -> (r: Result<Vec<u8>, png::EncodingError>)
    requires
        (w * 4 + 1) * h <= usize::MAX,
    ensures
        match r {
            Ok(file) => {
                &&& w > 0 && h > 0 && rgba@.len() == w * h * 4
                &&& file@ == png_file(rgba@, w, h)
                &&& png_signature().is_prefix_of(file@)
            },
            Err(_) => !(w > 0 && h > 0 && rgba@.len() == w * h * 4),
        },
{
    let mut out = Vec::new();
    let mut encoder = png::Encoder::new(&mut out, w, h);
    encoder.set_color(png::ColorType::Rgba);
    encoder.set_depth(png::BitDepth::Eight);
    let mut writer = encoder.write_header()?;
    writer.write_image_data(rgba)?;
    drop(writer);
    Ok(out)
}

/// Makes a PNG file of an image in RGBA.
pub fn encode_png(rgba: &[u8], w: u32, h: u32) -> (r: Result<Vec<u8>, PngError>)
    requires
        (w * 4 + 1) * h <= usize::MAX,
    ensures
        match r {
            Ok(file) => {
                &&& w > 0 && h > 0 && rgba@.len() == w * h * 4
                &&& file@ == png_file(rgba@, w, h)
                &&& png_signature().is_prefix_of(file@)
            },
            Err(PngError::EmptyImage) => w == 0 || h == 0,
            Err(PngError::WrongSize) => w > 0 && h > 0 && rgba@.len() != w * h * 4,
        },
{
    match png_encode(rgba, w, h) {
        Ok(file) => Ok(file),
        Err(_) => if w == 0 || h == 0 {
            Err(PngError::EmptyImage)
        } else {
            Err(PngError::WrongSize)
        },
    }
}

/// Makes the picture of a caption, of the size of the frame; none where nothing
/// is to be seen.
pub fn caption_png(images: &[RenderedImage], w: u32, h: u32) -> (file: Option<Vec<u8>>)
    requires
        (w * 4 + 1) * h <= usize::MAX,
    ensures
        match file {
            Some(f) => {
                &&& images@.len() > 0
                &&& !all_clear(canvas_of(images@, w as int, h as int))
                &&& f@ == png_file(canvas_of(images@, w as int, h as int), w, h)
            },
            None => images@.len() == 0 || all_clear(canvas_of(images@, w as int, h as int)),
        },
{
    proof {
        assert(w * h * 4 <= (w * 4 + 1) * h) by (nonlinear_arith)
            requires
                0 <= w,
                0 <= h,
        ;
    }
    if images.len() == 0 {
        return None;
    }
    if w == 0 || h == 0 {
        assert(w * h * 4 == 0) by (nonlinear_arith)
            requires
                w == 0 || h == 0,
        ;
        return None;
    }
    proof {
        assert(w <= (w * 4 + 1) * h && h <= (w * 4 + 1) * h) by (nonlinear_arith)
            requires
                0 < w,
                0 < h,
        ;
    }
    let canvas = composite_rgba(images, w as usize, h as usize);
    if is_fully_transparent(canvas.as_slice()) {
        return None;
    }
    match encode_png(canvas.as_slice(), w, h) {
        Ok(file) => Some(file),
        Err(_) => None,
    }
}

// ------------------------------------------------------------- laws on pictures

proof fn lemma_mix(over: u8, under: u8, a: u8)
    ensures
        255 * mix(over, under, a) <= over * a + under * (255 - a) < 255 * mix(over, under, a) + 255,
{
    let sum = over * a + under * (255 - a);
    assert(0 <= sum <= 255 * 255) by (nonlinear_arith)
        requires
            sum == over * a + under * (255 - a),
            0 <= over <= 255,
            0 <= under <= 255,
            0 <= a <= 255,
    ;
    assert(0 <= sum / 255 <= 255);
}

/// A pixel laid over another: a clear one shows what is under it, an opaque one hides it;
/// any other mixes the two by its opacity, in 255ths, and adds its opacity to what is left
/// of the other's.
pub proof fn pixels_are_mixed_by_opacity(over: Pixel, under: Pixel)
    ensures
        over.a == 0 ==> blend(over, under) == under,
        over.a == 255 ==> blend(over, under) == over,
        0 < over.a < 255 ==> {
            let p = blend(over, under);
            let a = over.a as int;
            &&& 255 * p.r <= over.r * a + under.r * (255 - a) < 255 * p.r + 255
            &&& 255 * p.g <= over.g * a + under.g * (255 - a) < 255 * p.g + 255
            &&& 255 * p.b <= over.b * a + under.b * (255 - a) < 255 * p.b + 255
            &&& 255 * (p.a - a) <= under.a * (255 - a) < 255 * (p.a - a) + 255
        },
{
    lemma_mix(over.r, under.r, over.a);
    lemma_mix(over.g, under.g, over.a);
    lemma_mix(over.b, under.b, over.a);
    let (a, u) = (over.a as int, under.a as int);
    let left = u * (255 - a);
    assert(0 <= left <= 255 * (255 - a)) by (nonlinear_arith)
        requires
            left == u * (255 - a),
            0 <= u <= 255,
            0 <= a <= 255,
    ;
    assert(0 <= left / 255 <= 255 - a);
}

proof fn lemma_canvas_byte(images: Seq<RenderedImage>, w: int, h: int, x: int, y: int, k: int)
    requires
        0 <= x < w,
        0 <= y < h,
        0 <= k < 4,
    ensures
        0 <= (y * w + x) * 4 + k < w * h * 4,
        canvas_of(images, w, h).len() == w * h * 4,
        canvas_of(images, w, h)[(y * w + x) * 4 + k] == channel(
            composed(images, images.len() as int, x, y),
            k,
        ),
{
    lemma_place(w, h, x, y);
    let q = y * w + x;
    let i = q * 4 + k;
    assert(i / 4 == q && i % 4 == k);
    vstd::arithmetic::div_mod::lemma_fundamental_div_mod_converse(q, w, y, x);
    assert(q % w == x && q / w == y);
}

proof fn lemma_composed_of_part(images: Seq<RenderedImage>, top: RenderedImage, n: int, x: int, y: int)
    requires
        0 <= n <= images.len(),
    ensures
        composed(images.push(top), n, x, y) == composed(images, n, x, y),
    decreases n,
{
    if n > 0 {
        lemma_composed_of_part(images, top, n - 1, x, y);
    }
}

/// The four bytes of a pixel of a frame.
pub open spec fn frame_pixel(canvas: Seq<u8>, w: int, x: int, y: int) -> Pixel {
    Pixel {
        r: canvas[(y * w + x) * 4],
        g: canvas[(y * w + x) * 4 + 1],
        b: canvas[(y * w + x) * 4 + 2],
        a: canvas[(y * w + x) * 4 + 3],
    }
}

/// Where an image is put on a frame: at its own place, or at the edge where that lies
/// outside, to the left or above.
pub open spec fn placed(n: i32) -> int {
    if n > 0 {
        n as int
    } else {
        0
    }
}

/// An image laid over a frame changes the pixels that it covers, each by its own pixel, and
/// no others.  A row that its bytes do not hold in full, and what lies beyond the frame, is
/// left out.
pub proof fn an_image_changes_what_it_covers(
    images: Seq<RenderedImage>,
    top: RenderedImage,
    w: int,
    h: int,
    x: int,
    y: int,
)
    requires
        0 <= x < w,
        0 <= y < h,
    ensures
        ({
            let under = frame_pixel(canvas_of(images, w, h), w, x, y);
            let after = frame_pixel(canvas_of(images.push(top), w, h), w, x, y);
            let (row, col) = (y - placed(top.dst_y), x - placed(top.dst_x));
            let at = row * placed(top.stride) + col * 4;
            let covered = 0 <= row < placed(top.height) && 0 <= col < placed(top.width) && row
                * placed(top.stride) + placed(top.width) * 4 <= top.rgba@.len();
            &&& !covered ==> after == under
            &&& covered ==> after == blend(
                Pixel {
                    r: top.rgba@[at],
                    g: top.rgba@[at + 1],
                    b: top.rgba@[at + 2],
                    a: top.rgba@[at + 3],
                },
                under,
            )
        }),
{
    let more = images.push(top);
    lemma_canvas_byte(images, w, h, x, y, 0);
    lemma_canvas_byte(images, w, h, x, y, 1);
    lemma_canvas_byte(images, w, h, x, y, 2);
    lemma_canvas_byte(images, w, h, x, y, 3);
    lemma_canvas_byte(more, w, h, x, y, 0);
    lemma_canvas_byte(more, w, h, x, y, 1);
    lemma_canvas_byte(more, w, h, x, y, 2);
    lemma_canvas_byte(more, w, h, x, y, 3);
    lemma_composed_of_part(images, top, images.len() as int, x, y);
    assert(more[more.len() - 1] == top);
    assert(at_least_zero(top.dst_x) == placed(top.dst_x) && at_least_zero(top.dst_y) == placed(
        top.dst_y,
    ));
    assert(at_least_zero(top.width) == placed(top.width) && at_least_zero(top.height) == placed(
        top.height,
    ) && at_least_zero(top.stride) == placed(top.stride));
}

/// A frame without images is clear.
pub proof fn a_frame_without_images_is_clear(w: int, h: int, x: int, y: int)
    requires
        0 <= x < w,
        0 <= y < h,
    ensures
        canvas_of(Seq::empty(), w, h).len() == w * h * 4,
        frame_pixel(canvas_of(Seq::empty(), w, h), w, x, y) == (Pixel { r: 0, g: 0, b: 0, a: 0 }),
{
    let none = Seq::<RenderedImage>::empty();
    lemma_canvas_byte(none, w, h, x, y, 0);
    lemma_canvas_byte(none, w, h, x, y, 1);
    lemma_canvas_byte(none, w, h, x, y, 2);
    lemma_canvas_byte(none, w, h, x, y, 3);
}

/// A picture is clear exactly where no pixel has any opacity.
pub proof fn a_clear_picture_has_no_opacity(canvas: Seq<u8>, w: int, h: int)
    requires
        w > 0,
        h > 0,
        canvas.len() == w * h * 4,
    ensures
        all_clear(canvas) <==> forall|x: int, y: int|
            0 <= x < w && 0 <= y < h ==> (#[trigger] frame_pixel(canvas, w, x, y)).a == 0,
{
    if all_clear(canvas) {
        assert forall|x: int, y: int| 0 <= x < w && 0 <= y < h implies (#[trigger] frame_pixel(
            canvas,
            w,
            x,
            y,
        )).a == 0 by {
            lemma_place(w, h, x, y);
            let i = y * w + x;
            assert(canvas[4 * i + 3] == 0);
            assert(i * 4 + 3 == 4 * i + 3);
        }
    }
    if forall|x: int, y: int|
        0 <= x < w && 0 <= y < h ==> (#[trigger] frame_pixel(canvas, w, x, y)).a == 0 {
        assert forall|i: int| 0 <= i && 4 * i + 3 < canvas.len() implies #[trigger] canvas[4 * i + 3]
            == 0 by {
            let (x, y) = (i % w, i / w);
            assert(0 <= x < w && 0 <= y < h && y * w + x == i) by (nonlinear_arith)
                requires
                    0 <= i < w * h,
                    w > 0,
                    x == i % w,
                    y == i / w,
            ;
            assert(frame_pixel(canvas, w, x, y).a == 0);
        }
    }
}

} // verus!
