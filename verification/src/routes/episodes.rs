//! The episodes of a programme to choose from.
use vstd::prelude::*;

verus! {

pub struct EpisodeItem {
    pub episode_number: Option<i64>,
    pub episode_title: Option<String>,
    pub air_date: Option<String>,
}

pub struct SubtitleItem {
    pub title: String,
    pub air_date: Option<String>,
}

/// The episodes to choose from, or, where they have no numbers, their names.
pub struct EpisodesTemplate {
    pub episodes: Option<Vec<EpisodeItem>>,
    pub subtitles: Option<Vec<SubtitleItem>>,
}

pub struct EpisodesParams {
    pub program_id: Option<i64>,
}

/// The programme that is asked for, if any.
pub fn chosen_program(params: &EpisodesParams) -> (id: Option<i64>)
    ensures
        id == match params.program_id {
            Some(p) if p > 0 => Some(p),
            _ => None,
        },
{
    match params.program_id {
        Some(p) => if p > 0 {
            Some(p)
        } else {
            None
        },
        None => None,
    }
}

/// What is shown where no programme is asked for: no episodes.
pub fn no_episodes() -> (t: EpisodesTemplate)
    ensures
        t.episodes is Some,
        t.episodes->0@.len() == 0,
        t.subtitles is None,
{
    EpisodesTemplate { episodes: Some(Vec::new()), subtitles: None }
}

/// Whether no episode has a number.
pub open spec fn none_numbered(items: Seq<EpisodeItem>) -> bool {
    forall|i: int| 0 <= i < items.len() ==> (#[trigger] items[i]).episode_number is None
}

/// Whether the episodes' names are to be shown in place of the episodes.
pub fn needs_subtitles(items: &[EpisodeItem]) -> (b: bool)
    ensures
        b == none_numbered(items@),
{
    let mut i: usize = 0;
    while i < items.len()
        invariant
            i <= items@.len(),
            forall|j: int| 0 <= j < i ==> (#[trigger] items@[j]).episode_number is None,
        decreases items@.len() - i,
    {
        if items[i].episode_number.is_some() {
            assert(items@[i as int].episode_number is Some);
            return false;
        }
        i = i + 1;
    }
    true
}

/// What is shown of a programme: its episodes, or, where none has a number, their
/// names, if there are any.
pub fn episodes_page(items: Vec<EpisodeItem>, subtitles: Vec<SubtitleItem>) -> (t: EpisodesTemplate)
    ensures
        !none_numbered(items@) ==> t.episodes == Some(items) && t.subtitles is None,
        none_numbered(items@) ==> t.episodes is None && t.subtitles == if subtitles@.len() == 0 {
            None
        } else {
            Some(subtitles)
        },
{
    if needs_subtitles(items.as_slice()) {
        let names = if subtitles.len() == 0 {
            None
        } else {
            Some(subtitles)
        };
        EpisodesTemplate { episodes: None, subtitles: names }
    } else {
        EpisodesTemplate { episodes: Some(items), subtitles: None }
    }
}

/// One number is enough for the episodes to be shown.
pub proof fn one_number_is_enough(items: Seq<EpisodeItem>, item: EpisodeItem)
    ensures
        none_numbered(Seq::empty()),
        none_numbered(items.push(item)) <==> none_numbered(items) && item.episode_number is None,
{
    let all = items.push(item);
    assert(all[items.len() as int] == item);
    assert(forall|i: int| 0 <= i < items.len() ==> #[trigger] all[i] == items[i]);
    if none_numbered(all) {
        assert forall|i: int| 0 <= i < items.len() implies (
        #[trigger] items[i]).episode_number is None by {
            assert(all[i].episode_number is None);
        }
    }
}

} // verus!
