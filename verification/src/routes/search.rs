//! Searching captions: what is asked for, the statements that answer it, and the
//! page that shows the answer.
use vstd::prelude::*;
use vstd::utf8::{encode_scalar, encode_utf8};

use crate::routes::statement::{
    asked, bind_models, holding, int_bind, joined_places_agree, lemma_places_add, places,
    places_agree, places_among, text_bind, where_binds, where_text, write_holding, Bind, BindModel,
    Condition, WhereClause,
};
use crate::routes::{display_title, fmt_span, full_title, like_escaped, span_text};
use crate::text::{
    parse_i64, push_signed_dec, push_text, same_text, signed_dec, split, split_of_one_part,
    split_of_two_parts, split_text, texts, trim, trim_is_idempotent, trim_text, whole_number,
};
use crate::ts::pts::clamp_i64;
use crate::ts::title::{non_empty, text_opt};

verus! {

// ----------------------------------------------------------------------- pages

/// How many captions a page shows.
pub const PAGE_SIZE: i64 = 50;

/// The last page that can be asked for.
pub const MAX_PAGE: i64 = 1_000_000;

fn clamp(x: i128) -> (r: i64)
    ensures
        r == clamp_i64(x as int),
{
    if x > 0x7FFF_FFFF_FFFF_FFFF {
        0x7FFF_FFFF_FFFF_FFFF
    } else if x < -0x8000_0000_0000_0000 {
        -0x8000_0000_0000_0000
    } else {
        x as i64
    }
}

/// Where the page after a page starts.
pub open spec fn next_start(page: int) -> int {
    clamp_i64(clamp_i64(page + 1) * PAGE_SIZE)
}

/// Of a page and the number of captions: how many have been shown, whether there
/// are more, and where the page starts.  Numbers too large are held at the
/// largest.
pub fn page_window(page: i64, total: i64) -> (w: (i64, bool, i64))
    ensures
        w.0 == if next_start(page as int) < total {
            next_start(page as int)
        } else {
            total as int
        },
        w.1 == (next_start(page as int) < total),
        w.2 == clamp_i64(page * PAGE_SIZE),
{
    let next: i64 = clamp(page as i128 + 1);
    assert(i64::MIN * 50 <= next * PAGE_SIZE <= i64::MAX * 50);
    let after: i64 = clamp(next as i128 * PAGE_SIZE as i128);
    let loaded: i64 = if after < total {
        after
    } else {
        total
    };
    (loaded, after < total, clamp(page as i128 * PAGE_SIZE as i128))
}

/// Pages follow one another: as long as pages can be asked for, a page ends where
/// the next one starts, and shows as many captions as a page has room for.
pub proof fn pages_follow_one_another(page: int)
    requires
        0 <= page < MAX_PAGE,
    ensures
        next_start(page) == clamp_i64((page + 1) * PAGE_SIZE),
        next_start(page) - clamp_i64(page * PAGE_SIZE) == PAGE_SIZE,
{
}

/// No page number, however large, makes a page start before the first caption, or
/// shows more captions than there are.
pub proof fn pages_stay_in_bounds(page: int, total: int)
    requires
        0 <= page <= i64::MAX,
        0 <= total <= i64::MAX,
    ensures
        0 <= clamp_i64(page * PAGE_SIZE) <= next_start(page),
        0 <= (if next_start(page) < total {
            next_start(page)
        } else {
            total
        }) <= total,
{
}

// ------------------------------------------------------------------ parameters

/// Why a parameter was refused.
#[derive(Debug, Clone, Copy, PartialEq, Eq, Structural)]
pub enum QueryError {
    /// It is no whole number, or one too large.
    NotANumber,
}

/// A number among the parameters; one that is missing or empty is none.
pub fn empty_as_none_i64(s: Option<&str>) -> (r: Result<Option<i64>, QueryError>)
    ensures
        match r {
            Ok(None) => s is None || s->0@.len() == 0,
            Ok(Some(n)) => s is Some && s->0@.len() > 0 && whole_number(s->0@) == Some(n as int),
            Err(QueryError::NotANumber) => s is Some && s->0@.len() > 0 && whole_number(
                s->0@,
            ) is None,
        },
{
    match s {
        None => Ok(None),
        Some(v) => {
            if v.is_empty() {
                return Ok(None);
            }
            match parse_i64(v) {
                Some(n) => Ok(Some(n)),
                None => Err(QueryError::NotANumber),
            }
        },
    }
}

/// A text among the parameters, without white space at its ends; one that is
/// missing or blank is none.
pub fn empty_as_none_string(s: Option<&str>) -> (r: Option<String>)
    ensures
        text_opt(r) == match s {
            Some(v) => non_empty(trim(v@)),
            None => None,
        },
{
    match s {
        None => None,
        Some(v) => {
            let t = trim_text(v);
            if t.as_str().is_empty() {
                None
            } else {
                Some(t)
            }
        },
    }
}

// ------------------------------------------------------------------------ tags

/// The tags in some lines: each line that is not blank, without white space at
/// its ends.
pub open spec fn tags_of(s: Seq<char>) -> Seq<Seq<char>> {
    split(s, '\n').map_values(|line: Seq<char>| trim(line)).filter(|tag: Seq<char>| tag.len() > 0)
}

/// The tags in some lines.
pub fn tag_list(s: &str) -> (tags: Vec<String>)
    ensures
        texts(tags@) == tags_of(s@),
{
    let lines = split_text(s, '\n');
    let ghost trimmed = split(s@, '\n').map_values(|line: Seq<char>| trim(line));
    let ghost kept = |tag: Seq<char>| tag.len() > 0;
    let mut tags: Vec<String> = Vec::new();
    let mut i: usize = 0;
    reveal(Seq::filter);
    assert(texts(tags@) =~= trimmed.take(0).filter(kept));
    while i < lines.len()
        invariant
            i <= lines@.len(),
            texts(lines@) == split(s@, '\n'),
            trimmed == split(s@, '\n').map_values(|line: Seq<char>| trim(line)),
            kept == (|tag: Seq<char>| tag.len() > 0),
            texts(tags@) == trimmed.take(i as int).filter(kept),
        decreases lines@.len() - i,
    {
        reveal(Seq::filter);
        let tag = trim_text(lines[i].as_str());
        assert(texts(lines@)[i as int] == lines@[i as int]@);
        assert(trimmed.take(i + 1).drop_last() =~= trimmed.take(i as int));
        if !tag.as_str().is_empty() {
            push_text(&mut tags, tag.as_str());
        }
        i = i + 1;
    }
    assert(trimmed.take(i as int) =~= trimmed);
    tags
}

/// Every tag has characters, and no white space at its ends.
pub proof fn tags_are_trimmed(s: Seq<char>)
    ensures
        forall|i: int|
            #![trigger tags_of(s)[i]]
            0 <= i < tags_of(s).len() ==> tags_of(s)[i].len() > 0 && trim(tags_of(s)[i])
                == tags_of(s)[i],
{
    let lines = split(s, '\n');
    let trimmed = lines.map_values(|line: Seq<char>| trim(line));
    assert forall|i: int| 0 <= i < trimmed.len() implies trim(#[trigger] trimmed[i])
        == trimmed[i] by {
        trim_is_idempotent(lines[i]);
    }
    lemma_kept_tags(trimmed);
}

proof fn lemma_kept_tags(all: Seq<Seq<char>>)
    requires
        forall|i: int| 0 <= i < all.len() ==> trim(#[trigger] all[i]) == all[i],
    ensures
        ({
            let kept = all.filter(|tag: Seq<char>| tag.len() > 0);
            forall|i: int|
                #![trigger kept[i]]
                0 <= i < kept.len() ==> kept[i].len() > 0 && trim(kept[i]) == kept[i]
        }),
    decreases all.len(),
{
    reveal(Seq::filter);
    if all.len() > 0 {
        let front = all.drop_last();
        assert(forall|i: int| 0 <= i < front.len() ==> #[trigger] front[i] == all[i]);
        lemma_kept_tags(front);
        let kept = all.filter(|tag: Seq<char>| tag.len() > 0);
        let before = front.filter(|tag: Seq<char>| tag.len() > 0);
        assert(trim(all[all.len() - 1]) == all[all.len() - 1]);
        assert forall|i: int|
            #![trigger kept[i]]
            0 <= i < kept.len() implies kept[i].len() > 0 && trim(kept[i]) == kept[i] by {
            if i < before.len() {
                assert(kept[i] == before[i]);
            }
        }
    }
}

// ----------------------------------------------------------------- the request

/// The parameters of a search.
#[derive(Debug, Clone)]
pub struct SearchParams {
    pub q: Option<String>,
    pub program_id: Option<i64>,
    pub ep: Option<i64>,
    pub sub: Option<String>,
    pub date_from: Option<String>,
    pub date_to: Option<String>,
    /// Tags, one to a line; a caption must have them all.
    pub tags: Option<String>,
    pub filter: Option<String>,
    pub page: Option<i64>,
}

/// What a search asks for.
#[derive(Debug)]
pub struct SearchRequest {
    /// The text to look for, where there is enough of it.
    pub active_q: Option<String>,
    pub program_id: Option<i64>,
    pub ep: Option<i64>,
    pub sub: Option<String>,
    pub date_from: Option<String>,
    pub date_to: Option<String>,
    pub tags: Vec<String>,
    pub filter: String,
    pub page: i64,
    /// The frame that stands for a caption of which none was chosen.
    pub rep_frame: i64,
}

/// What a search asks for, as mathematical values.
pub ghost struct SearchModel {
    pub active_q: Option<Seq<char>>,
    pub program_id: Option<i64>,
    pub ep: Option<i64>,
    pub sub: Option<Seq<char>>,
    pub date_from: Option<Seq<char>>,
    pub date_to: Option<Seq<char>>,
    pub tags: Seq<Seq<char>>,
    pub filter: Seq<char>,
    pub page: i64,
    pub rep_frame: i64,
}

impl View for SearchRequest {
    type V = SearchModel;

    open spec fn view(&self) -> SearchModel {
        SearchModel {
            active_q: text_opt(self.active_q),
            program_id: self.program_id,
            ep: self.ep,
            sub: text_opt(self.sub),
            date_from: text_opt(self.date_from),
            date_to: text_opt(self.date_to),
            tags: texts(self.tags@),
            filter: self.filter@,
            page: self.page,
            rep_frame: self.rep_frame,
        }
    }
}

/// A text, or another where it is missing.
pub open spec fn text_or(s: Option<String>, other: Seq<char>) -> Seq<char> {
    match s {
        Some(t) => t@,
        None => other,
    }
}

/// A text is looked for from two bytes on.
pub open spec fn active_query(q: Seq<char>) -> Option<Seq<char>> {
    if encode_utf8(trim(q)).len() >= 2 {
        Some(trim(q))
    } else {
        None
    }
}

/// The text to look for, where there is enough of it.
pub fn active_q(q: &str) -> (a: Option<String>)
    ensures
        text_opt(a) == active_query(q@),
{
    let t = trim_text(q);
    if t.as_str().as_bytes().len() >= 2 {
        Some(t)
    } else {
        None
    }
}

/// A page that can be asked for.
pub open spec fn held_page(page: Option<i64>) -> i64 {
    match page {
        None => 0,
        Some(p) => if p < 0 {
            0
        } else if p > MAX_PAGE {
            MAX_PAGE
        } else {
            p
        },
    }
}

pub fn clamp_page(page: Option<i64>) -> (p: i64)
    ensures
        p == held_page(page),
        0 <= p <= MAX_PAGE,
{
    match page {
        None => 0,
        Some(p) => if p < 0 {
            0
        } else if p > MAX_PAGE {
            MAX_PAGE
        } else {
            p
        },
    }
}

/// What a search asks for.
pub open spec fn request_of(p: SearchParams, thumb_count: u32) -> SearchModel {
    SearchModel {
        active_q: active_query(text_or(p.q, Seq::empty())),
        program_id: p.program_id,
        ep: p.ep,
        sub: text_opt(p.sub),
        date_from: text_opt(p.date_from),
        date_to: text_opt(p.date_to),
        tags: tags_of(text_or(p.tags, Seq::empty())),
        filter: text_or(p.filter, "all"@),
        page: held_page(p.page),
        rep_frame: (thumb_count / 2) as i64,
    }
}

/// Reads what a search asks for.
pub fn search_request(params: SearchParams, thumb_count: u32) -> (r: SearchRequest)
    ensures
        r@ == request_of(params, thumb_count),
{
    let q = match params.q {
        Some(q) => q,
        None => String::new(),
    };
    let tags = match params.tags {
        Some(t) => t,
        None => String::new(),
    };
    let filter = match params.filter {
        Some(f) => f,
        None => "all".to_string(),
    };
    SearchRequest {
        active_q: active_q(q.as_str()),
        program_id: params.program_id,
        ep: params.ep,
        sub: params.sub,
        date_from: params.date_from,
        date_to: params.date_to,
        tags: tag_list(tags.as_str()),
        filter,
        page: clamp_page(params.page),
        rep_frame: (thumb_count / 2) as i64,
    }
}

impl SearchModel {
    /// Whether anything is asked for at all.
    pub open spec fn asks(self) -> bool {
        ||| self.active_q is Some
        ||| self.program_id is Some
        ||| self.ep is Some
        ||| self.sub is Some
        ||| self.date_from is Some
        ||| self.date_to is Some
        ||| self.tags.len() > 0
        ||| self.filter != "all"@
    }
}

impl SearchRequest {
    /// Whether anything is asked for at all; without, nothing is searched.
    pub fn asks(&self) -> (b: bool)
        ensures
            b == self@.asks(),
    {
        self.active_q.is_some() || self.program_id.is_some() || self.ep.is_some()
            || self.sub.is_some() || self.date_from.is_some() || self.date_to.is_some()
            || self.tags.len() > 0 || !same_text(self.filter.as_str(), "all")
    }
}

// -------------------------------------------------------------- the statements

/// A pattern for a text to look for; none where it is missing or blank.
pub open spec fn sub_pattern(sub: Option<Seq<char>>) -> Option<Seq<char>> {
    match sub {
        Some(s) if trim(s).len() > 0 => Some(holding(trim(s))),
        _ => None,
    }
}

pub open spec fn query_pattern(q: Option<Seq<char>>) -> Option<Seq<char>> {
    match q {
        Some(t) => Some(holding(t)),
        None => None,
    }
}

/// A condition for each tag.
pub open spec fn tag_conditions(tags: Seq<Seq<char>>) -> Seq<Condition> {
    tags.map_values(
        |tag: Seq<char>|
            Condition {
                sql: "EXISTS(SELECT 1 FROM tags tg WHERE tg.caption_id = c.id AND tg.tag = ?)"@,
                bind: Some(BindModel::Text(tag)),
            },
    )
}

/// The condition of the tab that is open.
pub open spec fn filter_conditions(filter: Seq<char>) -> Seq<Condition> {
    if filter == "generated"@ {
        seq![
            Condition {
                sql: "EXISTS(SELECT 1 FROM thumbnails th WHERE th.caption_id = c.id)"@,
                bind: None,
            },
        ]
    } else if filter == "pending"@ {
        seq![
            Condition {
                sql: "NOT EXISTS(SELECT 1 FROM thumbnails th WHERE th.caption_id = c.id)"@,
                bind: None,
            },
        ]
    } else {
        Seq::empty()
    }
}

/// The conditions of a search.
pub open spec fn search_conditions(r: SearchModel) -> Seq<Condition> {
    asked("c.text LIKE ? ESCAPE '\\'"@, text_bind(query_pattern(r.active_q))) + asked(
        "f.program_id = ?"@,
        int_bind(r.program_id),
    ) + asked("f.episode_number = ?"@, int_bind(r.ep)) + asked(
        "f.episode_title LIKE ? ESCAPE '\\'"@,
        text_bind(sub_pattern(r.sub)),
    ) + asked("f.air_date >= ?"@, text_bind(r.date_from)) + asked(
        "f.air_date <= ?"@,
        text_bind(r.date_to),
    ) + tag_conditions(r.tags) + filter_conditions(r.filter)
}

fn pattern_of_query(q: &Option<String>) -> (p: Option<String>)
    ensures
        text_opt(p) == query_pattern(text_opt(*q)),
{
    match q {
        Some(t) => Some(write_holding(t.as_str())),
        None => None,
    }
}

fn pattern_of_sub(sub: &Option<String>) -> (p: Option<String>)
    ensures
        text_opt(p) == sub_pattern(text_opt(*sub)),
{
    match sub {
        Some(s) => {
            let t = trim_text(s.as_str());
            if t.as_str().is_empty() {
                None
            } else {
                Some(write_holding(t.as_str()))
            }
        },
        None => None,
    }
}

fn copy_text(s: &Option<String>) -> (t: Option<String>)
    ensures
        text_opt(t) == text_opt(*s),
{
    match s {
        Some(t) => Some(t.clone()),
        None => None,
    }
}

fn push_tags(w: &mut WhereClause, tags: &Vec<String>)
    requires
        old(w).wf(),
    ensures
        final(w).wf(),
        final(w).conditions() == old(w).conditions() + tag_conditions(texts(tags@)),
{
    let ghost before = w.conditions();
    let ghost all = tag_conditions(texts(tags@));
    let mut i: usize = 0;
    assert(before + all.take(0) =~= before);
    while i < tags.len()
        invariant
            i <= tags@.len(),
            w.wf(),
            all == tag_conditions(texts(tags@)),
            w.conditions() == before + all.take(i as int),
        decreases tags@.len() - i,
    {
        w.push(
            "EXISTS(SELECT 1 FROM tags tg WHERE tg.caption_id = c.id AND tg.tag = ?)",
            Some(Bind::Text(tags[i].clone())),
        );
        assert(w.conditions() =~= before + all.take(i + 1));
        i = i + 1;
    }
    assert(all.take(i as int) =~= all);
}

fn push_filter(w: &mut WhereClause, filter: &str)
    requires
        old(w).wf(),
    ensures
        final(w).wf(),
        final(w).conditions() == old(w).conditions() + filter_conditions(filter@),
{
    if same_text(filter, "generated") {
        w.push("EXISTS(SELECT 1 FROM thumbnails th WHERE th.caption_id = c.id)", None);
    } else if same_text(filter, "pending") {
        w.push("NOT EXISTS(SELECT 1 FROM thumbnails th WHERE th.caption_id = c.id)", None);
    }
    assert(w.conditions() =~= old(w).conditions() + filter_conditions(filter@));
}

fn search_where(r: &SearchRequest) -> (w: WhereClause)
    ensures
        w.wf(),
        w.conditions() == search_conditions(r@),
{
    let mut w = WhereClause::new();
    w.push_text("c.text LIKE ? ESCAPE '\\'", pattern_of_query(&r.active_q));
    w.push_int("f.program_id = ?", r.program_id);
    w.push_int("f.episode_number = ?", r.ep);
    w.push_text("f.episode_title LIKE ? ESCAPE '\\'", pattern_of_sub(&r.sub));
    w.push_text("f.air_date >= ?", copy_text(&r.date_from));
    w.push_text("f.air_date <= ?", copy_text(&r.date_to));
    push_tags(&mut w, &r.tags);
    push_filter(&mut w, r.filter.as_str());
    assert(Seq::<Condition>::empty() + asked(
        "c.text LIKE ? ESCAPE '\\'"@,
        text_bind(query_pattern(r@.active_q)),
    ) =~= asked("c.text LIKE ? ESCAPE '\\'"@, text_bind(query_pattern(r@.active_q))));
    w
}

/// The statement that counts, before its conditions.
pub const COUNT_HEAD: &'static str = "SELECT COUNT(*) FROM captions c JOIN ts_files f ON c.ts_file_id = f.id LEFT JOIN programs p ON f.program_id = p.id ";

/// The statement that finds, before the place for the frame shown.
pub const MAIN_HEAD: &'static str = "SELECT c.id AS caption_id, c.text, c.pts_start AS pts_start_ms, c.pts_end AS pts_end_ms, f.air_date, f.episode_number, f.episode_title, COALESCE(p.title, f.filename) AS title, CASE WHEN t.caption_id IS NOT NULL THEN 1 ELSE 0 END AS has_thumb, COALESCE(t.selected_frame, ";

/// The statement that finds, between that place and its conditions.
pub const MAIN_FROM: &'static str = "?) AS preview_frame FROM captions c JOIN ts_files f ON c.ts_file_id = f.id LEFT JOIN programs p ON f.program_id = p.id LEFT JOIN thumbnails t ON t.caption_id = c.id ";

/// The statement that finds, after its conditions.
pub const MAIN_TAIL: &'static str = " ORDER BY f.air_date DESC, f.episode_number, c.pts_start LIMIT ? OFFSET ?";

/// The statements of a search.
pub struct SearchPlan {
    /// The number of captions.
    pub count_sql: String,
    pub count_binds: Vec<Bind>,
    /// The captions of the page.
    pub main_sql: String,
    pub main_binds: Vec<Bind>,
}

pub open spec fn count_statement(r: SearchModel) -> Seq<char> {
    COUNT_HEAD@ + where_text(search_conditions(r))
}

pub open spec fn main_statement(r: SearchModel) -> Seq<char> {
    MAIN_HEAD@ + MAIN_FROM@ + where_text(search_conditions(r)) + MAIN_TAIL@
}

/// The values for the places of the statement that finds: the frame shown comes
/// first, as its place does.
pub open spec fn main_values(r: SearchModel) -> Seq<BindModel> {
    seq![BindModel::Int(r.rep_frame)] + where_binds(search_conditions(r)) + seq![
        BindModel::Int(PAGE_SIZE),
        BindModel::Int(clamp_i64(r.page * PAGE_SIZE) as i64),
    ]
}

/// Writes the statements of a search.
pub fn search_plan(r: &SearchRequest) -> (plan: SearchPlan)
    ensures
        plan.count_sql@ == count_statement(r@),
        bind_models(plan.count_binds@) == where_binds(search_conditions(r@)),
        plan.main_sql@ == main_statement(r@),
        bind_models(plan.main_binds@) == main_values(r@),
{
    let w = search_where(r);
    let mut count_sql = COUNT_HEAD.to_string();
    count_sql.append(w.sql());
    let mut main_sql = MAIN_HEAD.to_string();
    main_sql.append(MAIN_FROM);
    main_sql.append(w.sql());
    main_sql.append(MAIN_TAIL);
    let (_, _, offset) = page_window(r.page, 0);
    let count_binds = w.binds();
    let mut main_binds: Vec<Bind> = Vec::new();
    main_binds.push(Bind::Int(r.rep_frame));
    let mut values = w.binds();
    let ghost given = values@;
    main_binds.append(&mut values);
    main_binds.push(Bind::Int(PAGE_SIZE));
    main_binds.push(Bind::Int(offset));
    assert(bind_models(main_binds@) =~= seq![BindModel::Int(r.rep_frame)] + bind_models(given)
        + seq![BindModel::Int(PAGE_SIZE), BindModel::Int(offset)]);
    SearchPlan { count_sql, count_binds, main_sql, main_binds }
}

// ------------------------------------------------------------------ the results

/// A programme to choose.
pub struct ProgramItem {
    pub id: i64,
    pub title: String,
}

/// The page to search from.
pub struct IndexTemplate {
    pub query: String,
    pub programs: Vec<ProgramItem>,
}

/// The page to search from, before anything is asked for.
pub fn index_page(programs: Vec<ProgramItem>) -> (page: IndexTemplate)
    ensures
        page.query@.len() == 0,
        page.programs == programs,
{
    IndexTemplate { query: String::new(), programs }
}

/// A page of results.
pub struct SearchResultsTemplate {
    pub results: Vec<SearchResult>,
    pub page: i64,
    /// The number of captions found.
    pub total: i64,
    /// How many of them have been shown, this page included.
    pub loaded: i64,
    pub has_next: bool,
}

/// A caption that was found.
pub struct SearchResult {
    pub id: i64,
    pub text: String,
    pub time_str: String,
    pub display_title: String,
    pub air_date: Option<String>,
    /// Whether there are thumbnails of it.
    pub has_thumb: bool,
    /// The frame that stands for it.
    pub preview_frame: i64,
    pub tags: Vec<String>,
}

/// A caption as the database gives it.
pub struct SearchRow {
    pub caption_id: i64,
    pub text: String,
    pub pts_start_ms: i64,
    pub pts_end_ms: i64,
    pub air_date: Option<String>,
    pub episode_number: Option<i64>,
    pub episode_title: Option<String>,
    pub title: String,
    pub has_thumb: i64,
    pub preview_frame: i64,
}

/// Whether a result shows a caption, apart from its tags.
pub open spec fn shows_row(r: SearchResult, row: SearchRow) -> bool {
    &&& r.id == row.caption_id
    &&& r.text@ == row.text@
    &&& r.time_str@ == span_text(row.pts_start_ms as int, row.pts_end_ms as int)
    &&& r.display_title@ == full_title(row.title@, row.episode_number, text_opt(row.episode_title))
    &&& r.air_date == row.air_date
    &&& r.has_thumb == (row.has_thumb != 0)
    &&& r.preview_frame == row.preview_frame
}

/// What a page shows of a caption, before its tags are known.
pub fn search_result(row: SearchRow) -> (r: SearchResult)
    ensures
        shows_row(r, row),
        r.tags@.len() == 0,
{
    let sub = match &row.episode_title {
        Some(t) => Some(t.as_str()),
        None => None,
    };
    let title = display_title(row.title.as_str(), row.episode_number, sub);
    SearchResult {
        id: row.caption_id,
        text: row.text,
        time_str: fmt_span(row.pts_start_ms, row.pts_end_ms),
        display_title: title,
        air_date: row.air_date,
        has_thumb: row.has_thumb != 0,
        preview_frame: row.preview_frame,
        tags: Vec::new(),
    }
}

/// Numbers, with commas between them.
pub open spec fn number_list(ids: Seq<i64>) -> Seq<char>
    decreases ids.len(),
{
    if ids.len() == 0 {
        Seq::empty()
    } else if ids.len() == 1 {
        signed_dec(ids[0] as int)
    } else {
        number_list(ids.drop_last()) + ","@ + signed_dec(ids.last() as int)
    }
}

/// The statement that finds the tags of some captions.
pub fn tags_sql(ids: &[i64]) -> (s: String)
    ensures
        s@ == "SELECT caption_id, tag FROM tags WHERE caption_id IN ("@ + number_list(ids@)
            + ") ORDER BY tag"@,
{
    let mut list = String::new();
    let mut i: usize = 0;
    assert(ids@.take(0) =~= Seq::empty());
    while i < ids.len()
        invariant
            i <= ids@.len(),
            list@ == number_list(ids@.take(i as int)),
        decreases ids@.len() - i,
    {
        if i > 0 {
            list.append(",");
        }
        push_signed_dec(&mut list, ids[i]);
        proof {
            assert(ids@.take(i + 1).drop_last() =~= ids@.take(i as int));
            assert(list@ =~= number_list(ids@.take(i + 1)));
        }
        i = i + 1;
    }
    assert(ids@.take(i as int) =~= ids@);
    let mut s = "SELECT caption_id, tag FROM tags WHERE caption_id IN (".to_string();
    s.append(list.as_str());
    s.append(") ORDER BY tag");
    s
}

/// The tags of a caption among some, in order.
pub open spec fn tags_with_id(rows: Seq<(i64, String)>, id: i64) -> Seq<Seq<char>>
    decreases rows.len(),
{
    if rows.len() == 0 {
        Seq::empty()
    } else if rows.last().0 == id {
        tags_with_id(rows.drop_last(), id).push(rows.last().1@)
    } else {
        tags_with_id(rows.drop_last(), id)
    }
}

fn find_tags(rows: &[(i64, String)], id: i64) -> (tags: Vec<String>)
    ensures
        texts(tags@) == tags_with_id(rows@, id),
{
    let mut tags: Vec<String> = Vec::new();
    let mut i: usize = 0;
    assert(rows@.take(0) =~= Seq::empty());
    assert(texts(tags@) =~= Seq::empty());
    while i < rows.len()
        invariant
            i <= rows@.len(),
            texts(tags@) == tags_with_id(rows@.take(i as int), id),
        decreases rows@.len() - i,
    {
        assert(rows@.take(i + 1).drop_last() =~= rows@.take(i as int));
        if rows[i].0 == id {
            push_text(&mut tags, rows[i].1.as_str());
        }
        i = i + 1;
    }
    assert(rows@.take(i as int) =~= rows@);
    tags
}

/// Whether a result is the first one of its caption.
pub open spec fn first_of_its_caption(results: Seq<SearchResult>, i: int) -> bool {
    forall|j: int| 0 <= j < i ==> (#[trigger] results[j]).id != results[i].id
}

fn is_first_of_its_caption(results: &Vec<SearchResult>, i: usize) -> (b: bool)
    requires
        i < results@.len(),
    ensures
        b == first_of_its_caption(results@, i as int),
{
    let mut j: usize = 0;
    while j < i
        invariant
            j <= i < results@.len(),
            forall|k: int| 0 <= k < j ==> (#[trigger] results@[k]).id != results@[i as int].id,
        decreases i - j,
    {
        if results[j].id == results[i].id {
            assert(results@[j as int].id == results@[i as int].id);
            return false;
        }
        j = j + 1;
    }
    true
}

/// The results with their tags, which go to the first result of each caption.
pub open spec fn has_tags_of(tagged: SearchResult, results: Seq<SearchResult>, i: int, rows: Seq<
    (i64, String),
>) -> bool {
    &&& tagged == SearchResult { tags: tagged.tags, ..results[i] }
    &&& texts(tagged.tags@) == if first_of_its_caption(results, i) {
        tags_with_id(rows, results[i].id)
    } else {
        Seq::empty()
    }
}

/// Gives the results their tags.
pub fn attach_tags(results: Vec<SearchResult>, rows: &[(i64, String)]) -> (tagged: Vec<SearchResult>)
    ensures
        tagged@.len() == results@.len(),
        forall|i: int|
            0 <= i < results@.len() ==> has_tags_of(#[trigger] tagged@[i], results@, i, rows@),
{
    let mut found: Vec<Vec<String>> = Vec::new();
    let mut i: usize = 0;
    while i < results.len()
        invariant
            i <= results@.len(),
            found@.len() == i,
            forall|k: int|
                0 <= k < i ==> texts((#[trigger] found@[k])@) == if first_of_its_caption(
                    results@,
                    k,
                ) {
                    tags_with_id(rows@, results@[k].id)
                } else {
                    Seq::empty()
                },
        decreases results@.len() - i,
    {
        if is_first_of_its_caption(&results, i) {
            found.push(find_tags(rows, results[i].id));
        } else {
            let none: Vec<String> = Vec::new();
            assert(texts(none@) =~= Seq::empty());
            found.push(none);
        }
        i = i + 1;
    }
    let ghost all = results@;
    let ghost lists = found@;
    let mut tagged: Vec<SearchResult> = Vec::new();
    for result in it: results
        invariant
            it.seq() == all,
            lists.len() == all.len(),
            found@ == lists.skip(it.index() as int),
            tagged@.len() == it.index(),
            forall|k: int|
                0 <= k < tagged@.len() ==> #[trigger] tagged@[k] == (SearchResult {
                    tags: lists[k],
                    ..all[k]
                }),
    {
        let mut r = result;
        r.tags = found.remove(0);
        tagged.push(r);
        assert(found@ =~= lists.skip(it.index() + 1));
    }
    tagged
}

/// The page of a search that asks for nothing.
pub fn empty_page() -> (p: SearchResultsTemplate)
    ensures
        p.results@.len() == 0,
        p.page == 0,
        p.total == 0,
        p.loaded == 0,
        !p.has_next,
{
    SearchResultsTemplate { results: Vec::new(), page: 0, total: 0, loaded: 0, has_next: false }
}

/// Whether a page is the one of a number, of so many captions.
pub open spec fn is_page(p: SearchResultsTemplate, page: i64, total: i64) -> bool {
    &&& p.page == page
    &&& p.total == total
    &&& p.loaded == if next_start(page as int) < total {
        next_start(page as int)
    } else {
        total as int
    }
    &&& p.has_next == (next_start(page as int) < total)
}

/// The page that shows results.
pub fn results_page(results: Vec<SearchResult>, page: i64, total: i64) -> (p: SearchResultsTemplate)
    ensures
        p.results == results,
        is_page(p, page, total),
{
    let (loaded, has_next, _) = page_window(page, total);
    SearchResultsTemplate { results, page, total, loaded, has_next }
}

// ---------------------------------------------------------------- the search run

/// What to ask the database next, or the page to show.
pub enum SearchStep {
    /// Count the captions.
    Count { sql: String, binds: Vec<Bind> },
    /// Find the captions of the page.
    Rows { sql: String, binds: Vec<Bind> },
    /// Find the tags of the captions found.
    Tags { sql: String },
    /// Show the page.
    Done(SearchResultsTemplate),
}

/// A search, between one answer of the database and the next.
pub struct SearchRun {
    request: SearchRequest,
    total: i64,
    results: Vec<SearchResult>,
}

impl SearchRun {
    pub closed spec fn request(self) -> SearchModel {
        self.request@
    }

    pub closed spec fn total(self) -> i64 {
        self.total
    }

    pub closed spec fn results(self) -> Seq<SearchResult> {
        self.results@
    }

    /// A search begins: where nothing is asked for, with the empty page; else
    /// with counting.
    pub fn start(params: SearchParams, thumb_count: u32) -> (r: (SearchRun, SearchStep))
        ensures
            r.0.request() == request_of(params, thumb_count),
            match r.1 {
                SearchStep::Done(page) => !request_of(params, thumb_count).asks()
                    && page.results@.len() == 0 && page.page == 0 && page.total == 0 && page.loaded
                    == 0 && !page.has_next,
                SearchStep::Count { sql, binds } => {
                    &&& request_of(params, thumb_count).asks()
                    &&& sql@ == count_statement(request_of(params, thumb_count))
                    &&& bind_models(binds@) == where_binds(
                        search_conditions(request_of(params, thumb_count)),
                    )
                },
                _ => false,
            },
    {
        let request = search_request(params, thumb_count);
        let step = if request.asks() {
            let plan = search_plan(&request);
            SearchStep::Count { sql: plan.count_sql, binds: plan.count_binds }
        } else {
            SearchStep::Done(empty_page())
        };
        (SearchRun { request, total: 0, results: Vec::new() }, step)
    }

    /// The captions have been counted: where there are none, the page is empty;
    /// else those of the page are to be found.
    pub fn counted(&mut self, total: i64) -> (step: SearchStep)
        ensures
            final(self).request() == old(self).request(),
            final(self).total() == total,
            match step {
                SearchStep::Done(page) => total == 0 && page.results@.len() == 0 && is_page(
                    page,
                    old(self).request().page,
                    0,
                ),
                SearchStep::Rows { sql, binds } => {
                    &&& total != 0
                    &&& sql@ == main_statement(old(self).request())
                    &&& bind_models(binds@) == main_values(old(self).request())
                },
                _ => false,
            },
    {
        self.total = total;
        if total == 0 {
            return SearchStep::Done(results_page(Vec::new(), self.request.page, 0));
        }
        let plan = search_plan(&self.request);
        SearchStep::Rows { sql: plan.main_sql, binds: plan.main_binds }
    }

    /// The captions of the page have been found: where there are none, the page
    /// is shown; else their tags are to be found.
    pub fn found(&mut self, rows: Vec<SearchRow>) -> (step: SearchStep)
        ensures
            final(self).request() == old(self).request(),
            final(self).total() == old(self).total(),
            match step {
                SearchStep::Done(page) => rows@.len() == 0 && page.results@.len() == 0 && is_page(
                    page,
                    old(self).request().page,
                    old(self).total(),
                ),
                SearchStep::Tags { sql } => {
                    &&& rows@.len() > 0
                    &&& final(self).results().len() == rows@.len()
                    &&& forall|i: int|
                        0 <= i < rows@.len() ==> shows_row(
                            #[trigger] final(self).results()[i],
                            rows@[i],
                        )
                    &&& sql@ == "SELECT caption_id, tag FROM tags WHERE caption_id IN ("@
                        + number_list(rows@.map_values(|row: SearchRow| row.caption_id))
                        + ") ORDER BY tag"@
                },
                _ => false,
            },
    {
        let ghost all = rows@;
        let ghost given = rows@.map_values(|row: SearchRow| row.caption_id);
        let mut results: Vec<SearchResult> = Vec::new();
        let mut ids: Vec<i64> = Vec::new();
        for row in it: rows
            invariant
                it.seq() == all,
                given == all.map_values(|row: SearchRow| row.caption_id),
                results@.len() == it.index(),
                forall|i: int|
                    0 <= i < results@.len() ==> shows_row(#[trigger] results@[i], all[i]),
                ids@ == given.take(it.index() as int),
        {
            ids.push(row.caption_id);
            assert(given.take(it.index() + 1) =~= given.take(it.index() as int).push(
                row.caption_id,
            ));
            results.push(search_result(row));
        }
        assert(given.take(all.len() as int) =~= given);
        if results.len() == 0 {
            return SearchStep::Done(results_page(Vec::new(), self.request.page, self.total));
        }
        self.results = results;
        SearchStep::Tags { sql: tags_sql(ids.as_slice()) }
    }

    /// The tags have been found: the page is shown.
    pub fn tagged(self, tags: &[(i64, String)]) -> (page: SearchResultsTemplate)
        ensures
            page.results@.len() == self.results().len(),
            forall|i: int|
                0 <= i < self.results().len() ==> has_tags_of(
                    #[trigger] page.results@[i],
                    self.results(),
                    i,
                    tags@,
                ),
            is_page(page, self.request().page, self.total()),
    {
        let results = attach_tags(self.results, tags);
        results_page(results, self.request.page, self.total)
    }
}

// ------------------------------------------------------------------------ laws

proof fn lemma_places_count_head()
    ensures
        places(COUNT_HEAD@) == 0,
{
    reveal_strlit("SELECT COUNT(*) FROM captions c JOIN ts_files f ON c.ts_file_id = f.id LEFT JOIN programs p ON f.program_id = p.id ");
    reveal_with_fuel(places_among, 62);
    assert(COUNT_HEAD@.len() == 115);
    assert(places_among(COUNT_HEAD@, 60) == 0);
    assert(places_among(COUNT_HEAD@, 115) == 0);
}

proof fn lemma_places_main_head()
    ensures
        places(MAIN_HEAD@) == 0,
{
    reveal_strlit("SELECT c.id AS caption_id, c.text, c.pts_start AS pts_start_ms, c.pts_end AS pts_end_ms, f.air_date, f.episode_number, f.episode_title, COALESCE(p.title, f.filename) AS title, CASE WHEN t.caption_id IS NOT NULL THEN 1 ELSE 0 END AS has_thumb, COALESCE(t.selected_frame, ");
    reveal_with_fuel(places_among, 62);
    assert(MAIN_HEAD@.len() == 270);
    assert(places_among(MAIN_HEAD@, 60) == 0);
    assert(places_among(MAIN_HEAD@, 120) == 0);
    assert(places_among(MAIN_HEAD@, 180) == 0);
    assert(places_among(MAIN_HEAD@, 240) == 0);
    assert(places_among(MAIN_HEAD@, 270) == 0);
}

proof fn lemma_places_main_from()
    ensures
        places(MAIN_FROM@) == 1,
{
    reveal_strlit("?) AS preview_frame FROM captions c JOIN ts_files f ON c.ts_file_id = f.id LEFT JOIN programs p ON f.program_id = p.id LEFT JOIN thumbnails t ON t.caption_id = c.id ");
    reveal_with_fuel(places_among, 62);
    assert(MAIN_FROM@.len() == 165);
    assert(places_among(MAIN_FROM@, 60) == 1);
    assert(places_among(MAIN_FROM@, 120) == 1);
    assert(places_among(MAIN_FROM@, 165) == 1);
}

proof fn lemma_places_main_tail()
    ensures
        places(MAIN_TAIL@) == 2,
{
    reveal_strlit(" ORDER BY f.air_date DESC, f.episode_number, c.pts_start LIMIT ? OFFSET ?");
    reveal_with_fuel(places_among, 62);
    assert(MAIN_TAIL@.len() == 73);
    assert(places_among(MAIN_TAIL@, 60) == 0);
    assert(places_among(MAIN_TAIL@, 73) == 2);
}

proof fn lemma_places_text()
    ensures
        places("c.text LIKE ? ESCAPE '\\'"@) == 1,
{
    reveal_strlit("c.text LIKE ? ESCAPE '\\'");
    reveal_with_fuel(places_among, 26);
    assert("c.text LIKE ? ESCAPE '\\'"@.len() == 24);
    assert(places_among("c.text LIKE ? ESCAPE '\\'"@, 24) == 1);
}

proof fn lemma_places_program()
    ensures
        places("f.program_id = ?"@) == 1,
{
    reveal_strlit("f.program_id = ?");
    reveal_with_fuel(places_among, 18);
    assert("f.program_id = ?"@.len() == 16);
    assert(places_among("f.program_id = ?"@, 16) == 1);
}

proof fn lemma_places_episode()
    ensures
        places("f.episode_number = ?"@) == 1,
{
    reveal_strlit("f.episode_number = ?");
    reveal_with_fuel(places_among, 22);
    assert("f.episode_number = ?"@.len() == 20);
    assert(places_among("f.episode_number = ?"@, 20) == 1);
}

proof fn lemma_places_sub()
    ensures
        places("f.episode_title LIKE ? ESCAPE '\\'"@) == 1,
{
    reveal_strlit("f.episode_title LIKE ? ESCAPE '\\'");
    reveal_with_fuel(places_among, 35);
    assert("f.episode_title LIKE ? ESCAPE '\\'"@.len() == 33);
    assert(places_among("f.episode_title LIKE ? ESCAPE '\\'"@, 33) == 1);
}

proof fn lemma_places_date_from()
    ensures
        places("f.air_date >= ?"@) == 1,
{
    reveal_strlit("f.air_date >= ?");
    reveal_with_fuel(places_among, 17);
    assert("f.air_date >= ?"@.len() == 15);
    assert(places_among("f.air_date >= ?"@, 15) == 1);
}

proof fn lemma_places_date_to()
    ensures
        places("f.air_date <= ?"@) == 1,
{
    reveal_strlit("f.air_date <= ?");
    reveal_with_fuel(places_among, 17);
    assert("f.air_date <= ?"@.len() == 15);
    assert(places_among("f.air_date <= ?"@, 15) == 1);
}

proof fn lemma_places_tag()
    ensures
        places("EXISTS(SELECT 1 FROM tags tg WHERE tg.caption_id = c.id AND tg.tag = ?)"@) == 1,
{
    reveal_strlit("EXISTS(SELECT 1 FROM tags tg WHERE tg.caption_id = c.id AND tg.tag = ?)");
    reveal_with_fuel(places_among, 62);
    assert("EXISTS(SELECT 1 FROM tags tg WHERE tg.caption_id = c.id AND tg.tag = ?)"@.len() == 71);
    assert(places_among("EXISTS(SELECT 1 FROM tags tg WHERE tg.caption_id = c.id AND tg.tag = ?)"@, 60) == 0);
    assert(places_among("EXISTS(SELECT 1 FROM tags tg WHERE tg.caption_id = c.id AND tg.tag = ?)"@, 71) == 1);
}

proof fn lemma_places_generated()
    ensures
        places("EXISTS(SELECT 1 FROM thumbnails th WHERE th.caption_id = c.id)"@) == 0,
{
    reveal_strlit("EXISTS(SELECT 1 FROM thumbnails th WHERE th.caption_id = c.id)");
    reveal_with_fuel(places_among, 62);
    assert("EXISTS(SELECT 1 FROM thumbnails th WHERE th.caption_id = c.id)"@.len() == 62);
    assert(places_among("EXISTS(SELECT 1 FROM thumbnails th WHERE th.caption_id = c.id)"@, 60) == 0);
    assert(places_among("EXISTS(SELECT 1 FROM thumbnails th WHERE th.caption_id = c.id)"@, 62) == 0);
}

proof fn lemma_places_pending()
    ensures
        places("NOT EXISTS(SELECT 1 FROM thumbnails th WHERE th.caption_id = c.id)"@) == 0,
{
    reveal_strlit("NOT EXISTS(SELECT 1 FROM thumbnails th WHERE th.caption_id = c.id)");
    reveal_with_fuel(places_among, 62);
    assert("NOT EXISTS(SELECT 1 FROM thumbnails th WHERE th.caption_id = c.id)"@.len() == 66);
    assert(places_among("NOT EXISTS(SELECT 1 FROM thumbnails th WHERE th.caption_id = c.id)"@, 60) == 0);
    assert(places_among("NOT EXISTS(SELECT 1 FROM thumbnails th WHERE th.caption_id = c.id)"@, 66) == 0);
}

/// Both statements of a search have as many places as there are values for them.
pub proof fn search_places_match_values(r: SearchModel)
    ensures
        places(count_statement(r)) == where_binds(search_conditions(r)).len(),
        places(main_statement(r)) == main_values(r).len(),
{
    let conditions = search_conditions(r);
    assert forall|i: int| 0 <= i < conditions.len() implies places_agree(
        #[trigger] conditions[i],
    ) by {
        lemma_condition_places(r, i);
    }
    joined_places_agree(conditions);
    let joined = where_text(conditions);
    lemma_places_count_head();
    lemma_places_add(COUNT_HEAD@, joined);
    lemma_places_main_head();
    lemma_places_main_from();
    lemma_places_main_tail();
    lemma_places_add(MAIN_HEAD@ + MAIN_FROM@ + joined, MAIN_TAIL@);
    lemma_places_add(MAIN_HEAD@ + MAIN_FROM@, joined);
    lemma_places_add(MAIN_HEAD@, MAIN_FROM@);
}

proof fn lemma_condition_places(r: SearchModel, i: int)
    requires
        0 <= i < search_conditions(r).len(),
    ensures
        places_agree(search_conditions(r)[i]),
{
    lemma_places_text();
    lemma_places_program();
    lemma_places_episode();
    lemma_places_sub();
    lemma_places_date_from();
    lemma_places_date_to();
    lemma_places_tag();
    lemma_places_generated();
    lemma_places_pending();
    let before = asked("c.text LIKE ? ESCAPE '\\'"@, text_bind(query_pattern(r.active_q))) + asked(
        "f.program_id = ?"@,
        int_bind(r.program_id),
    ) + asked("f.episode_number = ?"@, int_bind(r.ep)) + asked(
        "f.episode_title LIKE ? ESCAPE '\\'"@,
        text_bind(sub_pattern(r.sub)),
    ) + asked("f.air_date >= ?"@, text_bind(r.date_from)) + asked(
        "f.air_date <= ?"@,
        text_bind(r.date_to),
    );
    let n = before.len();
    if i < n {
        assert(search_conditions(r)[i] == before[i]);
    } else if i < n + r.tags.len() {
        assert(search_conditions(r)[i] == tag_conditions(r.tags)[i - n]);
    } else {
        assert(search_conditions(r)[i] == filter_conditions(r.filter)[i - n - r.tags.len()]);
    }
}

/// What a statement goes on with before a further condition.
pub open spec fn link(conditions: Seq<Condition>) -> Seq<char> {
    if conditions.len() == 0 {
        "WHERE "@
    } else {
        " AND "@
    }
}

/// A further condition goes to the end of the statement; its value goes to the end of the
/// values.
pub proof fn a_further_condition_goes_to_the_end(conditions: Seq<Condition>, c: Condition)
    ensures
        where_text(conditions.push(c)) == where_text(conditions) + link(conditions) + c.sql,
        where_binds(conditions.push(c)) == where_binds(conditions) + (match c.bind {
            Some(b) => seq![b],
            None => Seq::empty(),
        }),
{
    let more = conditions.push(c);
    assert(more.drop_last() =~= conditions);
    assert(where_text(more) =~= where_text(conditions) + link(conditions) + c.sql);
    assert(where_binds(more) =~= where_binds(conditions) + (match c.bind {
        Some(b) => seq![b],
        None => Seq::empty(),
    }));
}

/// A request with another tab open.
pub open spec fn with_tab(r: SearchModel, filter: Seq<char>) -> SearchModel {
    SearchModel { filter, ..r }
}

proof fn lemma_tabs_differ()
    ensures
        "generated"@ != "pending"@,
        "generated"@ != "all"@,
        "pending"@ != "all"@,
{
    reveal_strlit("generated");
    reveal_strlit("pending");
    reveal_strlit("all");
    assert("generated"@.len() == 9 && "pending"@.len() == 7 && "all"@.len() == 3);
}

proof fn lemma_pending_is_not_generated()
    ensures
        "NOT EXISTS(SELECT 1 FROM thumbnails th WHERE th.caption_id = c.id)"@ == "NOT "@
            + "EXISTS(SELECT 1 FROM thumbnails th WHERE th.caption_id = c.id)"@,
        "NOT "@.len() == 4,
{
    reveal_strlit("NOT EXISTS(SELECT 1 FROM thumbnails th WHERE th.caption_id = c.id)");
    reveal_strlit("EXISTS(SELECT 1 FROM thumbnails th WHERE th.caption_id = c.id)");
    reveal_strlit("NOT ");
    assert("NOT EXISTS(SELECT 1 FROM thumbnails th WHERE th.caption_id = c.id)"@ =~= "NOT "@
        + "EXISTS(SELECT 1 FROM thumbnails th WHERE th.caption_id = c.id)"@);
}

/// The tabs part the captions of a request in two: those that have thumbnails and those
/// that have not.  Any other tab asks for no more than the request does.
pub proof fn tabs_part_the_captions(r: SearchModel, other: Seq<char>)
    requires
        other != "generated"@,
        other != "pending"@,
    ensures
        ({
            let all = search_conditions(with_tab(r, "all"@));
            let generated = with_tab(r, "generated"@);
            let pending = with_tab(r, "pending"@);
            let having = "EXISTS(SELECT 1 FROM thumbnails th WHERE th.caption_id = c.id)"@;
            &&& search_conditions(generated) == all.push(Condition { sql: having, bind: None })
            &&& search_conditions(pending) == all.push(
                Condition { sql: "NOT "@ + having, bind: None },
            )
            &&& search_conditions(with_tab(r, other)) == all
            &&& count_statement(generated) == count_statement(with_tab(r, "all"@)) + link(all)
                + having
            &&& count_statement(pending) == count_statement(with_tab(r, "all"@)) + link(all)
                + "NOT "@ + having
            &&& count_statement(generated) != count_statement(pending)
            &&& main_statement(generated) != main_statement(pending)
            &&& main_values(generated) == main_values(with_tab(r, "all"@))
            &&& main_values(pending) == main_values(with_tab(r, "all"@))
        }),
{
    lemma_tabs_differ();
    lemma_pending_is_not_generated();
    let all = search_conditions(with_tab(r, "all"@));
    let generated = with_tab(r, "generated"@);
    let pending = with_tab(r, "pending"@);
    let having = "EXISTS(SELECT 1 FROM thumbnails th WHERE th.caption_id = c.id)"@;
    let yes = Condition { sql: having, bind: None };
    let no = Condition { sql: "NOT "@ + having, bind: None };
    assert(search_conditions(generated) =~= all.push(yes));
    assert(search_conditions(pending) =~= all.push(no));
    assert(search_conditions(with_tab(r, other)) =~= all);
    a_further_condition_goes_to_the_end(all, yes);
    a_further_condition_goes_to_the_end(all, no);
    assert(where_binds(all) + Seq::empty() =~= where_binds(all));
    assert(count_statement(generated) =~= count_statement(with_tab(r, "all"@)) + link(all)
        + having);
    assert(count_statement(pending) =~= count_statement(with_tab(r, "all"@)) + link(all) + "NOT "@
        + having);
    assert(count_statement(pending).len() == count_statement(generated).len() + 4);
    assert(main_statement(pending).len() == main_statement(generated).len() + 4);
}

/// Whether one list of conditions is another with one more.
pub open spec fn has_one_more(more: Seq<Condition>, fewer: Seq<Condition>, c: Condition) -> bool {
    exists|k: int| 0 <= k <= fewer.len() && more == #[trigger] fewer.insert(k, c)
}

proof fn lemma_one_more(a: Seq<Condition>, c: Condition, b: Seq<Condition>)
    ensures
        has_one_more(a + seq![c] + b, a + b, c),
{
    let k = a.len() as int;
    assert(a + seq![c] + b =~= (a + b).insert(k, c));
}

/// What is asked for before the episode's name, and after it.
spec fn first_conditions(r: SearchModel) -> Seq<Condition> {
    asked("c.text LIKE ? ESCAPE '\\'"@, text_bind(query_pattern(r.active_q))) + asked(
        "f.program_id = ?"@,
        int_bind(r.program_id),
    ) + asked("f.episode_number = ?"@, int_bind(r.ep))
}

spec fn later_conditions(r: SearchModel) -> Seq<Condition> {
    asked("f.air_date >= ?"@, text_bind(r.date_from)) + asked(
        "f.air_date <= ?"@,
        text_bind(r.date_to),
    ) + tag_conditions(r.tags) + filter_conditions(r.filter)
}

proof fn lemma_regrouped(
    a: Seq<Condition>,
    b: Seq<Condition>,
    c: Seq<Condition>,
    d: Seq<Condition>,
    e: Seq<Condition>,
    f: Seq<Condition>,
    g: Seq<Condition>,
    h: Seq<Condition>,
)
    ensures
        ({
            let all = a + b + c + d + e + f + g + h;
            let later = e + f + g + h;
            &&& all == Seq::empty() + a + (b + c + d + later)
            &&& all == a + b + (c + d + later)
            &&& all == (a + b) + c + (d + later)
            &&& all == (a + b + c) + d + later
        }),
{
    let all = a + b + c + d + e + f + g + h;
    let later = e + f + g + h;
    assert(all =~= (a + b + c) + d + later);
    assert((a + b + c) + d + later =~= (a + b) + c + (d + later));
    assert((a + b) + c + (d + later) =~= a + b + (c + d + later));
    assert(a + b + (c + d + later) =~= Seq::empty() + a + (b + c + d + later));
}

proof fn lemma_conditions_regrouped(r: SearchModel)
    ensures
        ({
            let text = asked("c.text LIKE ? ESCAPE '\\'"@, text_bind(query_pattern(r.active_q)));
            let program = asked("f.program_id = ?"@, int_bind(r.program_id));
            let episode = asked("f.episode_number = ?"@, int_bind(r.ep));
            let sub = asked(
                "f.episode_title LIKE ? ESCAPE '\\'"@,
                text_bind(sub_pattern(r.sub)),
            );
            let later = later_conditions(r);
            &&& search_conditions(r) == Seq::empty() + text + (program + episode + sub + later)
            &&& search_conditions(r) == text + program + (episode + sub + later)
            &&& search_conditions(r) == (text + program) + episode + (sub + later)
            &&& search_conditions(r) == first_conditions(r) + sub + later
        }),
{
    lemma_regrouped(
        asked("c.text LIKE ? ESCAPE '\\'"@, text_bind(query_pattern(r.active_q))),
        asked("f.program_id = ?"@, int_bind(r.program_id)),
        asked("f.episode_number = ?"@, int_bind(r.ep)),
        asked("f.episode_title LIKE ? ESCAPE '\\'"@, text_bind(sub_pattern(r.sub))),
        asked("f.air_date >= ?"@, text_bind(r.date_from)),
        asked("f.air_date <= ?"@, text_bind(r.date_to)),
        tag_conditions(r.tags),
        filter_conditions(r.filter),
    );
}

/// A request that gives a number, rather than none, asks for one condition more: that the
/// caption is of that programme, or of that episode.
pub proof fn a_number_asks_for_one_condition_more(r: SearchModel, n: i64)
    ensures
        has_one_more(
            search_conditions(SearchModel { program_id: Some(n), ..r }),
            search_conditions(SearchModel { program_id: None, ..r }),
            Condition { sql: "f.program_id = ?"@, bind: Some(BindModel::Int(n)) },
        ),
        has_one_more(
            search_conditions(SearchModel { ep: Some(n), ..r }),
            search_conditions(SearchModel { ep: None, ..r }),
            Condition { sql: "f.episode_number = ?"@, bind: Some(BindModel::Int(n)) },
        ),
{
    let sub = asked("f.episode_title LIKE ? ESCAPE '\\'"@, text_bind(sub_pattern(r.sub)));
    let text = asked("c.text LIKE ? ESCAPE '\\'"@, text_bind(query_pattern(r.active_q)));
    let program = asked("f.program_id = ?"@, int_bind(r.program_id));
    let episode = asked("f.episode_number = ?"@, int_bind(r.ep));
    lemma_conditions_regrouped(SearchModel { program_id: Some(n), ..r });
    lemma_conditions_regrouped(SearchModel { program_id: None, ..r });
    lemma_conditions_regrouped(SearchModel { ep: Some(n), ..r });
    lemma_conditions_regrouped(SearchModel { ep: None, ..r });
    let later = later_conditions(r);
    lemma_one_more(
        text,
        Condition { sql: "f.program_id = ?"@, bind: Some(BindModel::Int(n)) },
        episode + sub + later,
    );
    assert(text + Seq::empty() =~= text);
    lemma_one_more(
        text + program,
        Condition { sql: "f.episode_number = ?"@, bind: Some(BindModel::Int(n)) },
        sub + later,
    );
    assert(text + program + Seq::empty() =~= text + program);
}

/// A request that gives a text to look for asks for one condition more: that the caption,
/// or the name of the episode, holds the text.  A blank name asks for nothing.
pub proof fn a_text_asks_for_one_condition_more(r: SearchModel, t: Seq<char>)
    ensures
        has_one_more(
            search_conditions(SearchModel { active_q: Some(t), ..r }),
            search_conditions(SearchModel { active_q: None, ..r }),
            Condition {
                sql: "c.text LIKE ? ESCAPE '\\'"@,
                bind: Some(BindModel::Text("%"@ + like_escaped(t) + "%"@)),
            },
        ),
        trim(t).len() > 0 ==> has_one_more(
            search_conditions(SearchModel { sub: Some(t), ..r }),
            search_conditions(SearchModel { sub: None, ..r }),
            Condition {
                sql: "f.episode_title LIKE ? ESCAPE '\\'"@,
                bind: Some(BindModel::Text("%"@ + like_escaped(trim(t)) + "%"@)),
            },
        ),
        trim(t).len() == 0 ==> search_conditions(SearchModel { sub: Some(t), ..r })
            == search_conditions(SearchModel { sub: None, ..r }),
{
    let sub = asked("f.episode_title LIKE ? ESCAPE '\\'"@, text_bind(sub_pattern(r.sub)));
    let program = asked("f.program_id = ?"@, int_bind(r.program_id));
    let episode = asked("f.episode_number = ?"@, int_bind(r.ep));
    lemma_conditions_regrouped(SearchModel { active_q: Some(t), ..r });
    lemma_conditions_regrouped(SearchModel { active_q: None, ..r });
    lemma_conditions_regrouped(SearchModel { sub: Some(t), ..r });
    lemma_conditions_regrouped(SearchModel { sub: None, ..r });
    let later = later_conditions(r);
    lemma_one_more(
        Seq::empty(),
        Condition {
            sql: "c.text LIKE ? ESCAPE '\\'"@,
            bind: Some(BindModel::Text("%"@ + like_escaped(t) + "%"@)),
        },
        program + episode + sub + later,
    );
    assert(Seq::<Condition>::empty() + Seq::empty() =~= Seq::empty());
    lemma_one_more(
        first_conditions(r),
        Condition {
            sql: "f.episode_title LIKE ? ESCAPE '\\'"@,
            bind: Some(BindModel::Text("%"@ + like_escaped(trim(t)) + "%"@)),
        },
        later,
    );
    assert(first_conditions(r) + Seq::empty() =~= first_conditions(r));
}

/// A request that gives a date asks for one condition more: that the recording was on the
/// air from that day on, or up to it.
pub proof fn a_date_asks_for_one_condition_more(r: SearchModel, day: Seq<char>)
    ensures
        has_one_more(
            search_conditions(SearchModel { date_from: Some(day), ..r }),
            search_conditions(SearchModel { date_from: None, ..r }),
            Condition { sql: "f.air_date >= ?"@, bind: Some(BindModel::Text(day)) },
        ),
        has_one_more(
            search_conditions(SearchModel { date_to: Some(day), ..r }),
            search_conditions(SearchModel { date_to: None, ..r }),
            Condition { sql: "f.air_date <= ?"@, bind: Some(BindModel::Text(day)) },
        ),
{
    let sub = asked("f.episode_title LIKE ? ESCAPE '\\'"@, text_bind(sub_pattern(r.sub)));
    let from = asked("f.air_date >= ?"@, text_bind(r.date_from));
    let to = asked("f.air_date <= ?"@, text_bind(r.date_to));
    let rest = tag_conditions(r.tags) + filter_conditions(r.filter);
    let before = first_conditions(r) + sub;
    let c = Condition { sql: "f.air_date >= ?"@, bind: Some(BindModel::Text(day)) };
    lemma_one_more(before, c, to + rest);
    assert(search_conditions(SearchModel { date_from: Some(day), ..r }) =~= before + seq![c] + (to
        + rest));
    assert(search_conditions(SearchModel { date_from: None, ..r }) =~= before + (to + rest));
    let c = Condition { sql: "f.air_date <= ?"@, bind: Some(BindModel::Text(day)) };
    lemma_one_more(before + from, c, rest);
    assert(search_conditions(SearchModel { date_to: Some(day), ..r }) =~= before + from + seq![c]
        + rest);
    assert(search_conditions(SearchModel { date_to: None, ..r }) =~= before + from + rest);
}

/// Each further tag asks for one condition more: that the caption has that tag too.
pub proof fn a_tag_asks_for_one_condition_more(r: SearchModel, tag: Seq<char>)
    ensures
        has_one_more(
            search_conditions(SearchModel { tags: r.tags.push(tag), ..r }),
            search_conditions(r),
            Condition {
                sql: "EXISTS(SELECT 1 FROM tags tg WHERE tg.caption_id = c.id AND tg.tag = ?)"@,
                bind: Some(BindModel::Text(tag)),
            },
        ),
{
    let sub = asked("f.episode_title LIKE ? ESCAPE '\\'"@, text_bind(sub_pattern(r.sub)));
    let from = asked("f.air_date >= ?"@, text_bind(r.date_from));
    let to = asked("f.air_date <= ?"@, text_bind(r.date_to));
    let before = first_conditions(r) + sub + from + to + tag_conditions(r.tags);
    let after = filter_conditions(r.filter);
    let c = Condition {
        sql: "EXISTS(SELECT 1 FROM tags tg WHERE tg.caption_id = c.id AND tg.tag = ?)"@,
        bind: Some(BindModel::Text(tag)),
    };
    lemma_one_more(before, c, after);
    assert(tag_conditions(r.tags.push(tag)) =~= tag_conditions(r.tags).push(c));
    assert(search_conditions(SearchModel { tags: r.tags.push(tag), ..r }) =~= before + seq![c]
        + after);
    assert(search_conditions(r) =~= before + after);
}

/// A request that gives nothing asks for nothing, and has no conditions.
pub proof fn an_empty_request_has_no_conditions(r: SearchModel)
    requires
        r.active_q is None,
        r.program_id is None,
        r.ep is None,
        r.sub is None,
        r.date_from is None,
        r.date_to is None,
        r.tags.len() == 0,
        r.filter == "all"@,
    ensures
        search_conditions(r).len() == 0,
        !r.asks(),
{
    lemma_tabs_differ();
}

/// A page holds fifty captions and starts where as many per page before it end; the frame
/// that stands for a caption is the middle one.
pub proof fn a_page_holds_fifty_captions(p: SearchParams, thumb_count: u32)
    ensures
        ({
            let r = request_of(p, thumb_count);
            let values = main_values(r);
            let n = values.len() as int;
            &&& n >= 3
            &&& values[0] == BindModel::Int((thumb_count as int / 2) as i64)
            &&& values[n - 2] == BindModel::Int(50)
            &&& values[n - 1] == BindModel::Int((r.page * 50) as i64)
            &&& 0 <= r.page <= 1_000_000
            &&& p.page matches Some(page) ==> 0 <= page <= 1_000_000 ==> r.page == page
            &&& p.page matches Some(page) ==> page > 1_000_000 ==> r.page == 1_000_000
            &&& p.page matches Some(page) ==> page < 0 ==> r.page == 0
            &&& p.page is None ==> r.page == 0
        }),
{
}

/// A page begins fifty captions after the one before, and there is a next one exactly
/// where captions are left.
pub proof fn pages_go_by_fifties(page: int, total: int)
    requires
        0 <= page <= 1_000_000,
    ensures
        clamp_i64(page * PAGE_SIZE) == page * 50,
        next_start(page) == (page + 1) * 50,
{
}

/// A text is looked for from two characters on, and already from one that is not ASCII;
/// white space at its ends does not count.
pub proof fn short_texts_are_not_looked_for(q: Seq<char>)
    ensures
        trim(q).len() == 0 ==> active_query(q) is None,
        trim(q).len() == 1 && trim(q)[0] <= '\u{7F}' ==> active_query(q) is None,
        trim(q).len() == 1 && trim(q)[0] > '\u{7F}' ==> active_query(q) == Some(trim(q)),
        trim(q).len() >= 2 ==> active_query(q) == Some(trim(q)),
{
    reveal_with_fuel(encode_utf8, 3);
    let t = trim(q);
    if t.len() >= 2 {
        assert(t.drop_first()[0] == t[1]);
    } else if t.len() == 1 {
        assert(t.drop_first() =~= Seq::empty());
        assert(encode_utf8(t).len() == encode_scalar(t[0] as u32).len());
        lemma_bytes_of_a_character(t[0]);
    }
}

proof fn lemma_bytes_of_a_character(c: char)
    ensures
        encode_scalar(c as u32).len() >= 2 <==> c > '\u{7F}',
{
}

/// A search that gives a text, a programme, an episode, a name, a date, a tag, or a tab
/// other than all, asks for something.
pub proof fn any_parameter_asks_for_something(r: SearchModel)
    ensures
        r.asks() <==> r.active_q is Some || r.program_id is Some || r.ep is Some || r.sub is Some
            || r.date_from is Some || r.date_to is Some || r.tags.len() > 0 || r.filter != "all"@,
        search_conditions(r).len() > 0 ==> r.asks(),
{
    lemma_tabs_differ();
}

/// A search asks for what its parameters give; without a tab, for all captions.
pub proof fn a_search_asks_for_what_is_given(p: SearchParams, thumb_count: u32)
    ensures
        ({
            let r = request_of(p, thumb_count);
            &&& r.program_id == p.program_id
            &&& r.ep == p.ep
            &&& r.sub == text_opt(p.sub)
            &&& r.date_from == text_opt(p.date_from)
            &&& r.date_to == text_opt(p.date_to)
            &&& p.filter is None ==> r.filter == "all"@
            &&& p.filter matches Some(f) ==> r.filter == f@
            &&& p.q is None ==> r.active_q is None
            &&& p.q matches Some(q) ==> r.active_q == active_query(q@)
            &&& p.tags is None ==> r.tags.len() == 0
            &&& p.tags matches Some(t) ==> r.tags == tags_of(t@)
        }),
{
    assert(trim(Seq::<char>::empty()) =~= Seq::empty());
    short_texts_are_not_looked_for(Seq::empty());
    tags_come_one_to_a_line(Seq::empty(), Seq::empty());
}

/// Tags come one to a line; blank lines are none.
pub proof fn tags_come_one_to_a_line(line: Seq<char>, rest: Seq<char>)
    requires
        forall|i: int| 0 <= i < line.len() ==> #[trigger] line[i] != '\n',
    ensures
        tags_of(line) == (if trim(line).len() == 0 {
            Seq::empty()
        } else {
            seq![trim(line)]
        }),
        tags_of(line + seq!['\n'] + rest) == tags_of(line) + tags_of(rest),
{
    reveal_with_fuel(Seq::filter, 2);
    let kept = |tag: Seq<char>| tag.len() > 0;
    let trimmed = |l: Seq<char>| trim(l);
    split_of_one_part(line, '\n');
    split_of_two_parts(line, rest, '\n');
    let one = seq![line].map_values(trimmed);
    assert(one =~= seq![trim(line)]);
    assert(one.drop_last() =~= Seq::empty());
    assert(one.filter(kept) =~= if trim(line).len() == 0 {
        Seq::empty()
    } else {
        seq![trim(line)]
    });
    let both = (split(line, '\n') + split(rest, '\n')).map_values(trimmed);
    assert(both =~= one + split(rest, '\n').map_values(trimmed));
    Seq::filter_distributes_over_add(one, split(rest, '\n').map_values(trimmed), kept);
}

/// Both statements of a search have the same conditions; the captions of the page come by
/// date, the latest first, and within a recording by time.
pub proof fn both_statements_have_the_same_conditions(r: SearchModel)
    ensures
        count_statement(r)
            == "SELECT COUNT(*) FROM captions c JOIN ts_files f ON c.ts_file_id = f.id LEFT JOIN programs p ON f.program_id = p.id "@
            + where_text(search_conditions(r)),
        main_statement(r)
            == "SELECT c.id AS caption_id, c.text, c.pts_start AS pts_start_ms, c.pts_end AS pts_end_ms, f.air_date, f.episode_number, f.episode_title, COALESCE(p.title, f.filename) AS title, CASE WHEN t.caption_id IS NOT NULL THEN 1 ELSE 0 END AS has_thumb, COALESCE(t.selected_frame, "@
            + "?) AS preview_frame FROM captions c JOIN ts_files f ON c.ts_file_id = f.id LEFT JOIN programs p ON f.program_id = p.id LEFT JOIN thumbnails t ON t.caption_id = c.id "@
            + where_text(search_conditions(r))
            + " ORDER BY f.air_date DESC, f.episode_number, c.pts_start LIMIT ? OFFSET ?"@,
        main_values(r).subrange(1, main_values(r).len() - 2) == where_binds(search_conditions(r)),
{
    let given = where_binds(search_conditions(r));
    assert(main_values(r).subrange(1, main_values(r).len() - 2) =~= given);
}

/// A result shows its own caption.
pub proof fn a_result_shows_its_caption(r: SearchResult, row: SearchRow)
    requires
        shows_row(r, row),
    ensures
        r.id == row.caption_id,
        r.text@ == row.text@,
        r.time_str@ == span_text(row.pts_start_ms as int, row.pts_end_ms as int),
        r.display_title@ == full_title(row.title@, row.episode_number, text_opt(row.episode_title)),
        r.air_date == row.air_date,
        r.has_thumb <==> row.has_thumb != 0,
        r.preview_frame == row.preview_frame,
{
}

/// A caption gets the tags that were found for it, in the order in which they were found,
/// and no others.
pub proof fn a_caption_gets_its_own_tags(rows: Seq<(i64, String)>, row: (i64, String), id: i64)
    ensures
        tags_with_id(rows.push(row), id) == (if row.0 == id {
            tags_with_id(rows, id).push(row.1@)
        } else {
            tags_with_id(rows, id)
        }),
        tags_with_id(Seq::empty(), id) == Seq::<Seq<char>>::empty(),
{
    assert(rows.push(row).drop_last() =~= rows);
}

/// Where every result is of another caption, each gets its own tags, and is otherwise
/// left alone.
pub proof fn results_get_their_tags(
    tagged: SearchResult,
    results: Seq<SearchResult>,
    i: int,
    rows: Seq<(i64, String)>,
)
    requires
        has_tags_of(tagged, results, i, rows),
        0 <= i < results.len(),
        forall|j: int| 0 <= j < i ==> (#[trigger] results[j]).id != results[i].id,
    ensures
        texts(tagged.tags@) == tags_with_id(rows, results[i].id),
        tagged.id == results[i].id,
        tagged.text == results[i].text,
        tagged.time_str == results[i].time_str,
        tagged.display_title == results[i].display_title,
        tagged.air_date == results[i].air_date,
        tagged.has_thumb == results[i].has_thumb,
        tagged.preview_frame == results[i].preview_frame,
{
}

/// Numbers are listed with a comma between each two.
pub proof fn listed_numbers_have_commas_between(ids: Seq<i64>, id: i64)
    ensures
        ids.len() > 0 ==> number_list(ids.push(id)) == number_list(ids) + ","@ + signed_dec(
            id as int,
        ),
        number_list(seq![id]) == signed_dec(id as int),
        number_list(Seq::empty()) == Seq::<char>::empty(),
{
    assert(ids.push(id).drop_last() =~= ids);
}

/// What a page says of itself: how many captions have been shown, and whether more follow.
pub proof fn a_page_tells_whether_more_follow(p: SearchResultsTemplate, page: i64, total: i64)
    requires
        is_page(p, page, total),
        0 <= page <= 1_000_000,
        0 <= total,
    ensures
        p.page == page,
        p.total == total,
        p.has_next <==> (page + 1) * 50 < total,
        p.has_next ==> p.loaded == (page + 1) * 50,
        !p.has_next ==> p.loaded == total,
{
}

} // verus!
