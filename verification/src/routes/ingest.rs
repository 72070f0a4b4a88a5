//! The pages about recordings: how far reading them has come, and what is known
//! of each.
use vstd::prelude::*;

use crate::routes::statement::{
    asked, bind_models, holding, joined_places_agree, lemma_places_add, places, places_agree,
    places_among, text_bind, where_binds, where_text, write_holding, Bind, BindModel, Condition,
    WhereClause,
};
use crate::routes::{display_title, full_title, like_escaped};
use crate::text::{same_text, trim, trim_text};
use crate::ts::title::text_opt;

verus! {

// ---------------------------------------------------------------------- status

/// A recording that could not be read.
pub struct ErrorEntry {
    pub filename: String,
    pub error_msg: String,
}

/// How far reading the recordings has come.
pub struct IngestStatusTemplate {
    pub pending: i64,
    pub ingesting: i64,
    pub done: i64,
    pub error: i64,
    pub total: i64,
    pub ingesting_files: Vec<String>,
    pub recent_errors: Vec<ErrorEntry>,
}

/// The count that stands beside a status, the last one where there are several.
pub open spec fn count_of(rows: Seq<(String, i64)>, status: Seq<char>) -> i64
    decreases rows.len(),
{
    if rows.len() == 0 {
        0
    } else if rows.last().0@ == status {
        rows.last().1
    } else {
        count_of(rows.drop_last(), status)
    }
}

fn find_count(rows: &[(String, i64)], status: &str) -> (n: i64)
    ensures
        n == count_of(rows@, status@),
{
    let mut i: usize = rows.len();
    assert(rows@.take(i as int) =~= rows@);
    while i > 0
        invariant
            i <= rows@.len(),
            count_of(rows@.take(i as int), status@) == count_of(rows@, status@),
        decreases i,
    {
        assert(rows@.take(i as int).drop_last() =~= rows@.take(i - 1));
        if same_text(rows[i - 1].0.as_str(), status) {
            return rows[i - 1].1;
        }
        i = i - 1;
    }
    0
}

/// The number of recordings in each of the four states.
pub open spec fn state_counts(rows: Seq<(String, i64)>) -> (i64, i64, i64, i64) {
    (
        count_of(rows, "pending"@),
        count_of(rows, "ingesting"@),
        count_of(rows, "done"@),
        count_of(rows, "error"@),
    )
}

/// Whether a sum of counts, and each of its parts from the left, is a number of
/// 64 bits.
pub open spec fn counts_add_up(c: (i64, i64, i64, i64)) -> bool {
    &&& i64::MIN <= c.0 + c.1 <= i64::MAX
    &&& i64::MIN <= c.0 + c.1 + c.2 <= i64::MAX
    &&& i64::MIN <= c.0 + c.1 + c.2 + c.3 <= i64::MAX
}

/// The page on how far reading the recordings has come.
pub fn status_page(
    counts: &[(String, i64)],
    ingesting_files: Vec<String>,
    recent_errors: Vec<ErrorEntry>,
) -> (page: IngestStatusTemplate)
    requires
        counts_add_up(state_counts(counts@)),
    ensures
        page.pending == count_of(counts@, "pending"@),
        page.ingesting == count_of(counts@, "ingesting"@),
        page.done == count_of(counts@, "done"@),
        page.error == count_of(counts@, "error"@),
        page.total == page.pending + page.ingesting + page.done + page.error,
        page.ingesting_files == ingesting_files,
        page.recent_errors == recent_errors,
{
    let pending: i64 = find_count(counts, "pending");
    let ingesting: i64 = find_count(counts, "ingesting");
    let done: i64 = find_count(counts, "done");
    let error: i64 = find_count(counts, "error");
    IngestStatusTemplate {
        pending,
        ingesting,
        done,
        error,
        total: pending + ingesting + done + error,
        ingesting_files,
        recent_errors,
    }
}

// ------------------------------------------------------------------- recordings

/// How many recordings a page shows.
pub const FILE_PAGE_SIZE: i64 = 50;

/// A recording in the list.
pub struct FileListItem {
    pub id: i64,
    pub filename: String,
    pub status: String,
    pub error_msg: Option<String>,
    pub display_title: String,
    pub air_date: Option<String>,
    pub caption_count: i64,
}

/// The list of recordings.
pub struct IngestFilesTemplate {
    pub q: String,
    pub status_filter: String,
    pub files: Vec<FileListItem>,
    pub page: i64,
    pub total: i64,
    pub has_prev: bool,
    pub has_next: bool,
}

/// The parameters of the list.
pub struct FilesParams {
    pub q: Option<String>,
    pub status: Option<String>,
    pub page: Option<i64>,
}

/// A recording in full.
pub struct FileDetail {
    pub id: i64,
    pub filename: String,
    pub path: String,
    pub status: String,
    pub error_msg: Option<String>,
    pub ingested_at: Option<String>,
    pub display_title: String,
    pub air_date: Option<String>,
    pub caption_count: i64,
}

/// The page on a recording.
pub struct IngestFileTemplate {
    pub file: FileDetail,
}

/// What the list asks for.
pub struct FilesRequest {
    pub q: String,
    pub status: String,
    pub page: i64,
}

pub ghost struct FilesModel {
    pub q: Seq<char>,
    pub status: Seq<char>,
    pub page: i64,
}

impl View for FilesRequest {
    type V = FilesModel;

    open spec fn view(&self) -> FilesModel {
        FilesModel { q: self.q@, status: self.status@, page: self.page }
    }
}

/// What the list asks for.
pub open spec fn files_request_of(p: FilesParams) -> FilesModel {
    FilesModel {
        q: match p.q {
            Some(q) => trim(q@),
            None => Seq::empty(),
        },
        status: match p.status {
            Some(s) => trim(s@),
            None => "all"@,
        },
        page: match p.page {
            Some(n) if n > 0 => n,
            _ => 0,
        },
    }
}

/// Reads what the list asks for.
pub fn files_request(params: FilesParams) -> (r: FilesRequest)
    ensures
        r@ == files_request_of(params),
        r.page >= 0,
{
    let q = match params.q {
        Some(q) => trim_text(q.as_str()),
        None => String::new(),
    };
    let status = match params.status {
        Some(s) => trim_text(s.as_str()),
        None => "all".to_string(),
    };
    let page: i64 = match params.page {
        Some(n) => if n > 0 {
            n
        } else {
            0
        },
        None => 0,
    };
    FilesRequest { q, status, page }
}

/// The conditions of the list.
pub open spec fn files_conditions(r: FilesModel) -> Seq<Condition> {
    asked(
        "f.filename LIKE ? ESCAPE '\\'"@,
        text_bind(
            if r.q.len() == 0 {
                None
            } else {
                Some(holding(r.q))
            },
        ),
    ) + asked(
        "f.status = ?"@,
        text_bind(
            if r.status == "all"@ {
                None
            } else {
                Some(r.status)
            },
        ),
    )
}

/// The statement that counts, before its conditions.
pub const FILES_COUNT_HEAD: &'static str = "SELECT COUNT(*) FROM ts_files f LEFT JOIN programs p ON f.program_id = p.id ";

/// The statement that finds, before its conditions.
pub const FILES_MAIN_HEAD: &'static str = "SELECT f.id, f.filename, f.status, f.error_msg, f.ingested_at, f.episode_number, f.episode_title, f.air_date, COALESCE(p.title, f.filename) AS title, (SELECT COUNT(*) FROM captions c WHERE c.ts_file_id = f.id) AS caption_count FROM ts_files f LEFT JOIN programs p ON f.program_id = p.id ";

/// The statement that finds, after its conditions.
pub const FILES_MAIN_TAIL: &'static str = " ORDER BY f.ingested_at DESC, f.id DESC LIMIT ? OFFSET ?";

/// The statements of the list.
pub struct FilesPlan {
    pub count_sql: String,
    pub count_binds: Vec<Bind>,
    pub main_sql: String,
    pub main_binds: Vec<Bind>,
}

pub open spec fn files_count_statement(r: FilesModel) -> Seq<char> {
    FILES_COUNT_HEAD@ + where_text(files_conditions(r))
}

pub open spec fn files_main_statement(r: FilesModel) -> Seq<char> {
    FILES_MAIN_HEAD@ + where_text(files_conditions(r)) + FILES_MAIN_TAIL@
}

pub open spec fn files_main_values(r: FilesModel) -> Seq<BindModel> {
    where_binds(files_conditions(r)) + seq![
        BindModel::Int(FILE_PAGE_SIZE),
        BindModel::Int((r.page * FILE_PAGE_SIZE) as i64),
    ]
}

/// Whether the end of a page can be counted in 64 bits.
pub open spec fn page_in_range(page: int) -> bool {
    0 <= page && page * FILE_PAGE_SIZE + FILE_PAGE_SIZE <= i64::MAX
}

/// Writes the statements of the list.
pub fn files_plan(r: &FilesRequest) -> (plan: FilesPlan)
    requires
        page_in_range(r.page as int),
    ensures
        plan.count_sql@ == files_count_statement(r@),
        bind_models(plan.count_binds@) == where_binds(files_conditions(r@)),
        plan.main_sql@ == files_main_statement(r@),
        bind_models(plan.main_binds@) == files_main_values(r@),
{
    let mut w = WhereClause::new();
    let pattern = if r.q.as_str().is_empty() {
        None
    } else {
        Some(write_holding(r.q.as_str()))
    };
    let status = if same_text(r.status.as_str(), "all") {
        None
    } else {
        Some(r.status.clone())
    };
    w.push_text("f.filename LIKE ? ESCAPE '\\'", pattern);
    w.push_text("f.status = ?", status);
    assert(w.conditions() =~= files_conditions(r@));
    let mut count_sql = FILES_COUNT_HEAD.to_string();
    count_sql.append(w.sql());
    let mut main_sql = FILES_MAIN_HEAD.to_string();
    main_sql.append(w.sql());
    main_sql.append(FILES_MAIN_TAIL);
    let count_binds = w.binds();
    let mut main_binds = w.binds();
    let ghost given = main_binds@;
    main_binds.push(Bind::Int(FILE_PAGE_SIZE));
    main_binds.push(Bind::Int(r.page * FILE_PAGE_SIZE));
    assert(bind_models(main_binds@) =~= bind_models(given) + seq![
        BindModel::Int(FILE_PAGE_SIZE),
        BindModel::Int((r.page * FILE_PAGE_SIZE) as i64),
    ]);
    FilesPlan { count_sql, count_binds, main_sql, main_binds }
}

/// What the database gives of a recording.
pub struct FileRow {
    pub id: i64,
    pub filename: String,
    pub path: String,
    pub status: String,
    pub error_msg: Option<String>,
    pub ingested_at: Option<String>,
    pub episode_number: Option<i64>,
    pub episode_title: Option<String>,
    pub air_date: Option<String>,
    pub title: String,
    pub caption_count: i64,
}

fn row_title(row: &FileRow) -> (title: String)
    ensures
        title@ == full_title(row.title@, row.episode_number, text_opt(row.episode_title)),
{
    let sub = match &row.episode_title {
        Some(t) => Some(t.as_str()),
        None => None,
    };
    display_title(row.title.as_str(), row.episode_number, sub)
}

/// What the list shows of a recording.
pub fn file_list_item(row: FileRow) -> (item: FileListItem)
    ensures
        item.id == row.id,
        item.filename == row.filename,
        item.status == row.status,
        item.error_msg == row.error_msg,
        item.display_title@ == full_title(
            row.title@,
            row.episode_number,
            text_opt(row.episode_title),
        ),
        item.air_date == row.air_date,
        item.caption_count == row.caption_count,
{
    let title = row_title(&row);
    FileListItem {
        id: row.id,
        filename: row.filename,
        status: row.status,
        error_msg: row.error_msg,
        display_title: title,
        air_date: row.air_date,
        caption_count: row.caption_count,
    }
}

/// The page on a recording.
pub fn file_page(row: FileRow) -> (page: IngestFileTemplate)
    ensures
        page.file.id == row.id,
        page.file.filename == row.filename,
        page.file.path == row.path,
        page.file.status == row.status,
        page.file.error_msg == row.error_msg,
        page.file.ingested_at == row.ingested_at,
        page.file.display_title@ == full_title(
            row.title@,
            row.episode_number,
            text_opt(row.episode_title),
        ),
        page.file.air_date == row.air_date,
        page.file.caption_count == row.caption_count,
{
    let title = row_title(&row);
    IngestFileTemplate {
        file: FileDetail {
            id: row.id,
            filename: row.filename,
            path: row.path,
            status: row.status,
            error_msg: row.error_msg,
            ingested_at: row.ingested_at,
            display_title: title,
            air_date: row.air_date,
            caption_count: row.caption_count,
        },
    }
}

/// The list of recordings.
pub fn files_page(r: FilesRequest, files: Vec<FileListItem>, total: i64) -> (p: IngestFilesTemplate)
    requires
        page_in_range(r.page as int),
    ensures
        p.q == r.q,
        p.status_filter == r.status,
        p.files == files,
        p.page == r.page,
        p.total == total,
        p.has_prev == (r.page > 0),
        p.has_next == (r.page * FILE_PAGE_SIZE + FILE_PAGE_SIZE < total),
{
    let has_next = r.page * FILE_PAGE_SIZE + FILE_PAGE_SIZE < total;
    IngestFilesTemplate {
        q: r.q,
        status_filter: r.status,
        files,
        page: r.page,
        total,
        has_prev: r.page > 0,
        has_next,
    }
}

// ------------------------------------------------------------------------ laws

proof fn lemma_places_count_head()
    ensures
        places(FILES_COUNT_HEAD@) == 0,
{
    reveal_strlit("SELECT COUNT(*) FROM ts_files f LEFT JOIN programs p ON f.program_id = p.id ");
    reveal_with_fuel(places_among, 62);
    assert(FILES_COUNT_HEAD@.len() == 76);
    assert(places_among(FILES_COUNT_HEAD@, 60) == 0);
    assert(places_among(FILES_COUNT_HEAD@, 76) == 0);
}

proof fn lemma_places_main_head()
    ensures
        places(FILES_MAIN_HEAD@) == 0,
{
    reveal_strlit("SELECT f.id, f.filename, f.status, f.error_msg, f.ingested_at, f.episode_number, f.episode_title, f.air_date, COALESCE(p.title, f.filename) AS title, (SELECT COUNT(*) FROM captions c WHERE c.ts_file_id = f.id) AS caption_count FROM ts_files f LEFT JOIN programs p ON f.program_id = p.id ");
    reveal_with_fuel(places_among, 62);
    assert(FILES_MAIN_HEAD@.len() == 287);
    assert(places_among(FILES_MAIN_HEAD@, 60) == 0);
    assert(places_among(FILES_MAIN_HEAD@, 120) == 0);
    assert(places_among(FILES_MAIN_HEAD@, 180) == 0);
    assert(places_among(FILES_MAIN_HEAD@, 240) == 0);
    assert(places_among(FILES_MAIN_HEAD@, 287) == 0);
}

proof fn lemma_places_main_tail()
    ensures
        places(FILES_MAIN_TAIL@) == 2,
{
    reveal_strlit(" ORDER BY f.ingested_at DESC, f.id DESC LIMIT ? OFFSET ?");
    reveal_with_fuel(places_among, 58);
    assert(FILES_MAIN_TAIL@.len() == 56);
    assert(places_among(FILES_MAIN_TAIL@, 56) == 2);
}

proof fn lemma_places_filename()
    ensures
        places("f.filename LIKE ? ESCAPE '\\'"@) == 1,
{
    reveal_strlit("f.filename LIKE ? ESCAPE '\\'");
    reveal_with_fuel(places_among, 30);
    assert("f.filename LIKE ? ESCAPE '\\'"@.len() == 28);
    assert(places_among("f.filename LIKE ? ESCAPE '\\'"@, 28) == 1);
}

proof fn lemma_places_status()
    ensures
        places("f.status = ?"@) == 1,
{
    reveal_strlit("f.status = ?");
    reveal_with_fuel(places_among, 14);
    assert("f.status = ?"@.len() == 12);
    assert(places_among("f.status = ?"@, 12) == 1);
}

/// Both statements of the list have as many places as there are values for them.
pub proof fn files_places_match_values(r: FilesModel)
    ensures
        places(files_count_statement(r)) == where_binds(files_conditions(r)).len(),
        places(files_main_statement(r)) == files_main_values(r).len(),
{
    lemma_places_filename();
    lemma_places_status();
    let conditions = files_conditions(r);
    assert(forall|i: int| 0 <= i < conditions.len() ==> places_agree(#[trigger] conditions[i]));
    joined_places_agree(conditions);
    let joined = where_text(conditions);
    lemma_places_count_head();
    lemma_places_add(FILES_COUNT_HEAD@, joined);
    lemma_places_main_head();
    lemma_places_main_tail();
    lemma_places_add(FILES_MAIN_HEAD@ + joined, FILES_MAIN_TAIL@);
    lemma_places_add(FILES_MAIN_HEAD@, joined);
}

/// The count of a status is the last one that stands beside it; a status that does not
/// occur has none.
pub proof fn a_status_has_its_own_count(rows: Seq<(String, i64)>, row: (String, i64), status: Seq<char>)
    ensures
        count_of(rows.push(row), status) == (if row.0@ == status {
            row.1
        } else {
            count_of(rows, status)
        }),
        count_of(Seq::empty(), status) == 0,
{
    assert(rows.push(row).drop_last() =~= rows);
}

/// The four states are counted each under its own name.
pub proof fn the_states_are_these(rows: Seq<(String, i64)>)
    ensures
        state_counts(rows).0 == count_of(rows, "pending"@),
        state_counts(rows).1 == count_of(rows, "ingesting"@),
        state_counts(rows).2 == count_of(rows, "done"@),
        state_counts(rows).3 == count_of(rows, "error"@),
{
}

/// The list asks for the recordings whose file name holds a text, where one is given, and
/// that are in a state, where one other than all is given.
pub proof fn the_list_asks_for_name_and_state(q: Seq<char>, status: Seq<char>, page: i64)
    requires
        q.len() > 0,
        status != "all"@,
    ensures
        ({
            let name = Condition {
                sql: "f.filename LIKE ? ESCAPE '\\'"@,
                bind: Some(BindModel::Text("%"@ + like_escaped(q) + "%"@)),
            };
            let state = Condition { sql: "f.status = ?"@, bind: Some(BindModel::Text(status)) };
            &&& files_conditions(FilesModel { q: Seq::empty(), status: "all"@, page }).len() == 0
            &&& files_conditions(FilesModel { q, status: "all"@, page }) == seq![name]
            &&& files_conditions(FilesModel { q: Seq::empty(), status, page }) == seq![state]
            &&& files_conditions(FilesModel { q, status, page }) == seq![name, state]
        }),
{
    let name = Condition {
        sql: "f.filename LIKE ? ESCAPE '\\'"@,
        bind: Some(BindModel::Text("%"@ + like_escaped(q) + "%"@)),
    };
    let state = Condition { sql: "f.status = ?"@, bind: Some(BindModel::Text(status)) };
    assert(files_conditions(FilesModel { q, status: "all"@, page }) =~= seq![name]);
    assert(files_conditions(FilesModel { q: Seq::empty(), status, page }) =~= seq![state]);
    assert(files_conditions(FilesModel { q, status, page }) =~= seq![name, state]);
}

/// The list asks for what its parameters give, without white space at their ends; without
/// a state, for all; and for the first page, where the number is none or below zero.
pub proof fn the_list_asks_for_what_is_given(p: FilesParams)
    ensures
        ({
            let r = files_request_of(p);
            &&& p.q is None ==> r.q.len() == 0
            &&& p.q matches Some(q) ==> r.q == trim(q@)
            &&& p.status is None ==> r.status == "all"@
            &&& p.status matches Some(s) ==> r.status == trim(s@)
            &&& p.page is None ==> r.page == 0
            &&& p.page matches Some(n) ==> n >= 0 ==> r.page == n
            &&& p.page matches Some(n) ==> n < 0 ==> r.page == 0
        }),
{
}

/// Both statements of the list have the same conditions; a page holds fifty recordings,
/// the ones read last first.
pub proof fn a_page_of_the_list_holds_fifty(r: FilesModel)
    requires
        page_in_range(r.page as int),
    ensures
        files_count_statement(r)
            == "SELECT COUNT(*) FROM ts_files f LEFT JOIN programs p ON f.program_id = p.id "@
            + where_text(files_conditions(r)),
        files_main_statement(r)
            == "SELECT f.id, f.filename, f.status, f.error_msg, f.ingested_at, f.episode_number, f.episode_title, f.air_date, COALESCE(p.title, f.filename) AS title, (SELECT COUNT(*) FROM captions c WHERE c.ts_file_id = f.id) AS caption_count FROM ts_files f LEFT JOIN programs p ON f.program_id = p.id "@
            + where_text(files_conditions(r))
            + " ORDER BY f.ingested_at DESC, f.id DESC LIMIT ? OFFSET ?"@,
        files_main_values(r) == where_binds(files_conditions(r)).push(BindModel::Int(50)).push(
            BindModel::Int((r.page * 50) as i64),
        ),
        r.page * 50 + 50 <= i64::MAX,
        FILE_PAGE_SIZE == 50,
{
    assert(files_main_values(r) =~= where_binds(files_conditions(r)).push(BindModel::Int(50)).push(
        BindModel::Int((r.page * 50) as i64),
    ));
}

} // verus!
