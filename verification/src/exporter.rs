//! What is published: the status, the listing of the representatives in
//! chunks, the tables, and the order in which a run publishes.

use vstd::prelude::*;
use crate::dates::date_text;
use crate::downloader::EtagInfo;
use crate::models::{DeputeStats, Dossier};
use crate::numbers::{decimal_chars, decimal_text};
use crate::parser::texts;
use crate::text::{append_chars, chars_of, clone_opt, opt_text, text_of};

pub mod calendar;

verus! {

/// The legislature that the pipeline covers.
pub const LEGISLATURE: u32 = 17;

/// How many representatives a chunk of the listing holds.
pub const DEPUTES_CHUNK_SIZE: usize = 200;

/// How many columns the tables have.
pub const CSV_COLUMNS: usize = 27;

/// The state of a source as the status shows it.
#[derive(Debug, Clone)]
pub struct SourceInfo {
    pub key: String,
    pub etag: Option<String>,
    pub last_modified: Option<String>,
    pub size_bytes: u64,
}

#[derive(Debug, Clone)]
pub struct Counts {
    pub deputes: usize,
}

/// The summary of a run.
#[derive(Debug, Clone)]
pub struct Status {
    pub last_update: String,
    pub last_update_readable: String,
    pub legislature: u32,
    pub sources: Vec<SourceInfo>,
    pub counts: Counts,
}

pub open spec fn shows_source(s: SourceInfo, e: EtagInfo) -> bool {
    &&& s.key@ == e.key@
    &&& opt_text(s.etag) == opt_text(e.etag)
    &&& opt_text(s.last_modified) == opt_text(e.last_modified)
    &&& s.size_bytes == e.size_bytes
}

/// The status states the time of the run, the sources in their order, and
/// how many representatives the run holds.
pub open spec fn is_status(
    s: Status,
    etags: Seq<EtagInfo>,
    deputes: nat,
    last_update: Seq<char>,
    readable: Seq<char>,
) -> bool {
    &&& s.last_update@ == last_update
    &&& s.last_update_readable@ == readable
    &&& s.legislature == LEGISLATURE
    &&& s.counts.deputes == deputes
    &&& s.sources@.len() == etags.len()
    &&& forall|i: int| 0 <= i < etags.len() ==> shows_source(#[trigger] s.sources@[i], etags[i])
}

pub fn status_of(etags: &Vec<EtagInfo>, deputes: usize, last_update: &str, readable: &str) -> (s:
    Status)
    ensures
        is_status(s, etags@, deputes as nat, last_update@, readable@),
{
    let mut sources: Vec<SourceInfo> = Vec::new();
    let mut i: usize = 0;
    while i < etags.len()
        invariant
            i <= etags@.len(),
            sources@.len() == i,
            forall|k: int| 0 <= k < i ==> shows_source(#[trigger] sources@[k], etags@[k]),
        decreases etags@.len() - i,
    {
        let e = &etags[i];
        sources.push(
            SourceInfo {
                key: e.key.clone(),
                etag: clone_opt(&e.etag),
                last_modified: clone_opt(&e.last_modified),
                size_bytes: e.size_bytes,
            },
        );
        i += 1;
    }
    Status {
        last_update: last_update.to_string(),
        last_update_readable: readable.to_string(),
        legislature: LEGISLATURE,
        sources,
        counts: Counts { deputes },
    }
}

/// A chunk of the listing: the positions from `start` up to `end`, and the
/// number of the chunk, counted from one.
#[derive(Debug, Clone, Copy, PartialEq, Eq, Structural)]
pub struct Chunk {
    pub number: usize,
    pub start: usize,
    pub end: usize,
}

/// How many chunks a listing of `n` takes.
pub open spec fn chunk_count(n: nat) -> nat {
    (n + DEPUTES_CHUNK_SIZE - 1) as nat / (DEPUTES_CHUNK_SIZE as nat)
}

/// The chunks cut a listing of `n` into runs of two hundred, the last one
/// shorter where the listing does not fill it.
pub open spec fn are_chunks(chunks: Seq<Chunk>, n: nat) -> bool {
    &&& chunks.len() == chunk_count(n)
    &&& forall|k: int|
        0 <= k < chunks.len() ==> (#[trigger] chunks[k]) == (Chunk {
            number: (k + 1) as usize,
            start: (k * DEPUTES_CHUNK_SIZE) as usize,
            end: if (k + 1) * DEPUTES_CHUNK_SIZE <= n {
                ((k + 1) * DEPUTES_CHUNK_SIZE) as usize
            } else {
                n as usize
            },
        })
}

pub fn chunks_of(n: usize) -> (chunks: Vec<Chunk>)
    ensures
        are_chunks(chunks@, n as nat),
{
    let mut chunks: Vec<Chunk> = Vec::new();
    let mut start: usize = 0;
    while start < n
        invariant
            start <= n,
            start == chunks@.len() * DEPUTES_CHUNK_SIZE,
            forall|k: int|
                0 <= k < chunks@.len() ==> (#[trigger] chunks@[k]) == (Chunk {
                    number: (k + 1) as usize,
                    start: (k * DEPUTES_CHUNK_SIZE) as usize,
                    end: ((k + 1) * DEPUTES_CHUNK_SIZE) as usize,
                }),
        decreases n - start,
    {
        let end = if n - start >= DEPUTES_CHUNK_SIZE {
            start + DEPUTES_CHUNK_SIZE
        } else {
            n
        };
        let number = chunks.len() + 1;
        chunks.push(Chunk { number, start, end });
        if end == n {
            proof {
                let c = chunks@.len() as int;
                assert((c - 1) * 200 < n <= c * 200);
                assert(chunk_count(n as nat) == c) by {
                    assert((n + 199) / 200 == c) by (nonlinear_arith)
                        requires
                            (c - 1) * 200 < n <= c * 200,
                    ;
                }
            }
            return chunks;
        }
        start = end;
    }
    assert(chunk_count(0) == 0);
    chunks
}

/// The name of the file of a chunk.
pub fn chunk_file_name(number: usize) -> (r: String)
    ensures
        r@ == "deputes_p"@ + decimal_text(number as nat) + ".json"@,
{
    let mut out = chars_of("deputes_p");
    append_chars(&mut out, &decimal_chars(number as u64));
    append_chars(&mut out, &chars_of(".json"));
    text_of(&out)
}

/// The names of the columns of the tables.
pub open spec fn csv_header_texts() -> Seq<Seq<char>> {
    seq![
        "deputy_id"@,
        "nom"@,
        "prenom"@,
        "groupe_abrev"@,
        "groupe_nom"@,
        "parti_rattachement"@,
        "dept"@,
        "circo"@,
        "period_start"@,
        "period_end"@,
        "scrutins_eligibles"@,
        "votes_exprimes"@,
        "non_votant"@,
        "absent"@,
        "participation_rate"@,
        "pour_count"@,
        "contre_count"@,
        "abst_count"@,
        "amd_authored"@,
        "amd_adopted"@,
        "amd_adoption_rate"@,
        "amd_cosigned"@,
        "interventions_count"@,
        "interventions_chars"@,
        "top_dossier_id"@,
        "top_dossier_titre"@,
        "top_dossier_score"@,
    ]
}

pub fn csv_header() -> (row: Vec<String>)
    ensures
        texts(row@) == csv_header_texts(),
        row@.len() == CSV_COLUMNS,
{
    let mut row: Vec<String> = Vec::new();
    row.push("deputy_id".to_string());
    row.push("nom".to_string());
    row.push("prenom".to_string());
    row.push("groupe_abrev".to_string());
    row.push("groupe_nom".to_string());
    row.push("parti_rattachement".to_string());
    row.push("dept".to_string());
    row.push("circo".to_string());
    row.push("period_start".to_string());
    row.push("period_end".to_string());
    row.push("scrutins_eligibles".to_string());
    row.push("votes_exprimes".to_string());
    row.push("non_votant".to_string());
    row.push("absent".to_string());
    row.push("participation_rate".to_string());
    row.push("pour_count".to_string());
    row.push("contre_count".to_string());
    row.push("abst_count".to_string());
    row.push("amd_authored".to_string());
    row.push("amd_adopted".to_string());
    row.push("amd_adoption_rate".to_string());
    row.push("amd_cosigned".to_string());
    row.push("interventions_count".to_string());
    row.push("interventions_chars".to_string());
    row.push("top_dossier_id".to_string());
    row.push("top_dossier_titre".to_string());
    row.push("top_dossier_score".to_string());
    assert(texts(row@) =~= csv_header_texts());
    row
}

pub open spec fn text_or_empty(o: Option<String>) -> Seq<char> {
    match o {
        Some(s) => s@,
        None => Seq::empty(),
    }
}

/// The row of a representative in a table. The two rates are given as
/// texts, written out by whoever computes them.
pub open spec fn csv_row_texts(
    st: DeputeStats,
    participation_rate: Seq<char>,
    amd_adoption_rate: Seq<char>,
) -> Seq<Seq<char>> {
    seq![
        st.deputy_id@,
        st.nom@,
        st.prenom@,
        text_or_empty(st.groupe_abrev),
        text_or_empty(st.groupe_nom),
        text_or_empty(st.parti_rattachement),
        text_or_empty(st.dept),
        text_or_empty(st.circo),
        date_text(st.period_start.day()),
        date_text(st.period_end.day()),
        decimal_text(st.scrutins_eligibles as nat),
        decimal_text(st.votes_exprimes as nat),
        decimal_text(st.non_votant as nat),
        decimal_text(st.absent as nat),
        participation_rate,
        decimal_text(st.pour_count as nat),
        decimal_text(st.contre_count as nat),
        decimal_text(st.abst_count as nat),
        decimal_text(st.amd_authored as nat),
        decimal_text(st.amd_adopted as nat),
        amd_adoption_rate,
        decimal_text(st.amd_cosigned as nat),
        decimal_text(st.interventions_count as nat),
        decimal_text(st.interventions_chars as nat),
        if st.top_dossiers@.len() > 0 {
            st.top_dossiers@[0].dossier_id@
        } else {
            Seq::empty()
        },
        if st.top_dossiers@.len() > 0 {
            st.top_dossiers@[0].titre@
        } else {
            Seq::empty()
        },
        if st.top_dossiers@.len() > 0 {
            decimal_text(st.top_dossiers@[0].score as nat)
        } else {
            Seq::empty()
        },
    ]
}

fn or_empty(o: &Option<String>) -> (r: String)
    ensures
        r@ == text_or_empty(*o),
{
    match o {
        Some(s) => s.clone(),
        None => String::new(),
    }
}

fn number(n: u32) -> (r: String)
    ensures
        r@ == decimal_text(n as nat),
{
    text_of(&decimal_chars(n as u64))
}

/// The row of a representative in the table of a period.
pub fn csv_row(st: &DeputeStats, participation_rate: &str, amd_adoption_rate: &str) -> (row: Vec<
    String,
>)
    ensures
        texts(row@) == csv_row_texts(*st, participation_rate@, amd_adoption_rate@),
        row@.len() == CSV_COLUMNS,
{
    let mut row: Vec<String> = Vec::new();
    row.push(st.deputy_id.clone());
    row.push(st.nom.clone());
    row.push(st.prenom.clone());
    row.push(or_empty(&st.groupe_abrev));
    row.push(or_empty(&st.groupe_nom));
    row.push(or_empty(&st.parti_rattachement));
    row.push(or_empty(&st.dept));
    row.push(or_empty(&st.circo));
    row.push(st.period_start.to_text());
    row.push(st.period_end.to_text());
    row.push(number(st.scrutins_eligibles));
    row.push(number(st.votes_exprimes));
    row.push(number(st.non_votant));
    row.push(number(st.absent));
    row.push(participation_rate.to_string());
    row.push(number(st.pour_count));
    row.push(number(st.contre_count));
    row.push(number(st.abst_count));
    row.push(number(st.amd_authored));
    row.push(number(st.amd_adopted));
    row.push(amd_adoption_rate.to_string());
    row.push(number(st.amd_cosigned));
    row.push(number(st.interventions_count));
    row.push(number(st.interventions_chars));
    if st.top_dossiers.len() > 0 {
        row.push(st.top_dossiers[0].dossier_id.clone());
        row.push(st.top_dossiers[0].titre.clone());
        row.push(number(st.top_dossiers[0].score));
    } else {
        row.push(String::new());
        row.push(String::new());
        row.push(String::new());
    }
    assert(texts(row@) =~= csv_row_texts(*st, participation_rate@, amd_adoption_rate@));
    row
}

/// Exporting the same figures twice gives the same row, text for text.
pub proof fn lemma_csv_row_deterministic(
    first: Seq<String>,
    second: Seq<String>,
    st: DeputeStats,
    participation_rate: Seq<char>,
    amd_adoption_rate: Seq<char>,
)
    requires
        texts(first) == csv_row_texts(st, participation_rate, amd_adoption_rate),
        texts(second) == csv_row_texts(st, participation_rate, amd_adoption_rate),
    ensures
        texts(first) == texts(second),
        first.len() == second.len(),
        forall|i: int| 0 <= i < first.len() ==> (#[trigger] first[i])@ == second[i]@,
{
    assert(texts(first).len() == first.len());
    assert(texts(second).len() == second.len());
    assert forall|i: int| 0 <= i < first.len() implies (#[trigger] first[i])@ == second[i]@ by {
        assert(texts(first)[i] == first[i]@);
        assert(texts(second)[i] == second[i]@);
    }
}

/// A stage of a run of the pipeline.
#[derive(Debug, Clone, Copy, PartialEq, Eq, Structural)]
pub enum Stage {
    Download,
    Parse,
    Aggregate,
    ExportJson,
    ExportCsv,
    Publish,
}

/// What a run does after a stage.
#[derive(Debug, Clone, Copy, PartialEq, Eq, Structural)]
pub enum Step {
    /// Go on with the stage.
    Run(Stage),
    /// Stop and keep what was published before.
    KeepPrevious,
    /// Stop with an error; what was published before stays.
    Abort,
    /// The run is over and its results are published.
    Finished,
}

pub open spec fn step_after(stage: Stage, succeeded: bool) -> Step {
    match stage {
        Stage::Download => if succeeded {
            Step::Run(Stage::Parse)
        } else {
            Step::KeepPrevious
        },
        Stage::Parse => if succeeded {
            Step::Run(Stage::Aggregate)
        } else {
            Step::KeepPrevious
        },
        Stage::Aggregate => if succeeded {
            Step::Run(Stage::ExportJson)
        } else {
            Step::Abort
        },
        Stage::ExportJson => if succeeded {
            Step::Run(Stage::ExportCsv)
        } else {
            Step::Abort
        },
        Stage::ExportCsv => if succeeded {
            Step::Run(Stage::Publish)
        } else {
            Step::Abort
        },
        Stage::Publish => if succeeded {
            Step::Finished
        } else {
            Step::Abort
        },
    }
}

/// What a run does after a stage has succeeded or failed: the stages
/// follow each other, and a failure ends the run before anything is
/// published.
pub fn next_step(stage: Stage, succeeded: bool) -> (r: Step)
    ensures
        r == step_after(stage, succeeded),
{
    match stage {
        Stage::Download => if succeeded {
            Step::Run(Stage::Parse)
        } else {
            Step::KeepPrevious
        },
        Stage::Parse => if succeeded {
            Step::Run(Stage::Aggregate)
        } else {
            Step::KeepPrevious
        },
        Stage::Aggregate => if succeeded {
            Step::Run(Stage::ExportJson)
        } else {
            Step::Abort
        },
        Stage::ExportJson => if succeeded {
            Step::Run(Stage::ExportCsv)
        } else {
            Step::Abort
        },
        Stage::ExportCsv => if succeeded {
            Step::Run(Stage::Publish)
        } else {
            Step::Abort
        },
        Stage::Publish => if succeeded {
            Step::Finished
        } else {
            Step::Abort
        },
    }
}

/// Where a run stands after the outcomes of its stages so far, beginning
/// with the download.
pub open spec fn run_after(outcomes: Seq<bool>) -> Step
    decreases outcomes.len(),
{
    if outcomes.len() == 0 {
        Step::Run(Stage::Download)
    } else {
        match run_after(outcomes.drop_last()) {
            Step::Run(stage) => step_after(stage, outcomes.last()),
            stopped => stopped,
        }
    }
}

/// A run publishes only after every stage before has succeeded.
pub proof fn lemma_publish_needs_success(outcomes: Seq<bool>)
    requires
        run_after(outcomes) == Step::Run(Stage::Publish) || run_after(outcomes) == Step::Finished,
    ensures
        outcomes.len() >= 5,
        forall|i: int| 0 <= i < 5 ==> outcomes[i],
{
    lemma_run_prefix(outcomes);
}

/// The stage that a run is at tells how many stages have succeeded.
proof fn lemma_run_prefix(outcomes: Seq<bool>)
    ensures
        match run_after(outcomes) {
            Step::Run(Stage::Download) => outcomes.len() == 0,
            Step::Run(Stage::Parse) => outcomes.len() == 1 && all_true(outcomes, 1),
            Step::Run(Stage::Aggregate) => outcomes.len() == 2 && all_true(outcomes, 2),
            Step::Run(Stage::ExportJson) => outcomes.len() == 3 && all_true(outcomes, 3),
            Step::Run(Stage::ExportCsv) => outcomes.len() == 4 && all_true(outcomes, 4),
            Step::Run(Stage::Publish) => outcomes.len() == 5 && all_true(outcomes, 5),
            Step::Finished => outcomes.len() >= 6 && all_true(outcomes, 6),
            _ => true,
        },
    decreases outcomes.len(),
{
    if outcomes.len() > 0 {
        lemma_run_prefix(outcomes.drop_last());
        assert forall|i: int| 0 <= i < outcomes.len() - 1 implies outcomes.drop_last()[i]
            == outcomes[i] by {}
    }
}

pub open spec fn all_true(outcomes: Seq<bool>, n: int) -> bool {
    forall|i: int| 0 <= i < n && i < outcomes.len() ==> outcomes[i]
}

/// What the swap does to a directory.
#[derive(Debug, Clone, Copy, PartialEq, Eq, Structural)]
pub enum SwapAction {
    RemovePublishedData,
    CopyData,
    RemovePublishedExports,
    CopyExports,
    RemoveScratch,
}

/// The swap of the scratch directories for the published ones: each root
/// that the scratch holds replaces the published one, which is removed
/// first where it is there; the scratch goes last.
pub open spec fn swap_actions(
    scratch_data: bool,
    scratch_exports: bool,
    published_data: bool,
    published_exports: bool,
) -> Seq<SwapAction> {
    (if scratch_data {
        (if published_data {
            seq![SwapAction::RemovePublishedData]
        } else {
            Seq::empty()
        }).push(SwapAction::CopyData)
    } else {
        Seq::empty()
    }) + (if scratch_exports {
        (if published_exports {
            seq![SwapAction::RemovePublishedExports]
        } else {
            Seq::empty()
        }).push(SwapAction::CopyExports)
    } else {
        Seq::empty()
    }) + seq![SwapAction::RemoveScratch]
}

pub fn swap_plan(
    scratch_data: bool,
    scratch_exports: bool,
    published_data: bool,
    published_exports: bool,
) -> (plan: Vec<SwapAction>)
    ensures
        plan@ == swap_actions(scratch_data, scratch_exports, published_data, published_exports),
{
    let mut plan: Vec<SwapAction> = Vec::new();
    if scratch_data {
        if published_data {
            plan.push(SwapAction::RemovePublishedData);
        }
        plan.push(SwapAction::CopyData);
    }
    if scratch_exports {
        if published_exports {
            plan.push(SwapAction::RemovePublishedExports);
        }
        plan.push(SwapAction::CopyExports);
    }
    plan.push(SwapAction::RemoveScratch);
    plan
}

/// The title of a legislative file under its id.
#[derive(Debug, Clone)]
pub struct DossierTitle {
    pub id: String,
    pub titre: String,
}

pub open spec fn title_leq(a: DossierTitle, b: DossierTitle) -> bool {
    crate::text::lex_le(a.id@, b.id@)
}

pub open spec fn title_order() -> spec_fn(DossierTitle, DossierTitle) -> bool {
    |a: DossierTitle, b: DossierTitle| title_leq(a, b)
}

/// The titles are those of the files, one for each in order.
pub open spec fn are_titles(titles: Seq<DossierTitle>, dossiers: Seq<Dossier>) -> bool {
    &&& titles.len() == dossiers.len()
    &&& forall|k: int|
        0 <= k < titles.len() ==> (#[trigger] titles[k]).id@ == dossiers[k].id@ && titles[k].titre@
            == dossiers[k].titre@
}

/// The titles of the legislative files, sorted by id.
pub fn dossiers_min(dossiers: &Vec<Dossier>) -> (titles: Vec<DossierTitle>)
    ensures
        are_sorted_titles(titles@, dossiers@),
{
    let mut titles: Vec<DossierTitle> = Vec::new();
    let mut i: usize = 0;
    while i < dossiers.len()
        invariant
            i <= dossiers@.len(),
            titles@.len() == i,
            forall|k: int|
                0 <= k < i ==> (#[trigger] titles@[k]).id@ == dossiers@[k].id@ && titles@[k].titre@
                    == dossiers@[k].titre@,
        decreases dossiers@.len() - i,
    {
        titles.push(DossierTitle { id: dossiers[i].id.clone(), titre: dossiers[i].titre.clone() });
        i += 1;
    }
    let ghost unsorted = titles@;
    proof {
        crate::text::lemma_lex_le_order();
    }
    let le = |a: &DossierTitle, b: &DossierTitle| -> (r: bool)
        ensures
            r == title_leq(*a, *b),
        {
            proof {
                crate::text::lemma_lex_total(a.id@, b.id@);
            }
            !crate::text::str_lt(b.id.as_str(), a.id.as_str())
        };
    crate::sorting::sort_by(&mut titles, le, Ghost(title_order()));
    proof {
        assert(are_titles(unsorted, dossiers@) && crate::sorting::is_sorted_rearrangement(
            titles@,
            unsorted,
            title_order(),
        ));
    }
    titles
}


/// What a status publishes, as values.
pub struct StatusView {
    pub last_update: Seq<char>,
    pub last_update_readable: Seq<char>,
    pub legislature: u32,
    pub sources: Seq<(Seq<char>, Option<Seq<char>>, Option<Seq<char>>, u64)>,
    pub deputes: usize,
}

pub open spec fn status_view(s: Status) -> StatusView {
    StatusView {
        last_update: s.last_update@,
        last_update_readable: s.last_update_readable@,
        legislature: s.legislature,
        sources: Seq::new(
            s.sources@.len(),
            |i: int|
                (
                    s.sources@[i].key@,
                    opt_text(s.sources@[i].etag),
                    opt_text(s.sources@[i].last_modified),
                    s.sources@[i].size_bytes,
                ),
        ),
        deputes: s.counts.deputes,
    }
}

/// Exporting the status of the same run twice gives the same status.
pub proof fn lemma_status_deterministic(
    first: Status,
    second: Status,
    etags: Seq<EtagInfo>,
    deputes: nat,
    last_update: Seq<char>,
    readable: Seq<char>,
)
    requires
        is_status(first, etags, deputes, last_update, readable),
        is_status(second, etags, deputes, last_update, readable),
    ensures
        status_view(first) == status_view(second),
{
    assert forall|i: int| 0 <= i < etags.len() implies status_view(first).sources[i]
        == status_view(second).sources[i] by {
        assert(shows_source(first.sources@[i], etags[i]));
        assert(shows_source(second.sources@[i], etags[i]));
    }
    assert(status_view(first).sources =~= status_view(second).sources);
}

/// Cutting a listing of the same length twice gives the same chunks.
pub proof fn lemma_chunks_deterministic(first: Seq<Chunk>, second: Seq<Chunk>, n: nat)
    requires
        are_chunks(first, n),
        are_chunks(second, n),
    ensures
        first == second,
{
    assert(first =~= second);
}

/// Id and title of an entry, as values.
pub open spec fn title_view() -> spec_fn(DossierTitle) -> (Seq<char>, Seq<char>) {
    |t: DossierTitle| (t.id@, t.titre@)
}

pub open spec fn title_view_order() -> spec_fn((Seq<char>, Seq<char>), (Seq<char>, Seq<char>)) -> bool {
    |a: (Seq<char>, Seq<char>), b: (Seq<char>, Seq<char>)| crate::text::lex_le(a.0, b.0)
}

/// The titles are those of the files, sorted by id.
pub open spec fn are_sorted_titles(titles: Seq<DossierTitle>, dossiers: Seq<Dossier>) -> bool {
    exists|unsorted: Seq<DossierTitle>| #[trigger]
        are_titles(unsorted, dossiers) && crate::sorting::is_sorted_rearrangement(
            titles,
            unsorted,
            title_order(),
        )
}

/// Exporting the titles of the same files twice gives the same ids and
/// titles in the same order.
pub proof fn lemma_titles_deterministic(
    first: Seq<DossierTitle>,
    second: Seq<DossierTitle>,
    dossiers: Seq<Dossier>,
)
    requires
        are_sorted_titles(first, dossiers),
        are_sorted_titles(second, dossiers),
    ensures
        first.map_values(title_view()) == second.map_values(title_view()),
{
    let ua = choose|u: Seq<DossierTitle>| #[trigger]
        are_titles(u, dossiers) && crate::sorting::is_sorted_rearrangement(
            first,
            u,
            title_order(),
        );
    let ub = choose|u: Seq<DossierTitle>| #[trigger]
        are_titles(u, dossiers) && crate::sorting::is_sorted_rearrangement(
            second,
            u,
            title_order(),
        );
    assert(ua.map_values(title_view()) =~= ub.map_values(title_view()));
    crate::sorting::lemma_stable_sorted_map(ua, title_view(), title_order(), title_view_order());
    crate::sorting::lemma_stable_sorted_map(ub, title_view(), title_order(), title_view_order());
}

} // verus!
