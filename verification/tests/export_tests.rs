use activite_deputes::aggregator::compute_depute_stats;
use activite_deputes::cosign::PeriodBounds;
use activite_deputes::downloader::{
    batch_outcome, cached_etag, decide_download, etag_cache_of, reused_info, zip_entry_target,
    CachedEtag, DownloadDecision, EtagInfo, SourceOutcome, Sources, MAX_CONCURRENT_DOWNLOADS,
};
use activite_deputes::exporter::calendar::{amendements_calendar, make_event, EventKind};
use activite_deputes::exporter::{
    chunk_file_name, chunks_of, csv_header, csv_row, dossiers_min, next_step, status_of, swap_plan,
    Chunk, Stage, Step, SwapAction,
};
use activite_deputes::models::{
    Amendement, Depute, Dossier, MandatAssembleeEpisode, RawDataset, Scrutin, Vote, VotePosition,
};
use activite_deputes::parser::parse_date;

fn amendement(id: &str, depot: Option<&str>, circulation: Option<&str>, examen: Option<&str>, sort: Option<&str>) -> Amendement {
    Amendement {
        id: id.to_string(),
        numero: Some(format!("n{id}")),
        auteur_id: Some("PA1".to_string()),
        auteur_type: None,
        cosignataires_ids: vec!["PA2".to_string()],
        sort: Some("Adopté".to_string()),
        date: None,
        date_depot: depot.and_then(parse_date),
        date_circulation: circulation.and_then(parse_date),
        date_examen: examen.and_then(parse_date),
        date_sort: sort.and_then(parse_date),
        dossier_ref: Some("D1".to_string()),
        article: None,
        texte_ref: None,
        adopte: true,
        mission_visee: None,
        mission_ref: None,
        expose_sommaire: Some("exposé".to_string()),
    }
}

fn etag(key: &str, tag: Option<&str>) -> EtagInfo {
    EtagInfo { key: key.to_string(), etag: tag.map(|t| t.to_string()), last_modified: None, size_bytes: 7 }
}

#[test]
fn four_sources_two_at_a_time() {
    let s = Sources::default();
    let keys: Vec<&str> = s.list.iter().map(|x| x.key.as_str()).collect();
    assert_eq!(keys, vec!["deputes", "scrutins", "amendements", "dossiers"]);
    assert_eq!(s.list[1].filename, "scrutins.zip");
    assert!(s.list[3].url.ends_with("/loi/dossiers_legislatifs/Dossiers_Legislatifs.json.zip"));
    assert!(s.list[0].url.starts_with("http://data.assemblee-nationale.fr/static/openData/repository/17/amo/"));
    assert_eq!(MAX_CONCURRENT_DOWNLOADS, 2);
}

#[test]
fn answer_of_the_server_decides() {
    assert_eq!(decide_download(304, true), DownloadDecision::ReuseCache);
    assert_eq!(decide_download(304, false), DownloadDecision::Fail);
    assert_eq!(decide_download(200, true), DownloadDecision::Store);
    assert_eq!(decide_download(299, false), DownloadDecision::Store);
    assert_eq!(decide_download(300, true), DownloadDecision::Fail);
    assert_eq!(decide_download(199, true), DownloadDecision::Fail);
    assert_eq!(decide_download(404, true), DownloadDecision::Fail);
    assert_eq!(decide_download(500, false), DownloadDecision::Fail);
    let info = reused_info("scrutins", &Some("\"abc\"".to_string()), Some("hier".to_string()), None);
    assert_eq!(info.key, "scrutins");
    assert_eq!(info.etag, Some("\"abc\"".to_string()));
    assert_eq!(info.last_modified, Some("hier".to_string()));
    assert_eq!(info.size_bytes, 0);
    assert_eq!(reused_info("k", &None, None, Some(12)).size_bytes, 12);
}

#[test]
fn archive_entries_are_extracted_by_base_name() {
    assert_eq!(zip_entry_target("json/acteur/PA1.json"), Some("PA1.json".to_string()));
    assert_eq!(zip_entry_target("PA1.json"), Some("PA1.json".to_string()));
    assert_eq!(zip_entry_target("json/acteur/"), None);
    assert_eq!(zip_entry_target("../etc/passwd"), None);
    assert_eq!(zip_entry_target("a/..b/c"), None);
    assert_eq!(zip_entry_target("a/.b/c"), Some("c".to_string()));
    assert_eq!(zip_entry_target(""), Some(String::new()));
}

#[test]
fn tags_are_cached_by_key() {
    let cache = etag_cache_of(&vec![etag("deputes", Some("t1")), etag("scrutins", None), etag("dossiers", Some("t3"))]);
    let pairs: Vec<(&str, &str)> = cache.iter().map(|c| (c.key.as_str(), c.etag.as_str())).collect();
    assert_eq!(pairs, vec![("deputes", "t1"), ("dossiers", "t3")]);
    assert_eq!(cached_etag(&cache, "dossiers"), Some("t3".to_string()));
    assert_eq!(cached_etag(&cache, "scrutins"), None);
    let twice = vec![
        CachedEtag { key: "a".into(), etag: "1".into() },
        CachedEtag { key: "a".into(), etag: "2".into() },
    ];
    assert_eq!(cached_etag(&twice, "a"), Some("1".to_string()));
}

#[test]
fn one_failure_fails_the_batch() {
    let ok = batch_outcome(vec![
        SourceOutcome::Fetched(etag("deputes", None)),
        SourceOutcome::Fetched(EtagInfo {
            key: "scrutins".to_string(),
            etag: Some("x".to_string()),
            last_modified: Some("Tue, 24 Feb 2026 04:00:00 GMT".to_string()),
            size_bytes: 1234,
        }),
    ])
    .unwrap();
    let entries: Vec<(&str, Option<&str>, Option<&str>, u64)> = ok
        .iter()
        .map(|e| (e.key.as_str(), e.etag.as_deref(), e.last_modified.as_deref(), e.size_bytes))
        .collect();
    assert_eq!(
        entries,
        vec![
            ("deputes", None, None, 7),
            ("scrutins", Some("x"), Some("Tue, 24 Feb 2026 04:00:00 GMT"), 1234),
        ]
    );
    assert_eq!(batch_outcome(vec![]).unwrap().len(), 0);
    let err = batch_outcome(vec![
        SourceOutcome::Fetched(etag("deputes", None)),
        SourceOutcome::Failed { key: "scrutins".into(), reason: "HTTP 500".into() },
        SourceOutcome::Fetched(etag("amendements", None)),
        SourceOutcome::Failed { key: "dossiers".into(), reason: "join error".into() },
    ])
    .unwrap_err();
    assert_eq!(err, "Échecs de téléchargement: scrutins: HTTP 500, dossiers: join error");
}

#[test]
fn status_lists_the_sources() {
    let s = status_of(&vec![etag("deputes", Some("t"))], 577, "2026-02-24T04:00:00+00:00", "24/02/2026 à 04:00 UTC");
    assert_eq!(s.last_update, "2026-02-24T04:00:00+00:00");
    assert_eq!(s.last_update_readable, "24/02/2026 à 04:00 UTC");
    assert_eq!(s.legislature, 17);
    assert_eq!(s.counts.deputes, 577);
    assert_eq!(s.sources.len(), 1);
    assert_eq!(s.sources[0].key, "deputes");
    assert_eq!(s.sources[0].etag, Some("t".to_string()));
    assert_eq!(s.sources[0].size_bytes, 7);
}

#[test]
fn listing_is_cut_into_chunks_of_two_hundred() {
    assert_eq!(chunks_of(0), vec![]);
    assert_eq!(chunks_of(1), vec![Chunk { number: 1, start: 0, end: 1 }]);
    assert_eq!(chunks_of(200), vec![Chunk { number: 1, start: 0, end: 200 }]);
    assert_eq!(
        chunks_of(577),
        vec![
            Chunk { number: 1, start: 0, end: 200 },
            Chunk { number: 2, start: 200, end: 400 },
            Chunk { number: 3, start: 400, end: 577 },
        ]
    );
    assert_eq!(chunk_file_name(1), "deputes_p1.json");
    assert_eq!(chunk_file_name(12), "deputes_p12.json");
}

#[test]
fn table_has_twenty_seven_columns() {
    let header = csv_header();
    assert_eq!(header.len(), 27);
    assert_eq!(header[0], "deputy_id");
    assert_eq!(header[14], "participation_rate");
    assert_eq!(header[20], "amd_adoption_rate");
    assert_eq!(header[26], "top_dossier_score");
    let dep = Depute {
        id: "PA1".into(),
        nom: "Dupont".into(),
        prenom: "Alice".into(),
        date_naissance: None,
        sexe: None,
        pays_naissance: None,
        profession: None,
        dept_code: Some("75".into()),
        dept_nom: Some("Paris".into()),
        circo: Some("3".into()),
        mandat_debut: None,
        mandat_fin: None,
        mandat_debut_legislature: None,
        mandat_assemblee_episodes: vec![MandatAssembleeEpisode {
            date_debut: parse_date("2022-06-19").unwrap(),
            date_fin: None,
        }],
        groupe_id: None,
        groupe_abrev: Some("GRP".into()),
        groupe_nom: None,
        parti_id: None,
        parti_nom: Some("Parti".into()),
        email_assemblee: None,
        site_web: None,
        sites_web: vec![],
        sites_web_sources: vec![],
        telephones: vec![],
        uri_hatvp: None,
    };
    let raw = RawDataset {
        deputes: vec![dep],
        organes: vec![],
        scrutins: vec![Scrutin {
            id: "S1".into(),
            numero: 1,
            titre: "".into(),
            date: parse_date("2023-07-01"),
            sort: None,
            dossier_ref: Some("D1".into()),
            votes: vec![Vote { deputy_id: "PA1".into(), position: VotePosition::Pour }],
        }],
        amendements: vec![],
        dossiers: vec![Dossier {
            id: "D1".into(),
            titre: "Loi, \"une\"".into(),
            date_depot: None,
            statut: None,
            legislature: None,
            nature: None,
            numero: None,
            auteur_id: None,
            cosignataires_ids: vec![],
            source_url: None,
            origin_chamber: None,
            initiateur_organe_ref: None,
        }],
    };
    let p = PeriodBounds {
        start: parse_date("2023-06-01").unwrap(),
        end: parse_date("2023-12-01").unwrap(),
        include_undated: false,
    };
    let st = compute_depute_stats(0, &raw, &p);
    let row = csv_row(&st, "1.0000", "");
    assert_eq!(
        row,
        vec![
            "PA1", "Dupont", "Alice", "GRP", "", "Parti", "Paris", "3", "2023-06-01", "2023-12-01",
            "1", "1", "0", "0", "1.0000", "1", "0", "0", "0", "0", "", "0", "0", "0", "D1",
            "Loi, \"une\"", "1",
        ]
    );
    // the same figures give the same row
    assert_eq!(row, csv_row(&st, "1.0000", ""));
    let titles: Vec<(String, String)> =
        dossiers_min(&raw.dossiers).iter().map(|t| (t.id.clone(), t.titre.clone())).collect();
    assert_eq!(titles, vec![("D1".to_string(), "Loi, \"une\"".to_string())]);
}

#[test]
fn a_run_publishes_only_after_every_stage() {
    assert_eq!(next_step(Stage::Download, true), Step::Run(Stage::Parse));
    assert_eq!(next_step(Stage::Download, false), Step::KeepPrevious);
    assert_eq!(next_step(Stage::Parse, true), Step::Run(Stage::Aggregate));
    assert_eq!(next_step(Stage::Parse, false), Step::KeepPrevious);
    assert_eq!(next_step(Stage::Aggregate, true), Step::Run(Stage::ExportJson));
    assert_eq!(next_step(Stage::Aggregate, false), Step::Abort);
    assert_eq!(next_step(Stage::ExportJson, true), Step::Run(Stage::ExportCsv));
    assert_eq!(next_step(Stage::ExportJson, false), Step::Abort);
    assert_eq!(next_step(Stage::ExportCsv, true), Step::Run(Stage::Publish));
    assert_eq!(next_step(Stage::ExportCsv, false), Step::Abort);
    assert_eq!(next_step(Stage::Publish, true), Step::Finished);
    assert_eq!(next_step(Stage::Publish, false), Step::Abort);
    assert_eq!(
        swap_plan(true, true, true, false),
        vec![
            SwapAction::RemovePublishedData,
            SwapAction::CopyData,
            SwapAction::CopyExports,
            SwapAction::RemoveScratch
        ]
    );
    assert_eq!(swap_plan(false, false, true, true), vec![SwapAction::RemoveScratch]);
}

#[test]
fn calendar_groups_events_by_day_and_month() {
    let amendements = vec![
        amendement("B", Some("2024-02-01"), None, Some("2024-02-15"), Some("2024-03-01")),
        amendement("A", Some("2024-02-01"), Some("2024-02-01"), None, None),
        amendement("U", None, None, None, None),
        amendement("C", Some("2024-01-31"), None, None, Some("2024-02-01")),
    ];
    let c = amendements_calendar(&amendements, "maintenant");
    let months: Vec<&str> = c.months.iter().map(|m| m.month.as_str()).collect();
    assert_eq!(months, vec!["2024-01", "2024-02", "2024-03"]);
    let february = &c.months[1];
    assert_eq!(february.schema_version, 1);
    let days: Vec<&str> = february.days.iter().map(|d| d.day.as_str()).collect();
    assert_eq!(days, vec!["2024-02-01", "2024-02-15"]);
    let first: Vec<(&str, &str)> =
        february.days[0].events.iter().map(|e| (e.t.as_str(), e.id.as_str())).collect();
    assert_eq!(
        first,
        vec![("DEPOT", "A"), ("DEPOT", "B"), ("CIRCULATION", "A"), ("SORT", "C")]
    );
    let sort = &february.days[0].events[3];
    assert!(sort.ok);
    assert_eq!(sort.s, Some("Adopté".to_string()));
    let depot = &february.days[0].events[0];
    assert!(!depot.ok);
    assert_eq!(depot.s, None);
    assert_eq!(depot.n, Some("nA".to_string()));
    assert_eq!(depot.cos, vec!["PA2".to_string()]);
    let index: Vec<(&str, usize, usize)> =
        c.index.months.iter().map(|m| (m.month.as_str(), m.days, m.events)).collect();
    assert_eq!(index, vec![("2024-03", 1, 1), ("2024-02", 2, 5), ("2024-01", 1, 1)]);
    assert_eq!(c.index.undated_count, 1);
    assert_eq!(c.undated[0].id, "U");
    assert!(c.undated[0].ok);
    assert_eq!(c.index.undated_file, "data/amendements/undated.json");
    assert_eq!(c.index.notes.len(), 3);
    assert_eq!(c.index.generated_at, "maintenant");
    let e = make_event(&amendements[0], EventKind::Examen);
    assert_eq!((e.t.as_str(), e.ok), ("EXAMEN", false));
    let empty = amendements_calendar(&vec![], "x");
    assert!(empty.months.is_empty() && empty.index.months.is_empty() && empty.undated.is_empty());
}
