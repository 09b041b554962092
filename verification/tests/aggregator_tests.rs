use activite_deputes::aggregator::{
    compute_all, compute_depute_stats, compute_period, legislature_start, position_of, tally_votes,
    LEG17_START_DAYS,
};
use activite_deputes::cosign::{cosign_entry, cosign_row, PeriodBounds};
use activite_deputes::dates::Date;
use activite_deputes::dossiers::top_dossiers;
use activite_deputes::models::{
    Amendement, Depute, Dossier, MandatAssembleeEpisode, RawDataset, Ratio, Scrutin,
    SiteWebSource, Vote, VotePosition,
};
use activite_deputes::parser::parse_date;
use activite_deputes::windows::{
    date_in_windows, effective_mandate_windows, merge_windows, DateWindow,
};

fn day(text: &str) -> Date {
    parse_date(text).unwrap()
}

fn window(start: &str, end: &str) -> DateWindow {
    DateWindow { start: day(start), end: day(end) }
}

fn bounds(w: &[DateWindow]) -> Vec<(i32, i32)> {
    w.iter().map(|x| (x.start.days(), x.end.days())).collect()
}

fn depute(id: &str, group: Option<&str>) -> Depute {
    Depute {
        id: id.to_string(),
        nom: format!("Nom{id}"),
        prenom: format!("Prenom{id}"),
        date_naissance: None,
        sexe: None,
        pays_naissance: None,
        profession: None,
        dept_code: None,
        dept_nom: None,
        circo: None,
        mandat_debut: Some(day("2022-06-19")),
        mandat_fin: None,
        mandat_debut_legislature: Some(day("2022-06-19")),
        mandat_assemblee_episodes: vec![MandatAssembleeEpisode {
            date_debut: day("2022-06-19"),
            date_fin: None,
        }],
        groupe_id: group.map(|g| format!("PO{g}")),
        groupe_abrev: group.map(|g| g.to_string()),
        groupe_nom: group.map(|g| format!("Groupe {g}")),
        parti_id: None,
        parti_nom: None,
        email_assemblee: None,
        site_web: None,
        sites_web: vec![],
        sites_web_sources: vec![],
        telephones: vec![],
        uri_hatvp: None,
    }
}

fn scrutin(id: &str, date: Option<&str>, dossier: Option<&str>, votes: &[(&str, VotePosition)]) -> Scrutin {
    Scrutin {
        id: id.to_string(),
        numero: 1,
        titre: String::new(),
        date: date.map(day),
        sort: None,
        dossier_ref: dossier.map(|d| d.to_string()),
        votes: votes
            .iter()
            .map(|(d, p)| Vote { deputy_id: d.to_string(), position: *p })
            .collect(),
    }
}

fn amendement(id: &str, date: Option<&str>, author: Option<&str>, cosigners: &[&str], adopte: bool, dossier: Option<&str>) -> Amendement {
    Amendement {
        id: id.to_string(),
        numero: None,
        auteur_id: author.map(|a| a.to_string()),
        auteur_type: None,
        cosignataires_ids: cosigners.iter().map(|c| c.to_string()).collect(),
        sort: None,
        date: date.map(day),
        date_depot: date.map(day),
        date_circulation: None,
        date_examen: None,
        date_sort: None,
        dossier_ref: dossier.map(|d| d.to_string()),
        article: None,
        texte_ref: None,
        adopte,
        mission_visee: None,
        mission_ref: None,
        expose_sommaire: None,
    }
}

fn dossier(id: &str, titre: &str) -> Dossier {
    Dossier {
        id: id.to_string(),
        titre: titre.to_string(),
        date_depot: None,
        statut: None,
        legislature: None,
        nature: None,
        numero: None,
        auteur_id: None,
        cosignataires_ids: vec![],
        source_url: None,
        origin_chamber: None,
        initiateur_organe_ref: None,
    }
}

fn raw(deputes: Vec<Depute>, scrutins: Vec<Scrutin>, amendements: Vec<Amendement>, dossiers: Vec<Dossier>) -> RawDataset {
    RawDataset { deputes, organes: vec![], scrutins, amendements, dossiers }
}

fn period(start: &str, end: &str, undated: bool) -> PeriodBounds {
    PeriodBounds { start: day(start), end: day(end), include_undated: undated }
}

#[test]
fn merge_joins_overlapping_and_adjacent_windows() {
    let merged = merge_windows(vec![
        window("2023-03-01", "2023-03-10"),
        window("2023-01-01", "2023-01-31"),
        window("2023-02-01", "2023-02-10"),
        window("2023-03-05", "2023-03-07"),
        window("2023-02-12", "2023-02-20"),
    ]);
    assert_eq!(
        bounds(&merged),
        bounds(&[
            window("2023-01-01", "2023-02-10"),
            window("2023-02-12", "2023-02-20"),
            window("2023-03-01", "2023-03-10"),
        ])
    );
}

#[test]
fn merge_is_idempotent_on_values() {
    let once = merge_windows(vec![
        window("2023-01-05", "2023-01-09"),
        window("2023-01-01", "2023-01-04"),
        window("2023-01-20", "2023-01-25"),
        window("2023-01-20", "2023-01-22"),
    ]);
    let twice = merge_windows(once.clone());
    assert_eq!(bounds(&once), bounds(&twice));
    assert_eq!(bounds(&once).len(), 2);
    assert!(merge_windows(vec![]).is_empty());
    // windows that end before they begin are merged like any other
    let odd = merge_windows(vec![
        window("2023-03-10", "2023-03-01"),
        window("2023-03-10", "2023-03-01"),
        window("2023-03-02", "2023-03-20"),
        window("2023-02-10", "2023-02-01"),
    ]);
    assert_eq!(bounds(&odd), bounds(&merge_windows(odd.clone())));
    assert_eq!(
        bounds(&odd),
        vec![
            (day("2023-02-10").days(), day("2023-02-01").days()),
            (day("2023-03-02").days(), day("2023-03-20").days()),
        ]
    );
}

#[test]
fn effective_windows_clip_episodes_to_the_period() {
    let mut d = depute("PA1", None);
    d.mandat_assemblee_episodes = vec![
        MandatAssembleeEpisode { date_debut: day("2022-06-19"), date_fin: Some(day("2023-02-01")) },
        MandatAssembleeEpisode { date_debut: day("2023-02-02"), date_fin: Some(day("2023-03-01")) },
        MandatAssembleeEpisode { date_debut: day("2023-09-01"), date_fin: None },
    ];
    let w = effective_mandate_windows(&d, day("2023-01-01"), day("2023-12-31"));
    assert_eq!(
        bounds(&w),
        bounds(&[window("2023-01-01", "2023-03-01"), window("2023-09-01", "2023-12-31")])
    );
    assert!(date_in_windows(day("2023-03-01"), &w));
    assert!(!date_in_windows(day("2023-03-02"), &w));
    assert!(date_in_windows(day("2023-09-01"), &w));
}

#[test]
fn episodes_outside_the_period_give_no_window() {
    // one episode that ended before the period, and no dates of the mandate
    let mut d = depute("PA1", None);
    d.mandat_debut = None;
    d.mandat_fin = None;
    d.mandat_assemblee_episodes =
        vec![MandatAssembleeEpisode { date_debut: day("2022-06-19"), date_fin: Some(day("2023-01-01")) }];
    assert!(effective_mandate_windows(&d, day("2023-06-01"), day("2023-12-01")).is_empty());
    // nor do the dates of the mandate stand in where episodes exist
    d.mandat_debut = Some(day("2022-06-19"));
    assert!(effective_mandate_windows(&d, day("2023-06-01"), day("2023-12-01")).is_empty());
    let data = raw(
        vec![d],
        vec![scrutin("S1", Some("2023-07-01"), None, &[("PA1", VotePosition::Pour)])],
        vec![],
        vec![],
    );
    let st = compute_depute_stats(0, &data, &period("2023-06-01", "2023-12-01", false));
    assert_eq!(st.scrutins_eligibles, 0);
    assert_eq!(st.votes_exprimes, 0);
    assert_eq!(st.participation(), Ratio { numerator: 0, denominator: 1 });
}

#[test]
fn without_any_episode_the_mandate_of_the_record_stands_in() {
    let mut d = depute("PA1", None);
    d.mandat_assemblee_episodes = vec![];
    d.mandat_debut = Some(day("2023-02-01"));
    d.mandat_fin = None;
    let w = effective_mandate_windows(&d, day("2023-01-01"), day("2023-12-31"));
    assert_eq!(bounds(&w), bounds(&[window("2023-02-01", "2023-12-31")]));
    d.mandat_fin = Some(day("2022-12-31"));
    assert!(effective_mandate_windows(&d, day("2023-01-01"), day("2023-12-31")).is_empty());
    d.mandat_debut = None;
    d.mandat_fin = None;
    let w = effective_mandate_windows(&d, day("2023-01-01"), day("2023-12-31"));
    assert_eq!(bounds(&w), bounds(&[window("2023-01-01", "2023-12-31")]));
}

#[test]
fn open_mandate_with_one_vote_for() {
    let data = raw(
        vec![depute("PA1", Some("GRP"))],
        vec![scrutin("S1", Some("2023-07-01"), None, &[("PA1", VotePosition::Pour)])],
        vec![],
        vec![],
    );
    let st = compute_depute_stats(0, &data, &period("2023-06-01", "2023-12-01", false));
    assert_eq!(st.deputy_id, "PA1");
    assert_eq!(st.scrutins_eligibles, 1);
    assert_eq!(st.votes_exprimes, 1);
    assert_eq!(st.pour_count, 1);
    assert_eq!(st.contre_count, 0);
    assert_eq!(st.participation(), Ratio { numerator: 1, denominator: 1 });
    assert_eq!(st.amd_adoption(), None);
    let rate = st.participation();
    assert_eq!(rate.numerator as f64 / rate.denominator as f64, 1.0);
    assert_eq!(st.period_start.days(), day("2023-06-01").days());
    assert_eq!(st.period_end.days(), day("2023-12-01").days());
}

#[test]
fn mandate_over_before_the_period_gives_a_zeroed_record() {
    let mut d = depute("PA1", Some("GRP"));
    d.mandat_assemblee_episodes =
        vec![MandatAssembleeEpisode { date_debut: day("2022-06-19"), date_fin: Some(day("2023-01-01")) }];
    d.mandat_fin = Some(day("2023-01-01"));
    let data = raw(
        vec![d, depute("PA2", Some("GRP"))],
        vec![scrutin("S1", Some("2023-07-01"), Some("D1"), &[("PA1", VotePosition::Pour)])],
        vec![
            amendement("A1", Some("2023-07-02"), Some("PA1"), &["PA2"], true, Some("D1")),
            amendement("A2", None, Some("PA1"), &[], true, None),
        ],
        vec![],
    );
    let p = period("2023-06-01", "2023-12-01", true);
    let all = compute_period(&data, &p);
    assert_eq!(all.len(), 2);
    let st = &all[0];
    assert_eq!(st.deputy_id, "PA1");
    assert_eq!(st.scrutins_eligibles, 0);
    assert_eq!(st.votes_exprimes, 0);
    assert_eq!(st.absent, 0);
    assert_eq!(st.amd_authored, 0);
    assert_eq!(st.participation(), Ratio { numerator: 0, denominator: 1 });
    assert!(st.top_dossiers.is_empty());
    assert!(st.top_cosignataires.is_empty());
    assert!(st.cosign_network.is_none());
    assert_eq!(st.period_start.days(), day("2023-06-01").days());
    assert_eq!(st.period_end.days(), day("2023-01-01").days());
}

#[test]
fn tallies_split_the_eligible_roll_calls() {
    let scrutins = vec![
        scrutin("S1", Some("2023-07-01"), None, &[("PA1", VotePosition::Pour)]),
        scrutin("S2", Some("2023-07-02"), None, &[("PA1", VotePosition::Contre)]),
        scrutin("S3", Some("2023-07-03"), None, &[("PA1", VotePosition::Abstention)]),
        scrutin("S4", Some("2023-07-04"), None, &[("PA1", VotePosition::NonVotant)]),
        scrutin("S5", Some("2023-07-05"), None, &[("PA1", VotePosition::Absent)]),
        scrutin("S6", Some("2023-07-06"), None, &[("PA2", VotePosition::Pour)]),
        scrutin("S7", None, None, &[("PA1", VotePosition::Pour)]),
        scrutin("S8", Some("2024-07-06"), None, &[("PA1", VotePosition::Pour)]),
    ];
    let t = tally_votes(&"PA1".to_string(), &scrutins, &vec![window("2023-06-01", "2023-12-01")]);
    assert_eq!(
        (t.eligibles, t.pour, t.contre, t.abstention, t.non_votant, t.absent),
        (6, 1, 1, 1, 1, 2)
    );
}

#[test]
fn first_recorded_position_counts() {
    let votes = vec![
        Vote { deputy_id: "PA1".to_string(), position: VotePosition::Contre },
        Vote { deputy_id: "PA1".to_string(), position: VotePosition::Pour },
    ];
    assert_eq!(position_of(&votes, &"PA1".to_string()), Some(VotePosition::Contre));
    assert_eq!(position_of(&votes, &"PA2".to_string()), None);
}

#[test]
fn amendment_figures_and_adoption_ratio() {
    let data = raw(
        vec![depute("PA1", None), depute("PA2", None)],
        vec![],
        vec![
            amendement("A1", Some("2023-07-01"), Some("PA1"), &["PA2"], true, None),
            amendement("A2", Some("2023-07-02"), Some("PA1"), &[], false, None),
            amendement("A3", Some("2023-07-03"), Some("PA2"), &["PA1"], true, None),
            amendement("A4", None, Some("PA1"), &[], true, None),
            amendement("A5", Some("2022-07-03"), Some("PA1"), &[], true, None),
            // the author who is listed among the co-signers counts as author only
            amendement("A6", Some("2023-07-04"), Some("PA1"), &["PA1"], false, None),
        ],
        vec![],
    );
    let rolling = compute_depute_stats(0, &data, &period("2023-06-01", "2023-12-01", false));
    assert_eq!((rolling.amd_authored, rolling.amd_adopted, rolling.amd_cosigned), (3, 1, 1));
    assert_eq!(rolling.amd_adoption(), Some(Ratio { numerator: 1, denominator: 3 }));
    let term = compute_depute_stats(0, &data, &period("2023-06-01", "2023-12-01", true));
    assert_eq!((term.amd_authored, term.amd_adopted, term.amd_cosigned), (4, 2, 1));
}

#[test]
fn dossier_score_counts_amendments_double_and_breaks_ties_by_id() {
    let scrutins = vec![
        scrutin("S1", Some("2023-07-01"), Some("DB"), &[("PA1", VotePosition::Pour)]),
        scrutin("S2", Some("2023-07-02"), Some("DB"), &[("PA1", VotePosition::Contre)]),
        scrutin("S3", Some("2023-07-03"), Some("DC"), &[("PA1", VotePosition::NonVotant)]),
        scrutin("S4", Some("2023-07-03"), Some("DD"), &[("PA1", VotePosition::Abstention)]),
    ];
    let amendements = vec![
        amendement("A1", Some("2023-07-01"), Some("PA1"), &[], false, Some("DA")),
        amendement("A2", Some("2023-07-01"), Some("PA1"), &[], false, Some("DD")),
        amendement("A3", Some("2023-07-01"), Some("PA2"), &["PA1"], false, Some("DE")),
    ];
    let dossiers = vec![dossier("DA", "Loi A"), dossier("DB", "")];
    let top = top_dossiers(
        &"PA1".to_string(),
        &scrutins,
        &amendements,
        &dossiers,
        &vec![window("2023-06-01", "2023-12-01")],
        false,
    );
    let seen: Vec<(String, String, u32, u32, u32)> = top
        .iter()
        .map(|d| (d.dossier_id.clone(), d.titre.clone(), d.votes, d.amendements, d.score))
        .collect();
    assert_eq!(
        seen,
        vec![
            ("DD".to_string(), "DD".to_string(), 1, 1, 3),
            ("DA".to_string(), "Loi A".to_string(), 0, 1, 2),
            ("DB".to_string(), "DB".to_string(), 2, 0, 2),
        ]
    );
}

#[test]
fn dossier_ranking_keeps_ten() {
    let ids: Vec<String> = (0..12).map(|i| format!("D{:02}", i)).collect();
    let scrutins: Vec<Scrutin> = ids
        .iter()
        .map(|d| scrutin("S", Some("2023-07-01"), Some(d), &[("PA1", VotePosition::Pour)]))
        .collect();
    let top = top_dossiers(
        &"PA1".to_string(),
        &scrutins,
        &vec![],
        &vec![],
        &vec![window("2023-06-01", "2023-12-01")],
        false,
    );
    let seen: Vec<String> = top.iter().map(|d| d.dossier_id.clone()).collect();
    assert_eq!(seen, ids[..10].to_vec());
}

#[test]
fn cosigning_is_counted_for_each_pair() {
    let deputes = vec![depute("A", Some("G1")), depute("B", Some("G1")), depute("C", Some("G2"))];
    let amendements = vec![amendement("A1", Some("2023-07-01"), Some("A"), &["B", "C"], false, None)];
    let p = period("2023-06-01", "2023-12-01", false);
    assert_eq!(cosign_row(0, &deputes, &amendements, &p), vec![0, 1, 1]);
    assert_eq!(cosign_row(1, &deputes, &amendements, &p), vec![1, 0, 1]);
    assert_eq!(cosign_row(2, &deputes, &amendements, &p), vec![1, 1, 0]);
    for i in 0..3 {
        let e = cosign_entry(i, &deputes, &amendements, &p).unwrap();
        assert_eq!(e.network.unique_cosignataires, 2);
        assert_eq!(e.network.total_cosignatures, 2);
        assert_eq!(
            e.network.in_group_count + e.network.out_group_count,
            e.network.total_cosignatures
        );
    }
    let a = cosign_entry(0, &deputes, &amendements, &p).unwrap();
    assert_eq!(a.network.in_group_count, 1);
    assert_eq!(a.network.out_group_count, 1);
    assert_eq!(a.network.in_group.len(), 1);
    assert_eq!(a.network.in_group[0].deputy_id, "B");
    assert_eq!(a.network.out_group_groups.len(), 1);
    assert_eq!(a.network.out_group_groups[0].groupe_abrev, Some("G2".to_string()));
    assert_eq!(a.network.out_group_groups[0].count_total, 1);
    assert_eq!(a.network.out_group_groups[0].members[0].deputy_id, "C");
    let top: Vec<(String, u32)> =
        a.top.iter().map(|t| (t.deputy_id.clone(), t.co_signed_count)).collect();
    assert_eq!(top, vec![("B".to_string(), 1), ("C".to_string(), 1)]);
}

#[test]
fn cosign_counts_are_symmetric_and_ranked() {
    let deputes = vec![
        depute("A", Some("G1")),
        depute("B", Some("G2")),
        depute("C", Some("G2")),
        depute("D", None),
        depute("E", None),
    ];
    let amendements = vec![
        amendement("A1", Some("2023-07-01"), Some("A"), &["B", "C", "C"], false, None),
        amendement("A2", Some("2023-07-02"), Some("C"), &["A", "zz"], false, None),
        amendement("A3", None, Some("A"), &["D"], false, None),
        amendement("A4", Some("2021-07-02"), Some("A"), &["B"], false, None),
        amendement("A5", Some("2023-07-02"), Some("A"), &["A"], false, None),
    ];
    let p = period("2023-06-01", "2023-12-01", false);
    let rows: Vec<Vec<u32>> = (0..5).map(|i| cosign_row(i, &deputes, &amendements, &p)).collect();
    for i in 0..5 {
        for j in 0..5 {
            assert_eq!(rows[i][j], rows[j][i]);
        }
    }
    assert_eq!(rows[0], vec![0, 1, 2, 0, 0]);
    assert!(cosign_entry(4, &deputes, &amendements, &p).is_none());
    let a = cosign_entry(0, &deputes, &amendements, &p).unwrap();
    let top: Vec<(String, u32)> =
        a.top.iter().map(|t| (t.deputy_id.clone(), t.co_signed_count)).collect();
    assert_eq!(top, vec![("C".to_string(), 2), ("B".to_string(), 1)]);
    assert_eq!(a.network.in_group_count, 0);
    assert_eq!(a.network.out_group_count, 3);
    assert_eq!(a.network.out_group_groups.len(), 1);
    assert_eq!(a.network.out_group_groups[0].count_total, 3);
    // with the undated amendments, D joins: a representative without a group is never "same group"
    let term = period("2023-06-01", "2023-12-01", true);
    let a = cosign_entry(0, &deputes, &amendements, &term).unwrap();
    assert_eq!(a.network.unique_cosignataires, 3);
    assert_eq!(a.network.out_group_groups.len(), 2);
    let d = cosign_entry(3, &deputes, &amendements, &term).unwrap();
    assert_eq!(d.network.in_group_count, 0);
    assert_eq!(d.network.out_group_count, 1);
}

#[test]
fn display_lists_are_cut_but_totals_are_not() {
    let mut deputes = vec![depute("A00", Some("G1"))];
    for i in 1..=15 {
        deputes.push(depute(&format!("A{:02}", i), Some("G1")));
    }
    for i in 1..=10 {
        deputes.push(depute(&format!("B{:02}", i), Some("G2")));
    }
    let others: Vec<String> = deputes[1..].iter().map(|d| d.id.clone()).collect();
    let refs: Vec<&str> = others.iter().map(|s| s.as_str()).collect();
    let amendements = vec![amendement("A1", Some("2023-07-01"), Some("A00"), &refs, false, None)];
    let e = cosign_entry(0, &deputes, &amendements, &period("2023-06-01", "2023-12-01", false)).unwrap();
    assert_eq!(e.top.len(), 10);
    assert_eq!(e.top[0].deputy_id, "A01");
    assert_eq!(e.network.in_group.len(), 12);
    assert_eq!(e.network.in_group_count, 15);
    assert_eq!(e.network.out_group_groups.len(), 1);
    assert_eq!(e.network.out_group_groups[0].members.len(), 8);
    assert_eq!(e.network.out_group_groups[0].count_total, 10);
    assert_eq!(e.network.total_cosignatures, 25);
    assert_eq!(e.network.unique_cosignataires, 25);
}

#[test]
fn three_periods_end_today() {
    let data = raw(
        vec![depute("PA1", None)],
        vec![
            scrutin("S1", Some("2023-11-20"), None, &[("PA1", VotePosition::Pour)]),
            scrutin("S2", Some("2023-08-01"), None, &[("PA1", VotePosition::Pour)]),
            scrutin("S3", Some("2022-08-01"), None, &[("PA1", VotePosition::Pour)]),
            scrutin("S4", Some("2022-06-18"), None, &[("PA1", VotePosition::Pour)]),
        ],
        vec![amendement("A1", None, Some("PA1"), &[], true, None)],
        vec![],
    );
    let mut d = data;
    d.deputes[0].mandat_debut = None;
    let agg = compute_all(&d, day("2023-12-01"));
    assert_eq!(agg.p30[0].scrutins_eligibles, 1);
    assert_eq!(agg.p180[0].scrutins_eligibles, 2);
    assert_eq!(agg.leg[0].scrutins_eligibles, 3);
    assert_eq!(agg.p30[0].amd_authored, 0);
    assert_eq!(agg.p180[0].amd_authored, 0);
    assert_eq!(agg.leg[0].amd_authored, 1);
    assert_eq!(agg.p30[0].period_start.days(), day("2023-11-01").days());
    assert_eq!(agg.leg[0].period_start.days(), LEG17_START_DAYS);
    assert_eq!(legislature_start().to_text(), "2022-06-19");
}

#[test]
fn record_repeats_the_identity_of_the_representative() {
    let mut d = depute("PA7", Some("GRP"));
    d.parti_nom = Some("Parti".to_string());
    d.dept_code = Some("75".to_string());
    d.dept_nom = Some("Paris".to_string());
    d.circo = Some("3".to_string());
    d.profession = Some("Avocate".to_string());
    d.sites_web = vec!["https://a.example".to_string(), "https://b.example".to_string()];
    d.sites_web_sources = vec![SiteWebSource {
        type_libelle: Some("Site internet".to_string()),
        val_elec: "a.example".to_string(),
        url: Some("https://a.example".to_string()),
    }];
    d.telephones = vec!["01 02 03 04 05".to_string()];
    let data = raw(vec![d], vec![], vec![], vec![]);
    let st = compute_depute_stats(0, &data, &period("2023-06-01", "2023-12-01", false));
    assert_eq!(st.deputy_id, "PA7");
    assert_eq!(st.nom, "NomPA7");
    assert_eq!(st.prenom, "PrenomPA7");
    assert_eq!(st.groupe_abrev.as_deref(), Some("GRP"));
    assert_eq!(st.groupe_nom.as_deref(), Some("Groupe GRP"));
    assert_eq!(st.parti_rattachement.as_deref(), Some("Parti"));
    assert_eq!(st.dept.as_deref(), Some("Paris"));
    assert_eq!(st.circo.as_deref(), Some("3"));
    assert_eq!(st.profession.as_deref(), Some("Avocate"));
    assert_eq!(st.mandat_debut.map(|x| x.days()), Some(day("2022-06-19").days()));
    assert_eq!(st.mandat_fin.map(|x| x.days()), None);
    assert_eq!(st.mandat_assemblee_episodes.len(), 1);
    assert_eq!(st.mandat_assemblee_episodes[0].date_debut.days(), day("2022-06-19").days());
    assert_eq!(st.sites_web, vec!["https://a.example", "https://b.example"]);
    assert_eq!(st.sites_web_sources.len(), 1);
    assert_eq!(st.sites_web_sources[0].val_elec, "a.example");
    assert_eq!(st.sites_web_sources[0].url.as_deref(), Some("https://a.example"));
    assert_eq!(st.telephones, vec!["01 02 03 04 05"]);
}

#[test]
fn aggregates_carry_the_registry_and_the_files() {
    let mut a = depute("PA1", Some("GRP"));
    a.dept_code = Some("75".to_string());
    a.telephones = vec!["01 02".to_string()];
    let mut file = dossier("D1", "Loi une");
    file.cosignataires_ids = vec!["PA1".to_string(), "PA2".to_string()];
    file.origin_chamber = Some("assemblee".to_string());
    let data = raw(vec![a, depute("PA2", None)], vec![], vec![], vec![file, dossier("D2", "Loi deux")]);
    let agg = compute_all(&data, day("2023-12-01"));
    assert_eq!(agg.deputes.len(), 2);
    assert_eq!(agg.deputes[0].id, "PA1");
    assert_eq!(agg.deputes[0].groupe_id.as_deref(), Some("POGRP"));
    assert_eq!(agg.deputes[0].dept_code.as_deref(), Some("75"));
    assert_eq!(agg.deputes[0].telephones, vec!["01 02"]);
    assert_eq!(agg.deputes[1].id, "PA2");
    assert_eq!(agg.deputes[1].groupe_id, None);
    assert_eq!(agg.dossiers.len(), 2);
    assert_eq!(agg.dossiers[0].id, "D1");
    assert_eq!(agg.dossiers[0].titre, "Loi une");
    assert_eq!(agg.dossiers[0].cosignataires_ids, vec!["PA1", "PA2"]);
    assert_eq!(agg.dossiers[0].origin_chamber.as_deref(), Some("assemblee"));
    assert_eq!(agg.dossiers[1].titre, "Loi deux");
    assert_eq!(agg.p30.len(), 2);
}
