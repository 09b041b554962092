use activite_deputes::group_ppl_v1::{
    count_authored_vs_cosigned_only, is_member_bill_label, is_ppl_label, is_proposition_de_loi,
    normalize_actor_id,
    normalize_whitespace, safe_file_stem, saturating_u16, signer_key, text_pair_not_after,
    write_group_ppl_json,
};
use activite_deputes::id_audit::{
    build_deputy_id_audit_report, episode_label_from, format_mandat_episode_labels,
};
use activite_deputes::models::{Depute, Dossier, MandatAssembleeEpisode};
use activite_deputes::parser::parse_date;

fn depute(id: &str, prenom: &str, nom: &str, group: Option<(&str, &str, &str)>) -> Depute {
    Depute {
        id: id.into(),
        nom: nom.into(),
        prenom: prenom.into(),
        date_naissance: None,
        sexe: None,
        pays_naissance: None,
        profession: None,
        dept_code: None,
        dept_nom: None,
        circo: None,
        mandat_debut: None,
        mandat_fin: None,
        mandat_debut_legislature: None,
        mandat_assemblee_episodes: vec![],
        groupe_id: group.map(|g| g.0.into()),
        groupe_abrev: group.map(|g| g.1.into()),
        groupe_nom: group.map(|g| g.2.into()),
        parti_id: None,
        parti_nom: None,
        email_assemblee: None,
        site_web: None,
        sites_web: vec![],
        sites_web_sources: vec![],
        telephones: vec![],
        uri_hatvp: None,
    }
}

fn bill(id: &str, titre: &str, date: Option<&str>, author: Option<&str>, cosigners: &[&str], origin: Option<&str>) -> Dossier {
    Dossier {
        id: id.into(),
        titre: titre.into(),
        date_depot: date.map(|d| parse_date(d).unwrap()),
        statut: None,
        legislature: Some("17".into()),
        nature: None,
        numero: Some("1234".into()),
        auteur_id: author.map(|a| a.into()),
        cosignataires_ids: cosigners.iter().map(|c| c.to_string()).collect(),
        source_url: None,
        origin_chamber: origin.map(|o| o.into()),
        initiateur_organe_ref: None,
    }
}

#[test]
fn detects_ppl_labels() {
    let d = Dossier {
        id: "D1".into(),
        titre: "Proposition de loi visant à ...".into(),
        date_depot: None,
        statut: None,
        legislature: Some("17".into()),
        nature: None,
        numero: Some("1234".into()),
        auteur_id: Some("PA1".into()),
        cosignataires_ids: vec!["PA2".into()],
        source_url: None,
        origin_chamber: Some("assemblee".into()),
        initiateur_organe_ref: None,
    };
    assert!(is_proposition_de_loi(&d));
}

#[test]
fn ppl_labels_leave_resolutions_out() {
    assert!(is_ppl_label("  PROPOSITION DE LOI organique "));
    assert!(!is_ppl_label("Proposition de résolution"));
    assert!(!is_ppl_label("Projet de loi"));
    let mut d = bill("D1", "Projet de loi", None, None, &[], None);
    assert!(!is_proposition_de_loi(&d));
    d.nature = Some("Proposition de loi".into());
    assert!(is_proposition_de_loi(&d));
    d.nature = None;
    d.statut = Some("proposition de loi constitutionnelle".into());
    assert!(is_proposition_de_loi(&d));
}

#[test]
fn writes_minimal_shards() {
    let deputes = vec![
        depute("PA1", "Alice", "Dupont", Some(("POGRP1", "GRP1", "Groupe 1"))),
        depute("PA2", "Bob", "Martin", Some(("POGRP1", "GRP1", "Groupe 1"))),
    ];
    let dossiers = vec![bill(
        "D1",
        "Proposition de loi test",
        Some("2026-02-24"),
        Some("PA1"),
        &["PA2"],
        Some("assemblee"),
    )];
    let out = write_group_ppl_json(&deputes, &dossiers, "2026-02-24T04:00:00Z");
    assert_eq!(out.index.groups.len(), 1);
    assert_eq!(out.index.groups[0].file, "groups/pogrp1.json");
    assert!(out.deputy_shards.iter().any(|f| f.stem == "pa1"));
}

#[test]
fn minimal_shards_in_full() {
    let deputes = vec![
        depute("PA1", "Alice", "Dupont", Some(("POGRP1", "GRP1", "Groupe 1"))),
        depute("PA2", "Bob", "Martin", Some(("POGRP1", "GRP1", "Groupe 1"))),
    ];
    let dossiers = vec![bill(
        "D1",
        "Proposition de loi   test",
        Some("2026-02-24"),
        Some("PA1"),
        &["PA2"],
        Some("assemblee"),
    )];
    let out = write_group_ppl_json(&deputes, &dossiers, "2026-02-24T04:00:00Z");
    assert_eq!(out.index.version, 1);
    assert_eq!(out.index.generated_at, "2026-02-24T04:00:00Z");
    assert_eq!(out.index.total_groups, 1);
    assert_eq!(out.index.total_ppl_links, 1);
    assert_eq!(out.index.total_unique_ppl, 1);
    let entry = &out.index.groups[0];
    assert_eq!(entry.group_id, "POGRP1");
    assert_eq!(entry.group_label, "GRP1");
    assert_eq!((entry.ppl_count, entry.authored_ppl_count, entry.cosigned_only_ppl_count), (1, 1, 0));
    let shard = &out.group_shards[0];
    assert_eq!(shard.total_entries, 1);
    let item = &shard.items[0];
    assert_eq!(item.ppl_id, "D1");
    assert_eq!(item.title, "Proposition de loi test");
    assert_eq!(item.legislature, Some(17));
    assert_eq!(item.deposit_date, Some("2026-02-24".to_string()));
    assert_eq!((item.author_count, item.cosigner_count, item.total_signers_from_group), (1, 1, 2));
    assert!(item.has_author);
    assert_eq!(item.signer_names_preview, vec!["Alice Dupont".to_string(), "Bob Martin".to_string()]);
    assert_eq!(item.signers_preview[1].deputy_id, Some("PA2".to_string()));
    assert_eq!(out.deputy_shards.len(), 2);
    let alice = &out.deputy_shards[0];
    assert_eq!(alice.stem, "pa1");
    assert_eq!(alice.shard.deputy_name, "Alice Dupont");
    assert_eq!(alice.shard.group_id, Some("POGRP1".to_string()));
    assert_eq!((alice.shard.authored_count, alice.shard.cosigned_only_count), (1, 0));
    assert!(alice.shard.items[0].is_author && !alice.shard.items[0].is_cosigner);
    let bob = &out.deputy_shards[1];
    assert_eq!((bob.shard.authored_count, bob.shard.cosigned_only_count), (0, 1));
    assert!(out.unresolved_samples.is_empty());
    assert_eq!(out.debug_summary.ppl_detected, 1);
    assert_eq!(out.debug_summary.signers_resolved_to_group, 2);
}

#[test]
fn senate_bills_are_left_out_everywhere() {
    let deputes = vec![depute("PA1", "Alice", "Dupont", Some(("POGRP1", "GRP1", "Groupe 1")))];
    let dossiers = vec![
        bill("DS", "Proposition de loi du sénat", Some("2026-01-01"), Some("PAX"), &["PA1"], Some("senat")),
        bill("DA", "Proposition de loi", Some("2026-01-02"), Some("PA1"), &[], Some("assemblee")),
        bill("DP", "Projet de loi", Some("2026-01-03"), Some("PA1"), &[], Some("assemblee")),
        bill("DN", "Proposition de loi sans signataire", Some("2026-01-03"), None, &[], None),
    ];
    let out = write_group_ppl_json(&deputes, &dossiers, "now");
    for shard in &out.group_shards {
        for item in &shard.items {
            assert_eq!(item.ppl_id, "DA");
        }
    }
    for f in &out.deputy_shards {
        for item in &f.shard.items {
            assert_eq!(item.ppl_id, "DA");
        }
    }
    assert!(out.unresolved_samples.is_empty());
    assert_eq!(out.group_shards.len(), 1);
    let s = &out.debug_summary;
    assert_eq!(s.dossiers_total, 4);
    assert_eq!(s.ppl_detected, 3);
    assert_eq!((s.ppl_origin_assemblee, s.ppl_origin_senat, s.ppl_origin_unknown), (1, 1, 1));
    assert_eq!(s.ppl_skipped_non_assemblee, 1);
    assert_eq!(s.ppl_with_signers, 1);
    assert_eq!(s.unique_ppl_retained, 1);
}

#[test]
fn unresolved_signers_go_to_the_unknown_bucket() {
    let deputes = vec![
        depute("PA1", "Alice", "Dupont", Some(("POGRP1", "GRP1", "Groupe 1"))),
        depute("PA2", "Bob", "Martin", None),
    ];
    let dossiers = vec![
        bill("D1", "Proposition de loi un", Some("2026-01-02"), Some(" pa9 "), &["pa1", "PA2", "PA1 ", "pa9"], None),
        bill("D2", "Proposition de loi deux", None, Some("PA2"), &["PA8"], Some("assemblee")),
    ];
    let out = write_group_ppl_json(&deputes, &dossiers, "now");
    let ids: Vec<&str> = out.group_shards.iter().map(|s| s.group_id.as_str()).collect();
    assert_eq!(ids, vec!["POGRP1", "UNKNOWN"]);
    let unknown = &out.group_shards[1];
    assert_eq!(unknown.group_label, "Inconnu");
    assert_eq!(out.index.groups[1].group_id, "UNKNOWN");
    assert_eq!(out.index.groups[1].file, "groups/unknown.json");
    let seen: Vec<(String, u16, u16, u16, bool)> = unknown
        .items
        .iter()
        .map(|i| (i.ppl_id.clone(), i.author_count, i.cosigner_count, i.total_signers_from_group, i.has_author))
        .collect();
    // dated bills first; the undated one last
    assert_eq!(
        seen,
        vec![("D1".to_string(), 1, 1, 2, true), ("D2".to_string(), 1, 1, 2, true)]
    );
    assert_eq!(unknown.items[0].signer_names_preview, vec!["Bob Martin".to_string()]);
    let grp = &out.group_shards[0];
    assert_eq!(grp.items.len(), 1);
    assert_eq!((grp.items[0].author_count, grp.items[0].cosigner_count), (0, 1));
    assert!(!grp.items[0].has_author);
    let samples: Vec<(String, String, String, String)> = out
        .unresolved_samples
        .iter()
        .map(|s| (s.dossier_id.clone(), s.signer_role.clone(), s.signer_id.clone(), s.cause.clone()))
        .collect();
    assert_eq!(
        samples,
        vec![
            ("D1".to_string(), "author".to_string(), "pa9".to_string(), "deputy_not_found".to_string()),
            ("D1".to_string(), "cosigner".to_string(), "PA2".to_string(), "deputy_without_group".to_string()),
            ("D2".to_string(), "author".to_string(), "PA2".to_string(), "deputy_without_group".to_string()),
            ("D2".to_string(), "cosigner".to_string(), "PA8".to_string(), "deputy_not_found".to_string()),
        ]
    );
    let s = &out.debug_summary;
    assert_eq!(s.total_author_signers_seen, 2);
    assert_eq!(s.total_cosigners_seen, 3);
    assert_eq!(s.signers_resolved_to_group, 1);
    assert_eq!(s.signers_unresolved_deputy_not_found, 2);
    assert_eq!(s.signers_unresolved_deputy_without_group, 2);
    assert_eq!(s.unknown_bucket_signers_seen, 4);
    assert_eq!(s.unknown_bucket_ppl_entries, 2);
    assert_eq!(s.unknown_bucket_authored_entries, 2);
    assert_eq!(s.deputes_with_group, 1);
    assert_eq!(s.deputes_without_group, 1);
    let by_leg: Vec<(String, usize)> =
        s.unresolved_by_legislature.iter().map(|c| (c.legislature.clone(), c.count)).collect();
    assert_eq!(by_leg, vec![("17".to_string(), 4)]);
    let stems: Vec<&str> = out.deputy_shards.iter().map(|f| f.stem.as_str()).collect();
    assert_eq!(stems, vec!["pa1", "pa2"]);
    assert_eq!(out.index.total_ppl_links, 3);
}

#[test]
fn sample_of_unresolved_signers_is_capped() {
    let cosigners: Vec<String> = (0..250).map(|i| format!("PX{i}")).collect();
    let refs: Vec<&str> = cosigners.iter().map(|s| s.as_str()).collect();
    let dossiers = vec![bill("D1", "Proposition de loi", None, None, &refs, None)];
    let out = write_group_ppl_json(&vec![], &dossiers, "now");
    assert_eq!(out.unresolved_samples.len(), 200);
    assert_eq!(out.unresolved_samples[199].signer_id, "PX199");
    assert_eq!(out.debug_summary.signers_unresolved_deputy_not_found, 250);
    assert_eq!(out.group_shards[0].items[0].cosigner_count, 250);
    assert!(out.group_shards[0].items[0].signer_names_preview.is_empty());
}

#[test]
fn preview_shows_six_names() {
    let deputes: Vec<Depute> = (0..8)
        .map(|i| depute(&format!("PA{i}"), "P", &format!("N{i}"), Some(("G", "G", "G"))))
        .collect();
    let ids: Vec<String> = (1..8).map(|i| format!("PA{i}")).collect();
    let refs: Vec<&str> = ids.iter().map(|s| s.as_str()).collect();
    let dossiers = vec![bill("D1", "Proposition de loi", None, Some("PA0"), &refs, None)];
    let out = write_group_ppl_json(&deputes, &dossiers, "now");
    let item = &out.group_shards[0].items[0];
    assert_eq!(item.signers_preview.len(), 6);
    assert_eq!(item.signer_names_preview[0], "P N0");
    assert_eq!(item.signer_names_preview[5], "P N5");
    assert_eq!(item.total_signers_from_group, 8);
}

#[test]
fn small_normalisations() {
    assert_eq!(normalize_whitespace("  a \t b\n c "), "a b c");
    assert_eq!(normalize_actor_id(" pa123é "), "PA123é");
    assert_eq!(signer_key(" pa1 "), "id:PA1");
    assert_eq!(saturating_u16(12), 12);
    assert_eq!(saturating_u16(65_535), 65_535);
    assert_eq!(saturating_u16(65_536), 65_535);
    assert_eq!(safe_file_stem("PO 845/Aé--b"), "po-845-a-b");
    assert_eq!(safe_file_stem("--"), "group");
    assert_eq!(safe_file_stem(""), "group");
    assert_eq!(count_authored_vs_cosigned_only(&vec![]), (0, 0));
}

#[test]
fn audit_flags_repeated_ids_and_shared_names() {
    let mut deputes = vec![
        depute("PA1", "Alice", "Dupont", Some(("G", "GA", "Groupe A"))),
        depute("pa1", "Alice", "Dupont", None),
        depute("PA3", "alice ", " DUPONT", None),
        depute("PA2", "Bob", "Martin", None),
    ];
    deputes[3].groupe_nom = Some("Nom seul".into());
    deputes[0].mandat_assemblee_episodes = vec![
        MandatAssembleeEpisode { date_debut: parse_date("2022-06-19").unwrap(), date_fin: parse_date("2023-01-01") },
        MandatAssembleeEpisode { date_debut: parse_date("2023-03-01").unwrap(), date_fin: None },
    ];
    assert_eq!(
        format_mandat_episode_labels(&deputes[0]),
        vec![
            "Mandat AN épisode 1: 2022-06-19 → 2023-01-01".to_string(),
            "Mandat AN épisode 2: 2023-03-01 → en cours".to_string(),
        ]
    );
    let report = build_deputy_id_audit_report(&deputes, "now");
    assert_eq!(report.summary.deputes_total, 4);
    assert_eq!(report.summary.unique_pa_ids, 3);
    assert_eq!(report.summary.duplicate_pa_id_entries, 1);
    assert_eq!(report.duplicate_pa_ids, vec!["PA1".to_string()]);
    assert_eq!(report.summary.names_with_multiple_pa_ids, 1);
    let e = &report.names_with_multiple_pa_ids[0];
    assert_eq!(e.normalized_name, "alice dupont");
    assert_eq!(e.pa_ids, vec!["PA1".to_string(), "PA3".to_string()]);
    assert_eq!(e.display_names, vec!["Alice Dupont".to_string(), "alice DUPONT".to_string()]);
    let listed: Vec<(String, String, Option<String>, usize)> = report
        .deputies
        .iter()
        .map(|d| (d.deputy_id.clone(), d.full_name.clone(), d.group_label.clone(), d.mandat_assemblee_episode_count))
        .collect();
    assert_eq!(
        listed,
        vec![
            ("PA1".to_string(), "Alice Dupont".to_string(), Some("GA".to_string()), 2),
            ("PA3".to_string(), "alice DUPONT".to_string(), None, 0),
            ("pa1".to_string(), "Alice Dupont".to_string(), None, 0),
            ("PA2".to_string(), "Bob Martin".to_string(), Some("Nom seul".to_string()), 0),
        ]
    );
}

#[test]
fn member_bill_labels_in_lower_case() {
    assert!(is_member_bill_label("proposition de loi"));
    assert!(is_member_bill_label("proposition de loi organique relative aux communes"));
    assert!(!is_member_bill_label("proposition de résolution"));
    assert!(!is_member_bill_label("projet de loi"));
    assert!(!is_member_bill_label("Proposition de loi"));
    assert!(!is_member_bill_label(" proposition de loi"));
    assert!(!is_member_bill_label(""));
}

#[test]
fn pairs_of_texts_are_ordered_by_the_first_then_the_second() {
    assert!(text_pair_not_after("alice", "PA2", "bob", "PA1"));
    assert!(!text_pair_not_after("bob", "PA1", "alice", "PA2"));
    assert!(text_pair_not_after("alice", "PA1", "alice", "PA2"));
    assert!(!text_pair_not_after("alice", "PA2", "alice", "PA1"));
    assert!(text_pair_not_after("alice", "PA1", "alice", "PA1"));
    assert!(text_pair_not_after("", "", "a", ""));
}

#[test]
fn episode_label_from_the_texts_of_its_days() {
    assert_eq!(
        episode_label_from(1, "2022-06-22", &Some("2024-06-09".to_string())),
        "Mandat AN épisode 1: 2022-06-22 → 2024-06-09"
    );
    assert_eq!(episode_label_from(12, "2024-07-18", &None), "Mandat AN épisode 12: 2024-07-18 → en cours");
}
