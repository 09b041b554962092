use activite_deputes::site::{
    app_href, csv_escape, csv_opt, fold_accents, groupe_color, matches_search, normalize_search,
    safe_file_stem_client, ApiError, Period, SortDir, SortField,
};

#[test]
fn period_names_its_files() {
    assert_eq!(Period::P30.label(), "30 jours");
    assert_eq!(Period::P180.label(), "180 jours");
    assert_eq!(Period::LEG.label(), "Législature");
    assert_eq!(Period::P30.json_file(), "data/deputes_P30.json");
    assert_eq!(Period::P180.json_file(), "data/deputes_P180.json");
    assert_eq!(Period::LEG.json_file(), "data/deputes_LEG.json");
    assert_eq!(Period::P30.csv_file(), "exports/deputes_activity_P30.csv");
    assert_eq!(Period::P180.csv_file(), "exports/deputes_activity_P180.csv");
    assert_eq!(Period::LEG.csv_file(), "exports/deputes_activity_LEG.csv");
}

#[test]
fn sort_labels_and_toggle() {
    assert_eq!(SortField::Nom.label(), "Nom");
    assert_eq!(SortField::Groupe.label(), "Groupe");
    assert_eq!(SortField::Participation.label(), "Participation");
    assert_eq!(SortField::AmdsAuthored.label(), "Amendements");
    assert_eq!(SortField::AmdsAdopted.label(), "Adoptés");
    assert_eq!(SortField::AmdAdoptionRate.label(), "Taux adoption");
    assert_eq!(SortField::ScrutinsEligibles.label(), "Scrutins éligibles");
    assert_eq!(SortDir::Asc.toggle(), SortDir::Desc);
    assert_eq!(SortDir::Desc.toggle(), SortDir::Asc);
    assert_eq!(SortDir::Asc.toggle().toggle(), SortDir::Asc);
}

#[test]
fn colours_by_group() {
    assert_eq!(groupe_color(Some("RN")), "#3b82f6");
    assert_eq!(groupe_color(Some("EPR")), "#f59e0b");
    assert_eq!(groupe_color(Some("RE")), "#f59e0b");
    assert_eq!(groupe_color(Some("LFI")), "#ef4444");
    assert_eq!(groupe_color(Some("SOC")), "#ec4899");
    assert_eq!(groupe_color(Some("PS")), "#ec4899");
    assert_eq!(groupe_color(Some("HOR")), "#06b6d4");
    assert_eq!(groupe_color(Some("GDR")), "#dc2626");
    assert_eq!(groupe_color(Some("Dem")), "#a855f7");
    assert_eq!(groupe_color(Some("MoDem")), "#a855f7");
    assert_eq!(groupe_color(Some("LIOT")), "#84cc16");
    assert_eq!(groupe_color(Some("UDR")), "#f97316");
    assert_eq!(groupe_color(Some("rn")), "#6b7280");
    assert_eq!(groupe_color(None), "#6b7280");
}

#[test]
fn search_ignores_case_and_accents() {
    assert_eq!(normalize_search("Éléonore CAROIT-Çà"), "eleonore caroit-ca");
    assert!(matches_search("Éléonore Caroit", "eleo"));
    assert!(matches_search("Éléonore Caroit", "CAROÎT"));
    assert!(matches_search("Éléonore Caroit", ""));
    assert!(!matches_search("Éléonore Caroit", "dupont"));
    assert!(!matches_search("", "a"));
}

#[test]
fn links_stay_under_the_base_path() {
    assert_eq!(app_href("", "/"), "/");
    assert_eq!(app_href(" / ", "/"), "/");
    assert_eq!(app_href("", "/activite-deputes"), "/activite-deputes/");
    assert_eq!(app_href("/depute/PA1", "/"), "/depute/PA1");
    assert_eq!(app_href("//depute/PA1", "/activite-deputes"), "/activite-deputes/depute/PA1");
    assert_eq!(app_href("exporter", "/activite-deputes"), "/activite-deputes/exporter");
    assert_eq!(app_href("https://exemple.fr/a", "/x"), "https://exemple.fr/a");
    assert_eq!(app_href("http://exemple.fr/a", "/x"), "http://exemple.fr/a");
    assert_eq!(app_href(" mailto:a@b.fr", "/x"), "mailto:a@b.fr");
    assert_eq!(app_href("tel:0140", "/x"), "tel:0140");
}

#[test]
fn csv_fields_are_quoted_when_needed() {
    assert_eq!(csv_escape("simple"), "simple");
    assert_eq!(csv_escape("a,b"), "\"a,b\"");
    assert_eq!(csv_escape("dit \"oui\""), "\"dit \"\"oui\"\"\"");
    assert_eq!(csv_escape("deux\nlignes"), "\"deux\nlignes\"");
    assert_eq!(csv_opt(&None), "");
    assert_eq!(csv_opt(&Some("a,b".to_string())), "\"a,b\"");
}

#[test]
fn file_stem_of_an_id() {
    assert_eq!(safe_file_stem_client("PA1234"), "pa1234");
    assert_eq!(safe_file_stem_client(" PA 12/34é "), "pa-12-34");
    assert_eq!(safe_file_stem_client("---"), "");
    assert_eq!(safe_file_stem_client(""), "");
}

#[test]
fn api_errors_as_messages() {
    assert_eq!(ApiError::NetworkError("coupé".into()).message(), "Erreur réseau: coupé");
    assert_eq!(ApiError::NotFound("status.json".into()).message(), "Non trouvé: status.json");
    assert_eq!(ApiError::ServerError(503, "HTTP error".into()).message(), "Erreur serveur 503: HTTP error");
    assert_eq!(ApiError::ServerError(0, "x".into()).message(), "Erreur serveur 0: x");
    assert_eq!(ApiError::ParseError("eof".into()).message(), "Erreur parsing JSON: eof");
    assert_eq!(ApiError::Other("?".into()).message(), "Erreur: ?");
}

#[test]
fn accents_of_lower_case_letters_are_removed() {
    assert_eq!(fold_accents("élève à noël, où ça ?"), "eleve a noel, ou ca ?");
    assert_eq!(fold_accents("âäèêëîïôöùûü"), "aaeeeiioouuu");
    assert_eq!(fold_accents("É ñ abc"), "É ñ abc");
    assert_eq!(fold_accents(""), "");
}
