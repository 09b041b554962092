use activite_deputes::dates::Date;
use activite_deputes::json::{one_or_many, parse_json, Json};
use activite_deputes::models::{Organe, VotePosition};
use activite_deputes::parser::documents::{
    amendements_of_document, dossiers_of_documents, parse_all, parse_deputes,
    parse_deputes_aggregated, parse_deputes_multifile, scrutins_of_document, DumpFiles, ParseError,
    SourceFile,
};
use activite_deputes::parser::mandates::is_mandat_parlementaire_assemblee;
use activite_deputes::parser::parse_date;
use activite_deputes::parser::records::{
    collect_actor_refs_from_value, detect_dossier_origin, first_organe_ref_uid,
    outcome_is_adoption, parse_amendement,
    parse_depute, parse_dossier, parse_dossier_signers, parse_organe, parse_scrutin,
};

fn json(text: &str) -> Json {
    parse_json(text).expect("valid JSON")
}

fn file(name: &str, content: &str) -> SourceFile {
    SourceFile { name: name.to_string(), content: Some(content.to_string()) }
}

#[test]
fn parse_amendement_extracts_fields() {
    let v = json(
        r#"{
            "uid": "AMANR5L17PO123456-1",
            "identificatif": { "numero": "42" },
            "signataires": {
                "auteur": { "acteurRef": "PA1234", "typeAuteur": "Député" },
                "cosignataires": { "acteurRef": ["PA5678", "PA9999"] }
            },
            "cycleDeVie": { "sort": "Adopté", "dateDepot": "2024-01-15", "dateSort": "2024-01-20" },
            "dossierRef": "DLR5L17N12345",
            "pointeurFragmentTexte": {
                "division": { "titre": "Art. 3" },
                "texteLegislatifRef": "PRJLANR5L17B12345",
                "missionVisee": { "libelleMission": "Travail", "missionRef": "MIS-REF-001" }
            },
            "exposeSommaire": "<p>Cet amendement <b>vise</b> à clarifier.</p>"
        }"#,
    );
    let result = parse_amendement(&v).expect("should parse");
    assert_eq!(result.id, "AMANR5L17PO123456-1");
    assert_eq!(result.numero, Some("42".to_string()));
    assert_eq!(result.auteur_id, Some("PA1234".to_string()));
    assert_eq!(result.auteur_type, Some("Député".to_string()));
    assert_eq!(result.cosignataires_ids, vec!["PA5678".to_string(), "PA9999".to_string()]);
    assert!(result.adopte);
    assert_eq!(result.date_depot, Some(Date::from_days(738_900).unwrap()));
    assert_eq!(result.date_sort, Some(Date::from_days(738_905).unwrap()));
    assert_eq!(result.article, Some("Art. 3".to_string()));
    assert_eq!(result.mission_visee, Some("Travail".to_string()));
    assert_eq!(result.mission_ref, Some("MIS-REF-001".to_string()));
    // Expose should be HTML-stripped
    assert_eq!(result.expose_sommaire, Some("Cet amendement vise à clarifier.".to_string()));
}

#[test]
fn parse_amendement_missing_optional_fields() {
    let v = json(r#"{ "uid": "AMD-MINIMAL" }"#);
    let result = parse_amendement(&v).expect("should parse minimal");
    assert_eq!(result.id, "AMD-MINIMAL");
    assert_eq!(result.auteur_id, None);
    assert_eq!(result.cosignataires_ids, Vec::<String>::new());
    assert_eq!(result.expose_sommaire, None);
    assert!(!result.adopte);
}

#[test]
fn parse_amendement_expose_from_contenu_auteur() {
    let v = json(
        r#"{ "uid": "AMD-NESTED-EXPOSE",
             "corps": { "contenuAuteur": { "exposeSommaire": "<p>Texte sous contenuAuteur.</p>" } } }"#,
    );
    let result = parse_amendement(&v).expect("should parse nested expose");
    assert_eq!(result.expose_sommaire, Some("Texte sous contenuAuteur.".to_string()));
}

#[test]
fn amendement_date_and_cosigner_fallbacks() {
    let v = json(
        r#"{ "uid": "A1",
             "signataires": {
                "signataire": { "acteurRef": "PA1", "typeAuteur": "Groupe" },
                "cosignataires": { "cosignataire": [ {"acteurRef": "PB"}, {"acteurRef": "PA"}, {"acteurRef": "PB"}, {"x": 1} ] } },
             "cycleDeVie": { "etatDesTraitements": { "etat": { "code": "29" } },
                              "dateExamen": "pas une date", "zFin": "2024-03-02T10:00:00", "aDebut": "01/03/2024" },
             "pointeurFragmentTexte": { "texteLegislatifRef": "TXT" } }"#,
    );
    let a = parse_amendement(&v).unwrap();
    assert_eq!(a.auteur_id, Some("PA1".to_string()));
    assert_eq!(a.auteur_type, Some("Groupe".to_string()));
    assert_eq!(a.cosignataires_ids, vec!["PA".to_string(), "PB".to_string()]);
    assert_eq!(a.sort, Some("29".to_string()));
    assert!(a.adopte);
    assert_eq!(a.date_depot, None);
    // any date of the life cycle, in the order of the members
    assert_eq!(a.date, Some(Date::from_days(738_946).unwrap()));
    assert_eq!(a.dossier_ref, Some("TXT".to_string()));
    assert!(parse_amendement(&json(r#"{ "uid": 12 }"#)).is_none());
    let single = json(r#"{ "uid": "A2", "signataires": { "cosignataires": { "acteurRef": " PA7 " } },
                           "cycleDeVie": { "sort": { "value": "Rejeté" }, "dateCirculation": "2024-02-01" } }"#);
    let a = parse_amendement(&single).unwrap();
    assert_eq!(a.cosignataires_ids, vec!["PA7".to_string()]);
    assert!(!a.adopte);
    assert_eq!(a.date, Some(Date::from_days(738_917).unwrap()));
}

#[test]
fn one_or_many_takes_an_object_as_one_item() {
    assert_eq!(one_or_many(&json(r#"[1, {"a": 1}, "x"]"#)).len(), 3);
    assert_eq!(one_or_many(&json(r#"{"a": 1}"#)).len(), 1);
    assert_eq!(one_or_many(&json(r#""x""#)).len(), 0);
    assert_eq!(one_or_many(&json("null")).len(), 0);
    assert!(parse_json("{ not json").is_none());
}

#[test]
fn organe_needs_id_and_type() {
    let o = parse_organe(&json(
        r##"{ "uid": {"#text": "PO1"}, "codeType": "GP", "libelle": "Groupe Un", "libelleAbrev": "G1" }"##,
    ))
    .unwrap();
    assert_eq!((o.id.as_str(), o.code_type.as_str(), o.libelle.as_str()), ("PO1", "GP", "Groupe Un"));
    assert_eq!(o.abrev, Some("G1".to_string()));
    assert_eq!(o.couleur, None);
    let o = parse_organe(&json(r#"{ "uid": "PO2", "codeType": "PARPOL" }"#)).unwrap();
    assert_eq!(o.libelle, "");
    assert!(parse_organe(&json(r#"{ "uid": "PO2" }"#)).is_none());
    assert!(parse_organe(&json(r#"{ "codeType": "GP" }"#)).is_none());
}

#[test]
fn scrutin_records_the_first_position_of_each_voter() {
    let v = json(
        r#"{ "uid": "VTANR5L17V1", "numero": "12", "objet": { "libelle": "Titre", "dossierLegislatif": "D1" },
             "dateScrutin": "2024-02-01", "sort": { "code": "adopté" },
             "ventilationVotes": { "organe": { "groupes": { "groupe": [
                { "vote": { "decompteNominatif": {
                    "pours": { "votant": [ { "acteurRef": "PA1" }, { "acteurRef": "PA2" } ] },
                    "contres": { "votant": { "acteurRef": "PA1" } },
                    "abstentions": null,
                    "nonVotants": { "votants": { "votant": { "acteur": { "uid": "PA3" } } } } } } },
                { "votes": { "abstention": { "votant": { "uid": "PA4" } }, "contre": { "votant": { "acteur": { "acteurRef": "PA5" } } } } },
                { "vote": "rien" }
             ] } } } }"#,
    );
    let s = parse_scrutin(&v).unwrap();
    assert_eq!(s.id, "VTANR5L17V1");
    assert_eq!(s.numero, 12);
    assert_eq!(s.titre, "Titre");
    assert_eq!(s.date, Some(Date::from_days(738_917).unwrap()));
    assert_eq!(s.sort, Some("adopté".to_string()));
    assert_eq!(s.dossier_ref, Some("D1".to_string()));
    let votes: Vec<(String, VotePosition)> =
        s.votes.iter().map(|v| (v.deputy_id.clone(), v.position)).collect();
    assert_eq!(
        votes,
        vec![
            ("PA1".to_string(), VotePosition::Pour),
            ("PA2".to_string(), VotePosition::Pour),
            ("PA3".to_string(), VotePosition::NonVotant),
            ("PA5".to_string(), VotePosition::Contre),
            ("PA4".to_string(), VotePosition::Abstention),
        ]
    );
    let s = parse_scrutin(&json(r#"{ "uid": "V2", "numero": 4294967297, "titre": "T" }"#)).unwrap();
    assert_eq!(s.numero, 1);
    assert_eq!(s.date, None);
    let s = parse_scrutin(&json(r#"{ "uid": "V3", "numero": "x" }"#)).unwrap();
    assert_eq!(s.numero, 0);
    assert!(parse_scrutin(&json(r#"{ "numero": "1" }"#)).is_none());
}

#[test]
fn documents_read_each_uid_once() {
    let root = json(
        r#"{ "scrutins": { "scrutin": [ { "uid": "A" }, { "uid": "B" }, { "titre": "sans uid" } ] },
             "scrutin": { "uid": "A", "numero": "7" } }"#,
    );
    let out = scrutins_of_document(&root);
    let ids: Vec<(String, u32)> = out.iter().map(|s| (s.id.clone(), s.numero)).collect();
    assert_eq!(ids, vec![("A".to_string(), 0), ("B".to_string(), 0)]);
    let root = json(r#"{ "amendement": [ { "uid": "X" }, { "uid": "X" }, { "uid": "Y" } ] }"#);
    let out = amendements_of_document(&root);
    let ids: Vec<String> = out.iter().map(|a| a.id.clone()).collect();
    assert_eq!(ids, vec!["X".to_string(), "Y".to_string()]);
    assert!(amendements_of_document(&json("{}")).is_empty());
}

#[test]
fn actor_references_are_found_anywhere() {
    let v = json(
        r#"{ "b": [ { "acteurRef": " PA2 " }, { "x": { "acteurRef": ["PA3", "", 4, "PA2"] } } ],
             "a": { "acteurRef": "PA1" }, "acteurRef": { "acteurRef": "no" } }"#,
    );
    let mut out = vec!["PA0".to_string()];
    collect_actor_refs_from_value(&v, &mut out);
    // members are walked in the order of their keys
    assert_eq!(out, vec!["PA0", "PA1", "PA2", "PA3", "PA2"]);
}

#[test]
fn first_body_reference() {
    assert_eq!(
        first_organe_ref_uid(&json(r#"{ "a": { "organeRef": " PO1 " }, "organeRef": "PO2" }"#)),
        Some("PO1".to_string())
    );
    assert_eq!(
        first_organe_ref_uid(&json(r#"{ "organeRef": { "uid": "PO3" } }"#)),
        Some("PO3".to_string())
    );
    assert_eq!(
        first_organe_ref_uid(&json(r#"[ 1, { "organeRef": [ 2, { "organeRef": "PO4" } ] } ]"#)),
        Some("PO4".to_string())
    );
    assert_eq!(first_organe_ref_uid(&json(r#"{ "organeRef": "  " }"#)), None);
    assert_eq!(first_organe_ref_uid(&json(r#""PO5""#)), None);
}

#[test]
fn dossier_origin_and_signers() {
    let senat = json(r#"{ "uid": "D1", "titreDossier": { "titre": "T", "senatChemin": "pjl" } }"#);
    assert_eq!(detect_dossier_origin(&senat), (Some("senat".to_string()), None));
    let by_body = json(r#"{ "initiateur": { "organes": { "organe": { "organeRef": { "uid": "PO78718" } } } } }"#);
    assert_eq!(
        detect_dossier_origin(&by_body),
        (Some("senat".to_string()), Some("PO78718".to_string()))
    );
    let an = json(r#"{ "initiateur": { "acteurs": { "acteur": [ { "acteurRef": "PA1" }, { "acteurRef": "PA2" }, { "acteurRef": "PA1" } ] } } }"#);
    assert_eq!(detect_dossier_origin(&an), (Some("assemblee".to_string()), None));
    assert_eq!(
        parse_dossier_signers(&an),
        (Some("PA1".to_string()), vec!["PA2".to_string()])
    );
    let named = json(
        r#"{ "signataires": { "auteur": { "acteurRef": " PA9 " },
             "cosignataires": { "cosignataire": [ { "acteurRef": "PA9" }, { "acteurRef": " PA8" }, { "acteurRef": "PA8" } ] } },
             "auteurs": { "acteurRef": "PA7" } }"#,
    );
    assert_eq!(
        parse_dossier_signers(&named),
        (Some("PA9".to_string()), vec!["PA8".to_string()])
    );
    let generic = json(r#"{ "signataires": { "x": [ { "acteurRef": "PA3" }, { "acteurRef": "PA4" } ] } }"#);
    assert_eq!(
        parse_dossier_signers(&generic),
        (Some("PA3".to_string()), vec!["PA4".to_string()])
    );
    assert_eq!(parse_dossier_signers(&json("{}")), (None, vec![]));
}

#[test]
fn dossier_fields_and_replacement() {
    let d = parse_dossier(&json(
        r#"{ "uid": "DLR1", "titreDossier": { "titre": "", "titreChemin": "proposition_de_loi", "dateDepot": "2024-01-05", "numero": "55" },
             "titre": "Proposition de loi X", "procedureParlementaire": { "libelle": "Proposition de loi ordinaire" },
             "legislature": "17", "liens": { "lien": { "url": "https://an.fr/d" } } }"#,
    ))
    .unwrap();
    assert_eq!(d.titre, "Proposition de loi X");
    assert_eq!(d.date_depot, Some(Date::from_days(738_890).unwrap()));
    assert_eq!(d.statut, Some("Proposition de loi ordinaire".to_string()));
    assert_eq!(d.nature, Some("proposition_de_loi".to_string()));
    assert_eq!(d.numero, Some("55".to_string()));
    assert_eq!(d.source_url, Some("https://an.fr/d".to_string()));
    assert_eq!(d.origin_chamber, Some("assemblee".to_string()));
    let roots = vec![
        json(r#"{ "dossiers": { "dossier": [ { "uid": "A", "titre": "un" }, { "uid": "B", "titre": "deux" } ] } }"#),
        json(r#"{ "dossierParlementaire": { "uid": "A", "titre": "trois" } }"#),
        json(r#"{ "uid": "C", "titre": "quatre" }"#),
        json(r#"{ "dossierParlementaire": null, "uid": "E" }"#),
        json(r#"{ "dossiers": { "dossier": { "titre": "sans uid" } }, "uid": "F" }"#),
    ];
    let out = dossiers_of_documents(&roots);
    let seen: Vec<(String, String)> = out.iter().map(|d| (d.id.clone(), d.titre.clone())).collect();
    assert_eq!(
        seen,
        vec![
            ("A".to_string(), "trois".to_string()),
            ("B".to_string(), "deux".to_string()),
            ("C".to_string(), "quatre".to_string()),
            ("F".to_string(), "".to_string()),
        ]
    );
}

fn organes() -> Vec<Organe> {
    vec![
        Organe { id: "PO1".into(), code_type: "GP".into(), libelle: "Groupe Un".into(), abrev: Some("G1".into()), couleur: None },
        Organe { id: "PO2".into(), code_type: "GP".into(), libelle: "Groupe Deux".into(), abrev: Some("G2".into()), couleur: None },
        Organe { id: "PP1".into(), code_type: "PARPOL".into(), libelle: "Parti Un".into(), abrev: None, couleur: None },
    ]
}

const ACTEUR: &str = r##"{
    "uid": { "#text": "PA1" },
    "etatCivil": { "ident": { "civ": "Mme", "nom": "Dupont", "prenom": "Alice" },
                   "infoNaissance": { "dateNais": "1980-02-03", "paysNais": { "#text": " France " } } },
    "profession": { "libelleCourant": "(35) - Professeure" },
    "uri_hatvp": "//hatvp.fr/alice",
    "adresses": { "adresse": [
        { "@xsi:type": "AdresseMail_Type", "valElec": "null" },
        { "@xsi:type": "AdresseMail_Type", "valElec": "alice@an.fr" },
        { "@xsi:type": "AdresseMail_Type", "valElec": "autre@an.fr" },
        { "@xsi:type": "AdresseTelephonique_Type", "valElec": "01  40 63" },
        { "@xsi:type": "AdresseTelephonique_Type", "valeur": "01 40 63" },
        { "@xsi:type": "AdresseSiteWeb_Type", "typeLibelle": "Twitter", "type": "24", "valElec": "twitter.com/alice" },
        { "@xsi:type": "AdresseSiteWeb_Type", "typeLibelle": "Site internet", "type": "22", "valElec": "www.alice.fr" },
        { "@xsi:type": "AdresseSiteWeb_Type", "typeLibelle": "Blog", "valElec": "https://WWW.alice.fr" },
        { "@xsi:type": "AdresseSiteWeb_Type", "typeLibelle": "Site internet", "type": "22", "valElec": "www.alice.fr" }
    ] },
    "mandats": { "mandat": [
        { "typeOrgane": "ASSEMBLEE", "dateDebut": "2017-06-21", "dateFin": "2022-06-21",
          "election": { "lieu": { "numDepartement": "75", "departement": "Paris", "numCirco": "3" } } },
        { "@xsi:type": "MandatParlementaire_type", "typeOrgane": "ASSEMBLEE", "dateDebut": "2024-07-18",
          "election": { "lieu": { "numDpt": "69", "nomDpt": "Rhône" } } },
        { "@xsi:type": "MandatParlementaire_type", "typeOrgane": "ASSEMBLEE", "dateDebut": "2022-06-22", "dateFin": "2024-06-09",
          "election": { "lieu": { "numDepartement": "13" } } },
        { "@xsi:type": "MandatParlementaire_type", "typeOrgane": "ASSEMBLEE", "dateDebut": "2022-06-22", "dateFin": "2024-06-09" },
        { "@xsi:type": "MandatParlementaire_type", "typeOrgane": "ASSEMBLEE", "dateFin": "2021-01-01" },
        { "typeOrgane": "GP", "dateDebut": "2022-06-28", "dateFin": "2024-06-09", "organes": { "organeRef": "PO1" } },
        { "typeOrgane": "GP", "dateDebut": "2024-07-19", "organes": { "organeRef": "PO2" } },
        { "typeOrgane": "GP", "dateDebut": "2025-01-01", "organes": { "organeRef": "POX" } },
        { "typeOrgane": "PARPOL", "dateDebut": "2020-01-01", "organes": { "organeRef": "PP1" } },
        { "typeOrgane": "PARPOL", "dateDebut": "2021-01-01", "organes": { "organeRef": "PP9" } }
    ] }
}"##;

#[test]
fn running_membership_is_kept_over_a_later_one_that_ended() {
    let v = json(
        r#"{ "uid": "PA1", "mandats": { "mandat": [
            { "typeOrgane": "GP", "dateDebut": "2022-06-28", "organes": { "organeRef": "PO1" } },
            { "typeOrgane": "GP", "dateDebut": "2023-01-01", "dateFin": "2023-06-01", "organes": { "organeRef": "PO2" } },
            { "typeOrgane": "PARPOL", "dateDebut": "2022-06-28", "organes": { "organeRef": "PP1" } },
            { "typeOrgane": "PARPOL", "dateDebut": "2023-01-01", "dateFin": "2023-06-01", "organes": { "organeRef": "PP9" } }
        ] } }"#,
    );
    let d = parse_depute(&v, &organes()).unwrap();
    assert_eq!(d.id, "PA1");
    assert_eq!(d.groupe_id, Some("PO1".to_string()));
    assert_eq!(d.groupe_abrev, Some("G1".to_string()));
    assert_eq!(d.groupe_nom, Some("Groupe Un".to_string()));
    assert_eq!(d.parti_id, Some("PP1".to_string()));
    assert_eq!(d.parti_nom, Some("Parti Un".to_string()));
    // the other order of the records gives the same
    let v = json(
        r#"{ "uid": "PA1", "mandats": { "mandat": [
            { "typeOrgane": "GP", "dateDebut": "2023-01-01", "dateFin": "2023-06-01", "organes": { "organeRef": "PO2" } },
            { "typeOrgane": "GP", "dateDebut": "2022-06-28", "organes": { "organeRef": "PO1" } }
        ] } }"#,
    );
    assert_eq!(parse_depute(&v, &organes()).unwrap().groupe_id, Some("PO1".to_string()));
    // among memberships that are over, the one that began last
    let v = json(
        r#"{ "uid": "PA1", "mandats": { "mandat": [
            { "typeOrgane": "GP", "dateDebut": "2023-01-01", "dateFin": "2023-06-01", "organes": { "organeRef": "PO2" } },
            { "typeOrgane": "GP", "dateDebut": "2022-06-28", "dateFin": "2022-12-31", "organes": { "organeRef": "PO1" } }
        ] } }"#,
    );
    assert_eq!(parse_depute(&v, &organes()).unwrap().groupe_id, Some("PO2".to_string()));
    // among running memberships, the one that began last
    let v = json(
        r#"{ "uid": "PA1", "mandats": { "mandat": [
            { "typeOrgane": "GP", "dateDebut": "2023-01-01", "organes": { "organeRef": "PO2" } },
            { "typeOrgane": "GP", "dateDebut": "2022-06-28", "organes": { "organeRef": "PO1" } }
        ] } }"#,
    );
    assert_eq!(parse_depute(&v, &organes()).unwrap().groupe_id, Some("PO2".to_string()));
}

#[test]
fn depute_is_read_with_mandates_and_contact() {
    let d = parse_depute(&json(ACTEUR), &organes()).unwrap();
    assert_eq!((d.id.as_str(), d.nom.as_str(), d.prenom.as_str()), ("PA1", "Dupont", "Alice"));
    assert_eq!(d.date_naissance, Some(Date::from_days(722_848).unwrap()));
    assert_eq!(d.sexe, Some("Femme".to_string()));
    assert_eq!(d.pays_naissance, Some("France".to_string()));
    assert_eq!(d.profession, Some("Professeure".to_string()));
    assert_eq!(d.uri_hatvp, Some("https://hatvp.fr/alice".to_string()));
    assert_eq!(d.email_assemblee, Some("alice@an.fr".to_string()));
    assert_eq!(d.telephones, vec!["01 40 63".to_string()]);
    assert_eq!(
        d.sites_web,
        vec!["https://www.alice.fr".to_string(), "https://twitter.com/alice".to_string()]
    );
    assert_eq!(d.site_web, Some("https://www.alice.fr".to_string()));
    let sources: Vec<(Option<String>, String)> =
        d.sites_web_sources.iter().map(|s| (s.type_libelle.clone(), s.val_elec.clone())).collect();
    assert_eq!(
        sources,
        vec![
            (Some("Site internet".to_string()), "www.alice.fr".to_string()),
            (Some("Blog".to_string()), "https://WWW.alice.fr".to_string()),
            (Some("Twitter".to_string()), "twitter.com/alice".to_string()),
        ]
    );
    // the running parliamentary mandate is chosen; what it leaves open stays from before
    assert_eq!(d.mandat_debut, Some(Date::from_days(739_085).unwrap()));
    assert_eq!(d.mandat_fin, None);
    assert_eq!(d.dept_code, Some("69".to_string()));
    assert_eq!(d.dept_nom, Some("Rhône".to_string()));
    assert_eq!(d.circo, Some("3".to_string()));
    let episodes: Vec<(i32, Option<i32>)> = d
        .mandat_assemblee_episodes
        .iter()
        .map(|e| (e.date_debut.days(), e.date_fin.map(|f| f.days())))
        .collect();
    assert_eq!(
        episodes,
        vec![
            (parse_date("2022-06-22").unwrap().days(), Some(parse_date("2024-06-09").unwrap().days())),
            (parse_date("2024-07-18").unwrap().days(), None),
        ]
    );
    assert_eq!(d.mandat_debut_legislature, Some(Date::from_days(738_328).unwrap()));
    assert_eq!(d.groupe_id, Some("PO2".to_string()));
    assert_eq!(d.groupe_abrev, Some("G2".to_string()));
    assert_eq!(d.groupe_nom, Some("Groupe Deux".to_string()));
    assert_eq!(d.parti_id, Some("PP9".to_string()));
    assert_eq!(d.parti_nom, Some("Parti Un".to_string()));
    assert!(parse_depute(&json(r#"{ "etatCivil": {} }"#), &organes()).is_none());
    assert!(is_mandat_parlementaire_assemblee(&json(
        r#"{ "@xsi:type": "MandatParlementaire_type", "typeOrgane": " Assemblée " }"#
    )));
    assert!(!is_mandat_parlementaire_assemblee(&json(r#"{ "typeOrgane": "ASSEMBLEE" }"#)));
}

#[test]
fn aggregated_dump_takes_the_document_that_holds_most() {
    let small = r#"{ "export": { "acteurs": { "acteur": { "uid": "PA9" } }, "organes": { "organe": [] } } }"#;
    let big = r#"{ "export": { "acteurs": { "acteur": [ { "uid": "PA1" }, { "uid": "PA2" }, { "uid": "PA1" } ] },
                               "organes": { "organe": [ { "uid": "PO1", "codeType": "GP", "libelle": "a" },
                                                         { "uid": "PO1", "codeType": "GP", "libelle": "b" } ] } } }"#;
    let (deputes, organes) =
        parse_deputes_aggregated(&vec![file("a.json", small), file("b.json", big), file("c.json", big)]).unwrap();
    let ids: Vec<&str> = deputes.iter().map(|d| d.id.as_str()).collect();
    assert_eq!(ids, vec!["PA1", "PA2"]);
    assert_eq!(organes.len(), 1);
    assert_eq!(organes[0].libelle, "b");
    assert_eq!(
        parse_deputes_aggregated(&vec![file("a.json", "{}")]).err(),
        Some(ParseError::NoUsableAggregate)
    );
    assert_eq!(
        parse_deputes_aggregated(&vec![file("a.json", small), file("b.json", "{")]).err(),
        Some(ParseError::InvalidJson)
    );
    assert_eq!(
        parse_deputes_aggregated(&vec![
            SourceFile { name: "a.json".into(), content: None },
            file("b.json", "{")
        ])
        .err(),
        Some(ParseError::Unreadable)
    );
    assert_eq!(
        parse_deputes_aggregated(&vec![file("a.json", r#"{ "acteurs": { "acteur": { "x": 1 } } }"#)]).err(),
        Some(ParseError::NoDepute)
    );
}

#[test]
fn multifile_dump_reads_bodies_then_actors() {
    let files = vec![
        file("PA1.json", r#"{ "acteur": { "uid": "PA1", "mandats": { "mandat": { "typeOrgane": "GP", "organes": { "organeRef": "PO1" } } } } }"#),
        file("PA2.json", "{ broken"),
        SourceFile { name: "PA3.json".into(), content: None },
        file("PA4.json", r#"{ "uid": "PA4" }"#),
        file("PO1.json", r#"{ "organe": { "uid": "PO1", "codeType": "GP", "libelle": "Groupe", "libelleAbrev": "G" } }"#),
        file("autre.json", r#"{ "acteur": { "uid": "PA5" } }"#),
    ];
    let (deputes, organes) = parse_deputes_multifile(&files).unwrap();
    let ids: Vec<&str> = deputes.iter().map(|d| d.id.as_str()).collect();
    assert_eq!(ids, vec!["PA1", "PA4"]);
    assert_eq!(deputes[0].groupe_abrev, Some("G".to_string()));
    assert_eq!(organes.len(), 1);
    assert_eq!(parse_deputes_multifile(&vec![]).err(), Some(ParseError::NoDepute));
    // an aggregated dump that cannot be read is tried as one of a file for each record
    let (deputes, _) = parse_deputes(&files).unwrap();
    assert_eq!(deputes.len(), 2);
    assert_eq!(parse_deputes(&vec![]).err(), Some(ParseError::NoJsonFile));
    assert_eq!(ParseError::NoJsonFile.message(), "Aucun fichier JSON");
}

#[test]
fn many_named_files_are_read_one_by_one() {
    let mut files: Vec<SourceFile> = (0..49)
        .map(|i| file(&format!("PO{i}.json"), &format!(r#"{{ "organe": {{ "uid": "PO{i}", "codeType": "GP" }} }}"#)))
        .collect();
    files.push(file("PA1.json", r#"{ "export": { "acteurs": { "acteur": { "uid": "PAX" } } }, "uid": "PA1" }"#));
    let (deputes, organes) = parse_deputes(&files).unwrap();
    // fifty named files: each file is one record
    assert_eq!(deputes[0].id, "PA1");
    assert_eq!(organes.len(), 49);
    files.remove(0);
    let (deputes, organes) = parse_deputes(&files).unwrap();
    // fewer: the best aggregated document is taken
    assert_eq!(deputes[0].id, "PAX");
    assert_eq!(organes.len(), 0);
}

#[test]
fn a_dump_needs_representatives_only() {
    let dump = DumpFiles {
        deputes: Some(vec![file("PA1.json", r#"{ "acteur": { "uid": "PA1" } }"#)]),
        scrutins: Some(vec![
            file("s1.json", r#"{ "scrutin": { "uid": "S1" } }"#),
            file("s2.json", "pas du json"),
            file("s3.json", r#"{ "scrutins": { "scrutin": [ { "uid": "S1" }, { "uid": "S3" } ] } }"#),
        ]),
        amendements: None,
        dossiers: Some(vec![file("d.json", r#"{ "dossierParlementaire": { "uid": "D1" } }"#)]),
    };
    let raw = parse_all(&dump).unwrap();
    assert_eq!(raw.deputes.len(), 1);
    let ids: Vec<&str> = raw.scrutins.iter().map(|s| s.id.as_str()).collect();
    assert_eq!(ids, vec!["S1", "S1", "S3"]);
    assert!(raw.amendements.is_empty());
    assert_eq!(raw.dossiers.len(), 1);
    let none = DumpFiles { deputes: None, scrutins: None, amendements: None, dossiers: None };
    assert_eq!(parse_all(&none).err(), Some(ParseError::DirectoryMissing));
    let empty = DumpFiles { deputes: Some(vec![]), scrutins: None, amendements: None, dossiers: None };
    assert_eq!(parse_all(&empty).err(), Some(ParseError::NoJsonFile));
}

#[test]
fn outcome_in_lower_case_names_an_adoption() {
    assert!(outcome_is_adoption("adopté"));
    assert!(outcome_is_adoption("amendement adopté sans modification"));
    assert!(outcome_is_adoption("29"));
    assert!(!outcome_is_adoption("rejeté"));
    assert!(!outcome_is_adoption("290"));
    assert!(!outcome_is_adoption("Adopté"));
    assert!(!outcome_is_adoption(""));
}
