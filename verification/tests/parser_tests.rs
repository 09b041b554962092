use activite_deputes::dates::Date;
use activite_deputes::parser::{
    decode_numeric_entities, first_date, dedup_actor_refs_keep_order, is_type_organe_assemblee,
    normalize_expose_sommaire, normalize_phoneish, normalize_profession_label,
    normalize_sexe_label, normalize_urlish, parse_date, push_unique, sexe_label_from,
    site_type_rank,
};

fn day(n: i32) -> Date {
    Date::from_days(n).unwrap()
}

#[test]
fn parse_date_iso() {
    assert_eq!(parse_date("2023-06-19"), Some(day(738_690)));
}

#[test]
fn parse_date_french() {
    assert_eq!(parse_date("19/06/2023"), Some(day(738_690)));
}

#[test]
fn parse_date_datetime() {
    assert_eq!(parse_date("2023-01-15T00:00:00"), Some(day(738_535)));
}

#[test]
fn parse_date_empty_or_null() {
    assert_eq!(parse_date(""), None);
    assert_eq!(parse_date("null"), None);
    assert_eq!(parse_date("  "), None);
}

#[test]
fn parse_date_garbage() {
    assert_eq!(parse_date("not-a-date"), None);
}

#[test]
fn parse_date_trims_and_gives_text_back() {
    let d = parse_date("  2022-06-19 ").unwrap();
    assert_eq!(d.days(), 738_325);
    assert_eq!(d.to_text(), "2022-06-19");
    assert_eq!(d.month_label(), "2022-06");
}

#[test]
fn parse_date_prefix_that_breaks_a_character_is_no_date() {
    // ten bytes end inside the accented letter
    assert_eq!(parse_date("2023-01-1\u{e9}xx"), None);
}

#[test]
fn expose_strips_html_tags() {
    let raw = "<p>Cet amendement <b>vise</b> à clarifier.</p>";
    let result = normalize_expose_sommaire(raw, 500);
    assert_eq!(result, "Cet amendement vise à clarifier.");
}

#[test]
fn expose_collapses_whitespace() {
    let raw = "  Texte   avec   espaces   multiples  ";
    let result = normalize_expose_sommaire(raw, 500);
    assert_eq!(result, "Texte avec espaces multiples");
}

#[test]
fn expose_decodes_html_entities() {
    let raw = "A&nbsp;B &amp; C &lt;D&gt;";
    let result = normalize_expose_sommaire(raw, 500);
    assert_eq!(result, "A B & C <D>");
}

#[test]
fn expose_truncates_with_ellipsis() {
    let raw = "Cet amendement vise à modifier le texte pour clarifier la situation.";
    let result = normalize_expose_sommaire(raw, 20);
    assert!(result.ends_with('…'));
    assert!(result.chars().count() <= 21); // 20 + ellipsis
}

#[test]
fn expose_truncation_is_exact() {
    let raw = "Cet amendement vise à modifier le texte pour clarifier la situation.";
    assert_eq!(normalize_expose_sommaire(raw, 20), "Cet amendement vise …");
    assert_eq!(normalize_expose_sommaire(raw, 0), raw);
}

#[test]
fn expose_empty_input() {
    assert_eq!(normalize_expose_sommaire("", 500), "");
    assert_eq!(normalize_expose_sommaire("   ", 500), "");
    assert_eq!(normalize_expose_sommaire("<br/>", 500), "");
}

#[test]
fn expose_no_truncation_when_short() {
    let raw = "Court texte.";
    assert_eq!(normalize_expose_sommaire(raw, 500), "Court texte.");
}

#[test]
fn expose_decodes_numeric_hex_entities() {
    let raw = "pr&#x00E9;cis&#x00E9;ment";
    assert_eq!(normalize_expose_sommaire(raw, 500), "précisément");
}

#[test]
fn expose_decodes_numeric_decimal_entities() {
    let raw = "pr&#233;cis&#233;ment";
    assert_eq!(normalize_expose_sommaire(raw, 500), "précisément");
}

#[test]
fn expose_rationale_cut_at_four_characters() {
    assert_eq!(normalize_expose_sommaire("<p>Text &amp; more</p>", 4), "Text…");
}

#[test]
fn expose_keeps_words_apart_across_tags() {
    assert_eq!(normalize_expose_sommaire("un<br>deux", 500), "un deux");
    assert_eq!(normalize_expose_sommaire("a <i>b</i>c", 500), "a b c");
}

#[test]
fn expose_entities_are_decoded_in_table_order() {
    // the ampersand is decoded before the less-than sign
    assert_eq!(normalize_expose_sommaire("&amp;lt;", 500), "<");
    assert_eq!(normalize_expose_sommaire("&quot;x&#39;", 500), "\"x'");
}

#[test]
fn numeric_entities_that_name_no_character_stay() {
    assert_eq!(decode_numeric_entities("a&#xD800;b"), "a&#xD800;b");
    assert_eq!(decode_numeric_entities("a&#zz;b"), "a&#zz;b");
    assert_eq!(decode_numeric_entities("&#65;&#x42;&#+67;"), "ABC");
    assert_eq!(decode_numeric_entities("&#;"), "&#;");
    assert_eq!(decode_numeric_entities("&#12345678;"), "&#12345678;");
    assert_eq!(decode_numeric_entities("&#x10FFFF;&#x110000;"), "\u{10FFFF}&#x110000;");
    assert_eq!(decode_numeric_entities("x&#65"), "xA");
    assert_eq!(decode_numeric_entities("&"), "&");
}

#[test]
fn numeric_entity_scan_stops_beyond_ten_bytes() {
    // the entity is given up once it is longer than ten bytes, and closed
    assert_eq!(decode_numeric_entities("&#123456789012;"), "&#123456789;012;");
}

#[test]
fn profession_strips_code_prefix() {
    assert_eq!(normalize_profession_label("(35) — Professeur"), "Professeur");
    assert_eq!(normalize_profession_label("(12)-Avocat"), "Avocat");
}

#[test]
fn profession_keeps_plain_label() {
    assert_eq!(normalize_profession_label("Ingénieur"), "Ingénieur");
}

#[test]
fn profession_keeps_what_is_no_code() {
    assert_eq!(normalize_profession_label("(ab) Avocat"), "(ab) Avocat");
    assert_eq!(normalize_profession_label("(12)"), "(12)");
    assert_eq!(normalize_profession_label("  (7)   –  Agent   de  maîtrise "), "Agent de maîtrise");
    assert_eq!(normalize_profession_label("(12 Avocat"), "(12 Avocat");
}

#[test]
fn sexe_normalizes_variants() {
    assert_eq!(normalize_sexe_label("M"), Some("Homme".to_string()));
    assert_eq!(normalize_sexe_label("Mme"), Some("Femme".to_string()));
    assert_eq!(normalize_sexe_label("Monsieur"), Some("Homme".to_string()));
    assert_eq!(normalize_sexe_label("Madame"), Some("Femme".to_string()));
}

#[test]
fn sexe_empty_or_null() {
    assert_eq!(normalize_sexe_label(""), None);
    assert_eq!(normalize_sexe_label("null"), None);
}

#[test]
fn sexe_keeps_unknown_label_and_knows_accents() {
    assert_eq!(normalize_sexe_label("  autre   chose "), Some("autre chose".to_string()));
    assert_eq!(normalize_sexe_label("FÉMININ"), Some("Femme".to_string()));
    assert_eq!(normalize_sexe_label("NULL"), None);
}

#[test]
fn urlish_gets_a_scheme() {
    assert_eq!(normalize_urlish("  www.exemple.fr "), "https://www.exemple.fr");
    assert_eq!(normalize_urlish("//exemple.fr/a"), "https://exemple.fr/a");
    assert_eq!(normalize_urlish("http://exemple.fr"), "http://exemple.fr");
    assert_eq!(normalize_urlish("https://exemple.fr"), "https://exemple.fr");
    assert_eq!(normalize_urlish("   "), "");
}

#[test]
fn phoneish_collapses_spaces() {
    assert_eq!(normalize_phoneish(" 01  40 \t63 60 00 "), "01 40 63 60 00");
}

#[test]
fn push_unique_ignores_case_and_empty() {
    let mut v = vec!["https://a.fr".to_string()];
    push_unique(&mut v, "HTTPS://A.FR".to_string());
    push_unique(&mut v, String::new());
    push_unique(&mut v, "https://b.fr".to_string());
    assert_eq!(v, vec!["https://a.fr".to_string(), "https://b.fr".to_string()]);
}

#[test]
fn site_rank_by_kind() {
    assert_eq!(site_type_rank("Site internet", ""), 0);
    assert_eq!(site_type_rank("Mon SITE WEB", "99"), 0);
    assert_eq!(site_type_rank("Blog", "22"), 1);
    assert_eq!(site_type_rank("Réseau social", ""), 3);
    assert_eq!(site_type_rank("reseau social", ""), 3);
    assert_eq!(site_type_rank("Autre", "22"), 0);
    assert_eq!(site_type_rank("Autre", "23"), 2);
}

#[test]
fn assemblee_in_its_spellings() {
    assert!(is_type_organe_assemblee(" ASSEMBLEE "));
    assert!(is_type_organe_assemblee("Assemblée"));
    assert!(is_type_organe_assemblee("assemblée"));
    assert!(!is_type_organe_assemblee("SENAT"));
    assert!(!is_type_organe_assemblee("GP"));
}

#[test]
fn dedup_keeps_first_occurrence_in_place() {
    let mut ids = vec![
        "PA2".to_string(),
        " ".to_string(),
        "PA1".to_string(),
        " PA2 ".to_string(),
        "PA3".to_string(),
        "PA1".to_string(),
    ];
    dedup_actor_refs_keep_order(&mut ids);
    assert_eq!(ids, vec!["PA2".to_string(), "PA1".to_string(), "PA3".to_string()]);
}

#[test]
fn sexe_label_for_a_text_and_its_lower_case_form() {
    assert_eq!(sexe_label_from("Mme", "mme"), Some("Femme".to_string()));
    assert_eq!(sexe_label_from("M.", "m."), Some("Homme".to_string()));
    assert_eq!(sexe_label_from("FÉMININ", "féminin"), Some("Femme".to_string()));
    assert_eq!(sexe_label_from("Autre", "autre"), Some("Autre".to_string()));
    assert_eq!(sexe_label_from("", ""), None);
    assert_eq!(sexe_label_from("NuLL", "null"), None);
    // the lower-case form decides, the text is what is kept
    assert_eq!(sexe_label_from("X", "homme"), Some("Homme".to_string()));
    assert_eq!(sexe_label_from("Homme", "x"), Some("Homme".to_string()));
}

#[test]
fn first_reading_that_gave_a_date_counts() {
    let a = Some(day(738_690));
    let b = Some(day(738_535));
    let c = Some(day(738_900));
    assert_eq!(first_date(a, b, c), a);
    assert_eq!(first_date(None, b, c), b);
    assert_eq!(first_date(None, None, c), c);
    assert_eq!(first_date(a, None, None), a);
    assert_eq!(first_date(None, None, None), None);
}
