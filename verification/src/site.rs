//! What the site that reads the published files shares with the pipeline:
//! the names of the period files, labels, colours, search and links.

use vstd::prelude::*;
use crate::numbers::decimal_chars;
use crate::numbers::decimal_text;
use crate::text::{
    append_chars, ascii_lower, char_ascii_lower, char_is_ascii_alphanumeric, chars_contains,
    chars_eq, chars_of, chars_replace_all, chars_starts_with, chars_trim, contains_text,
    is_ascii_alphanumeric, lowercase_of, opt_text, replace_all, starts_with, str_eq,
    str_to_lowercase, text_of, trim,
};
use crate::parser::{chars_strip_leading, strip_leading};

verus! {

/// The period of a set of statistics.
#[derive(Debug, Clone, Copy, PartialEq, Eq, Structural)]
pub enum Period {
    P30,
    P180,
    LEG,
}

pub open spec fn period_label(p: Period) -> Seq<char> {
    match p {
        Period::P30 => "30 jours"@,
        Period::P180 => "180 jours"@,
        Period::LEG => "L\u{e9}gislature"@,
    }
}

pub open spec fn period_json_file(p: Period) -> Seq<char> {
    match p {
        Period::P30 => "data/deputes_P30.json"@,
        Period::P180 => "data/deputes_P180.json"@,
        Period::LEG => "data/deputes_LEG.json"@,
    }
}

pub open spec fn period_csv_file(p: Period) -> Seq<char> {
    match p {
        Period::P30 => "exports/deputes_activity_P30.csv"@,
        Period::P180 => "exports/deputes_activity_P180.csv"@,
        Period::LEG => "exports/deputes_activity_LEG.csv"@,
    }
}

impl Period {
    pub fn label(&self) -> (r: &'static str)
        ensures
            r@ == period_label(*self),
    {
        match self {
            Period::P30 => "30 jours",
            Period::P180 => "180 jours",
            Period::LEG => "L\u{e9}gislature",
        }
    }

    /// The file that holds the statistics of the period.
    pub fn json_file(&self) -> (r: &'static str)
        ensures
            r@ == period_json_file(*self),
    {
        match self {
            Period::P30 => "data/deputes_P30.json",
            Period::P180 => "data/deputes_P180.json",
            Period::LEG => "data/deputes_LEG.json",
        }
    }

    /// The file that holds the table of the period.
    pub fn csv_file(&self) -> (r: &'static str)
        ensures
            r@ == period_csv_file(*self),
    {
        match self {
            Period::P30 => "exports/deputes_activity_P30.csv",
            Period::P180 => "exports/deputes_activity_P180.csv",
            Period::LEG => "exports/deputes_activity_LEG.csv",
        }
    }
}

/// The column by which a table of representatives is sorted.
#[derive(Debug, Clone, Copy, PartialEq, Eq, Structural)]
pub enum SortField {
    Nom,
    Groupe,
    Participation,
    AmdsAuthored,
    AmdsAdopted,
    AmdAdoptionRate,
    ScrutinsEligibles,
}

pub open spec fn sort_field_label(f: SortField) -> Seq<char> {
    match f {
        SortField::Nom => "Nom"@,
        SortField::Groupe => "Groupe"@,
        SortField::Participation => "Participation"@,
        SortField::AmdsAuthored => "Amendements"@,
        SortField::AmdsAdopted => "Adopt\u{e9}s"@,
        SortField::AmdAdoptionRate => "Taux adoption"@,
        SortField::ScrutinsEligibles => "Scrutins \u{e9}ligibles"@,
    }
}

impl SortField {
    pub fn label(&self) -> (r: &'static str)
        ensures
            r@ == sort_field_label(*self),
    {
        match self {
            SortField::Nom => "Nom",
            SortField::Groupe => "Groupe",
            SortField::Participation => "Participation",
            SortField::AmdsAuthored => "Amendements",
            SortField::AmdsAdopted => "Adopt\u{e9}s",
            SortField::AmdAdoptionRate => "Taux adoption",
            SortField::ScrutinsEligibles => "Scrutins \u{e9}ligibles",
        }
    }
}

#[derive(Debug, Clone, Copy, PartialEq, Eq, Structural)]
pub enum SortDir {
    Asc,
    Desc,
}

impl SortDir {
    /// The other direction.
    pub fn toggle(self) -> (r: SortDir)
        ensures
            r != self,
            r.toggle_spec() == self,
            r == self.toggle_spec(),
    {
        match self {
            SortDir::Asc => SortDir::Desc,
            SortDir::Desc => SortDir::Asc,
        }
    }

    pub open spec fn toggle_spec(self) -> SortDir {
        match self {
            SortDir::Asc => SortDir::Desc,
            SortDir::Desc => SortDir::Asc,
        }
    }
}

/// Why a published file could not be had.
#[derive(Debug, Clone)]
pub enum ApiError {
    /// The request did not get through.
    NetworkError(String),
    /// The file is not there.
    NotFound(String),
    /// The server answered with an error status.
    ServerError(u16, String),
    /// The file does not hold what it should.
    ParseError(String),
    Other(String),
}

pub open spec fn api_error_text(e: ApiError) -> Seq<char> {
    match e {
        ApiError::NetworkError(m) => "Erreur r\u{e9}seau: "@ + m@,
        ApiError::NotFound(w) => "Non trouv\u{e9}: "@ + w@,
        ApiError::ServerError(code, m) => "Erreur serveur "@ + decimal_text(code as nat) + ": "@
            + m@,
        ApiError::ParseError(m) => "Erreur parsing JSON: "@ + m@,
        ApiError::Other(m) => "Erreur: "@ + m@,
    }
}

impl ApiError {
    /// The error as a message for the reader.
    pub fn message(&self) -> (r: String)
        ensures
            r@ == api_error_text(*self),
    {
        let mut out: Vec<char> = Vec::new();
        match self {
            ApiError::NetworkError(m) => {
                append_chars(&mut out, &chars_of("Erreur r\u{e9}seau: "));
                append_chars(&mut out, &chars_of(m.as_str()));
            },
            ApiError::NotFound(w) => {
                append_chars(&mut out, &chars_of("Non trouv\u{e9}: "));
                append_chars(&mut out, &chars_of(w.as_str()));
            },
            ApiError::ServerError(code, m) => {
                append_chars(&mut out, &chars_of("Erreur serveur "));
                append_chars(&mut out, &decimal_chars(*code as u64));
                append_chars(&mut out, &chars_of(": "));
                append_chars(&mut out, &chars_of(m.as_str()));
            },
            ApiError::ParseError(m) => {
                append_chars(&mut out, &chars_of("Erreur parsing JSON: "));
                append_chars(&mut out, &chars_of(m.as_str()));
            },
            ApiError::Other(m) => {
                append_chars(&mut out, &chars_of("Erreur: "));
                append_chars(&mut out, &chars_of(m.as_str()));
            },
        }
        text_of(&out)
    }
}

/// The colour of a parliamentary group by its abbreviation; grey for an
/// unknown group and for none.
pub open spec fn group_colour(abrev: Option<Seq<char>>) -> Seq<char> {
    match abrev {
        Some(a) => if a == "RN"@ {
            "#3b82f6"@
        } else if a == "EPR"@ || a == "RE"@ {
            "#f59e0b"@
        } else if a == "LFI"@ {
            "#ef4444"@
        } else if a == "SOC"@ || a == "PS"@ {
            "#ec4899"@
        } else if a == "HOR"@ {
            "#06b6d4"@
        } else if a == "GDR"@ {
            "#dc2626"@
        } else if a == "Dem"@ || a == "MoDem"@ {
            "#a855f7"@
        } else if a == "LIOT"@ {
            "#84cc16"@
        } else if a == "UDR"@ {
            "#f97316"@
        } else {
            "#6b7280"@
        },
        None => "#6b7280"@,
    }
}

pub open spec fn opt_str_text(o: Option<&str>) -> Option<Seq<char>> {
    match o {
        Some(s) => Some(s@),
        None => None,
    }
}

pub fn groupe_color(abrev: Option<&str>) -> (r: &'static str)
    ensures
        r@ == group_colour(opt_str_text(abrev)),
{
    match abrev {
        Some(a) => {
            if str_eq(a, "RN") {
                "#3b82f6"
            } else if str_eq(a, "EPR") || str_eq(a, "RE") {
                "#f59e0b"
            } else if str_eq(a, "LFI") {
                "#ef4444"
            } else if str_eq(a, "SOC") || str_eq(a, "PS") {
                "#ec4899"
            } else if str_eq(a, "HOR") {
                "#06b6d4"
            } else if str_eq(a, "GDR") {
                "#dc2626"
            } else if str_eq(a, "Dem") || str_eq(a, "MoDem") {
                "#a855f7"
            } else if str_eq(a, "LIOT") {
                "#84cc16"
            } else if str_eq(a, "UDR") {
                "#f97316"
            } else {
                "#6b7280"
            }
        },
        None => "#6b7280",
    }
}

/// A lower-case letter without its accent, for the accents that the names
/// carry.
pub open spec fn fold_accent(c: char) -> char {
    if c == '\u{e0}' || c == '\u{e2}' || c == '\u{e4}' {
        'a'
    } else if c == '\u{e9}' || c == '\u{e8}' || c == '\u{ea}' || c == '\u{eb}' {
        'e'
    } else if c == '\u{ee}' || c == '\u{ef}' {
        'i'
    } else if c == '\u{f4}' || c == '\u{f6}' {
        'o'
    } else if c == '\u{f9}' || c == '\u{fb}' || c == '\u{fc}' {
        'u'
    } else if c == '\u{e7}' {
        'c'
    } else {
        c
    }
}

pub fn char_fold_accent(c: char) -> (r: char)
    ensures
        r == fold_accent(c),
{
    if c == '\u{e0}' || c == '\u{e2}' || c == '\u{e4}' {
        'a'
    } else if c == '\u{e9}' || c == '\u{e8}' || c == '\u{ea}' || c == '\u{eb}' {
        'e'
    } else if c == '\u{ee}' || c == '\u{ef}' {
        'i'
    } else if c == '\u{f4}' || c == '\u{f6}' {
        'o'
    } else if c == '\u{f9}' || c == '\u{fb}' || c == '\u{fc}' {
        'u'
    } else if c == '\u{e7}' {
        'c'
    } else {
        c
    }
}

/// The form in which texts are compared by the search: lower case, accents
/// removed.
pub open spec fn search_form(s: Seq<char>) -> Seq<char> {
    without_accents(lowercase_of(s))
}

/// A text with the accents of its lower-case letters removed.
pub open spec fn without_accents(lower: Seq<char>) -> Seq<char> {
    Seq::new(lower.len(), |i: int| fold_accent(lower[i]))
}

/// Removes the accents of the lower-case letters of a text.
pub fn fold_accents(lower: &str) -> (r: String)
    ensures
        r@ == without_accents(lower@),
{
    let given = chars_of(lower);
    let mut r: Vec<char> = Vec::new();
    let mut i: usize = 0;
    while i < given.len()
        invariant
            i <= given.len(),
            given@ == lower@,
            r@ == without_accents(lower@).take(i as int),
        decreases given.len() - i,
    {
        r.push(char_fold_accent(given[i]));
        i += 1;
    }
    text_of(&r)
}

fn chars_search_form(s: &str) -> (r: Vec<char>)
    ensures
        r@ == search_form(s@),
{
    chars_of(fold_accents(str_to_lowercase(s).as_str()).as_str())
}

pub fn normalize_search(s: &str) -> (r: String)
    ensures
        r@ == search_form(s@),
{
    text_of(&chars_search_form(s))
}

/// Whether the needle occurs in the haystack, both in search form. An
/// empty needle occurs everywhere.
pub fn matches_search(haystack: &str, needle: &str) -> (r: bool)
    ensures
        r == (needle@.len() == 0 || contains_text(search_form(haystack@), search_form(needle@))),
{
    if needle.is_empty() {
        return true;
    }
    chars_contains(&chars_search_form(haystack), &chars_search_form(needle))
}

/// The address of a page of the site under the path that the site is
/// served from. An address with a scheme of its own is kept as it is.
pub open spec fn href(path: Seq<char>, base: Seq<char>) -> Seq<char> {
    let p = trim(path);
    if p.len() == 0 || p == "/"@ {
        if base == "/"@ {
            "/"@
        } else {
            base + "/"@
        }
    } else if starts_with(p, "http://"@) || starts_with(p, "https://"@) || starts_with(
        p,
        "mailto:"@,
    ) || starts_with(p, "tel:"@) {
        p
    } else if base == "/"@ {
        "/"@ + strip_leading(p, '/')
    } else {
        base + "/"@ + strip_leading(p, '/')
    }
}

pub fn app_href(path: &str, base: &str) -> (r: String)
    ensures
        r@ == href(path@, base@),
{
    let p = chars_trim(&chars_of(path));
    let slash = chars_of("/");
    let root = str_eq(base, "/");
    let mut out: Vec<char> = Vec::new();
    if p.len() == 0 || chars_eq(&p, &slash) {
        if root {
            return text_of(&slash);
        }
        append_chars(&mut out, &chars_of(base));
        append_chars(&mut out, &slash);
        return text_of(&out);
    }
    if chars_starts_with(&p, &chars_of("http://")) || chars_starts_with(&p, &chars_of("https://"))
        || chars_starts_with(&p, &chars_of("mailto:")) || chars_starts_with(&p, &chars_of("tel:")) {
        return text_of(&p);
    }
    let suffix = chars_strip_leading(&p, '/');
    if !root {
        append_chars(&mut out, &chars_of(base));
    }
    append_chars(&mut out, &slash);
    append_chars(&mut out, &suffix);
    text_of(&out)
}

/// A field of a comma-separated row: quoted, with its quotation marks
/// doubled, where it holds a comma, a quotation mark or a line feed.
pub open spec fn csv_field(s: Seq<char>) -> Seq<char> {
    if s.contains(',') || s.contains('"') || s.contains('\n') {
        seq!['"'] + replace_all(s, seq!['"'], seq!['"', '"']) + seq!['"']
    } else {
        s
    }
}

fn chars_have(s: &Vec<char>, c: char) -> (r: bool)
    ensures
        r == s@.contains(c),
{
    let mut i: usize = 0;
    while i < s.len()
        invariant
            i <= s.len(),
            forall|k: int| 0 <= k < i ==> s@[k] != c,
        decreases s.len() - i,
    {
        if s[i] == c {
            return true;
        }
        i += 1;
    }
    false
}

pub fn csv_escape(s: &str) -> (r: String)
    ensures
        r@ == csv_field(s@),
{
    let v = chars_of(s);
    if chars_have(&v, ',') || chars_have(&v, '"') || chars_have(&v, '\n') {
        let mut quote: Vec<char> = Vec::new();
        quote.push('"');
        let mut two: Vec<char> = Vec::new();
        two.push('"');
        two.push('"');
        assert(quote@ == seq!['"']);
        assert(two@ == seq!['"', '"']);
        let body = chars_replace_all(&v, &quote, &two);
        let mut out: Vec<char> = Vec::new();
        out.push('"');
        append_chars(&mut out, &body);
        out.push('"');
        text_of(&out)
    } else {
        text_of(&v)
    }
}

pub fn csv_opt(o: &Option<String>) -> (r: String)
    ensures
        r@ == match opt_text(*o) {
            Some(s) => csv_field(s),
            None => Seq::<char>::empty(),
        },
{
    match o {
        Some(s) => csv_escape(s.as_str()),
        None => String::new(),
    }
}

/// Each character made fit for a file name: letters and digits of ASCII in
/// lower case, a hyphen for anything else.
pub open spec fn stem_chars(s: Seq<char>) -> Seq<char> {
    Seq::new(
        s.len(),
        |i: int|
            if is_ascii_alphanumeric(s[i]) {
                ascii_lower(s[i])
            } else {
                '-'
            },
    )
}

/// Runs of hyphens reduced to one hyphen each.
pub open spec fn collapse_dashes(s: Seq<char>) -> Seq<char>
    decreases s.len(),
{
    if s.len() == 0 {
        s
    } else if s.last() == '-' && s.len() >= 2 && s[s.len() - 2] == '-' {
        collapse_dashes(s.drop_last())
    } else {
        collapse_dashes(s.drop_last()).push(s.last())
    }
}

pub open spec fn strip_trailing(s: Seq<char>, c: char) -> Seq<char>
    decreases s.len(),
{
    if s.len() > 0 && s.last() == c {
        strip_trailing(s.drop_last(), c)
    } else {
        s
    }
}

/// The stem of a file name for an id: fit characters, hyphens collapsed,
/// none at either end.
pub open spec fn file_stem(s: Seq<char>) -> Seq<char> {
    strip_trailing(strip_leading(collapse_dashes(stem_chars(s)), '-'), '-')
}

pub fn chars_file_stem(s: &Vec<char>) -> (r: Vec<char>)
    ensures
        r@ == file_stem(s@),
{
    let mut out: Vec<char> = Vec::new();
    let mut prev_dash = false;
    let mut i: usize = 0;
    let ghost mapped = stem_chars(s@);
    while i < s.len()
        invariant
            i <= s.len(),
            mapped == stem_chars(s@),
            out@ == collapse_dashes(mapped.take(i as int)),
            prev_dash == (i > 0 && mapped[i - 1] == '-'),
        decreases s.len() - i,
    {
        let c = s[i];
        proof {
            assert(mapped.take(i + 1).drop_last() == mapped.take(i as int));
            assert(mapped.take(i + 1).last() == mapped[i as int]);
            if i > 0 {
                assert(mapped.take(i + 1)[i - 1] == mapped[i - 1]);
            }
        }
        if char_is_ascii_alphanumeric(c) {
            out.push(char_ascii_lower(c));
            prev_dash = false;
        } else {
            if !prev_dash {
                out.push('-');
            }
            prev_dash = true;
        }
        i += 1;
    }
    assert(mapped.take(s.len() as int) == mapped);
    let front = chars_strip_leading(&out, '-');
    let mut end: usize = front.len();
    assert(front@.take(front.len() as int) == front@);
    while end > 0 && front[end - 1] == '-'
        invariant
            end <= front.len(),
            strip_trailing(front@, '-') == strip_trailing(front@.take(end as int), '-'),
        decreases end,
    {
        assert(front@.take(end as int).drop_last() == front@.take(end - 1));
        end -= 1;
    }
    assert(front@.take(front.len() as int) == front@);
    crate::parser::chars_take(&front, end)
}

/// The stem of the file that holds the shard of a representative, as the
/// site derives it from the id.
pub fn safe_file_stem_client(raw: &str) -> (r: String)
    ensures
        r@ == file_stem(raw@),
{
    text_of(&chars_file_stem(&chars_of(raw)))
}

} // verus!
