//! Normalisation of the values read from the open-data records.

use vstd::prelude::*;
use crate::dates::{date_with_format, parsed_days, Date};
use crate::numbers::{chars_parse_unsigned, parse_unsigned};
use crate::text::{
    append_chars, ascii_lower_seq, char_from_u32, char_is_ascii_digit, char_is_whitespace,
    chars_ascii_lower, chars_collapse_whitespace, chars_contains, chars_eq,
    chars_eq_ignore_ascii_case, chars_of, chars_replace_all, chars_starts_with, chars_trim,
    collapse_whitespace, contains_text, eq_ignore_ascii_case, is_ascii_digit, is_whitespace,
    lowercase_of, replace_all, scalar_of, starts_with, str_eq, str_to_lowercase, text_of, trim,
    trim_start,
};

pub mod contact;
pub mod documents;
pub mod mandates;
pub mod records;

verus! {

/// How many characters of an amendment's rationale are kept.
pub const EXPOSE_MAX_CHARS: usize = 500;

/// The text without its leading occurrences of `c`.
pub open spec fn strip_leading(s: Seq<char>, c: char) -> Seq<char>
    decreases s.len(),
{
    if s.len() > 0 && s[0] == c {
        strip_leading(s.skip(1), c)
    } else {
        s
    }
}

pub fn chars_strip_leading(v: &Vec<char>, c: char) -> (r: Vec<char>)
    ensures
        r@ == strip_leading(v@, c),
{
    let mut start: usize = 0;
    assert(v@.skip(0) == v@);
    while start < v.len() && v[start] == c
        invariant
            start <= v.len(),
            strip_leading(v@, c) == strip_leading(v@.skip(start as int), c),
        decreases v.len() - start,
    {
        assert(v@.skip(start as int).skip(1) == v@.skip(start + 1));
        start += 1;
    }
    chars_from(v, start)
}

/// The characters from position `start` on.
pub fn chars_from(v: &Vec<char>, start: usize) -> (r: Vec<char>)
    requires
        start <= v.len(),
    ensures
        r@ == v@.skip(start as int),
{
    let mut r: Vec<char> = Vec::new();
    let mut i: usize = start;
    while i < v.len()
        invariant
            start <= i <= v.len(),
            r@ == v@.subrange(start as int, i as int),
        decreases v.len() - i,
    {
        r.push(v[i]);
        assert(v@.subrange(start as int, i + 1) == v@.subrange(start as int, i as int).push(
            v@[i as int],
        ));
        i += 1;
    }
    assert(v@.subrange(start as int, v.len() as int) == v@.skip(start as int));
    r
}

/// The first `n` characters.
pub fn chars_take(v: &Vec<char>, n: usize) -> (r: Vec<char>)
    requires
        n <= v.len(),
    ensures
        r@ == v@.take(n as int),
{
    let mut r: Vec<char> = Vec::new();
    let mut i: usize = 0;
    while i < n
        invariant
            i <= n <= v.len(),
            r@ == v@.take(i as int),
        decreases n - i,
    {
        r.push(v[i]);
        assert(v@.take(i + 1) == v@.take(i as int).push(v@[i as int]));
        i += 1;
    }
    r
}

/// The text of the leading white space removed.
pub fn chars_trim_start(v: &Vec<char>) -> (r: Vec<char>)
    ensures
        r@ == trim_start(v@),
{
    let mut start: usize = 0;
    assert(v@.skip(0) == v@);
    while start < v.len() && char_is_whitespace(v[start])
        invariant
            start <= v.len(),
            trim_start(v@) == trim_start(v@.skip(start as int)),
        decreases v.len() - start,
    {
        assert(v@.skip(start as int).skip(1) == v@.skip(start + 1));
        start += 1;
    }
    chars_from(v, start)
}

/// A web address made absolute: trimmed, and given the scheme `https`
/// unless it names `http` or `https` itself. Empty for an empty address.
pub open spec fn urlish(raw: Seq<char>) -> Seq<char> {
    let t = trim(raw);
    if t.len() == 0 {
        t
    } else if starts_with(t, "http://"@) || starts_with(t, "https://"@) {
        t
    } else {
        "https://"@ + strip_leading(t, '/')
    }
}

pub fn normalize_urlish(raw: &str) -> (r: String)
    ensures
        r@ == urlish(raw@),
{
    let t = chars_trim(&chars_of(raw));
    if t.len() == 0 {
        return String::new();
    }
    let http = chars_of("http://");
    let https = chars_of("https://");
    if chars_starts_with(&t, &http) || chars_starts_with(&t, &https) {
        text_of(&t)
    } else {
        let mut out = https;
        let rest = chars_strip_leading(&t, '/');
        append_chars(&mut out, &rest);
        text_of(&out)
    }
}

/// A telephone number with its white space collapsed.
pub fn normalize_phoneish(raw: &str) -> (r: String)
    ensures
        r@ == collapse_whitespace(raw@),
{
    text_of(&chars_collapse_whitespace(&chars_of(raw)))
}

/// The position of the first occurrence of `c`, if any.
pub open spec fn first_index_of(s: Seq<char>, c: char) -> Option<int>
    decreases s.len(),
{
    if s.len() == 0 {
        None
    } else if s[0] == c {
        Some(0int)
    } else {
        match first_index_of(s.skip(1), c) {
            Some(k) => Some(k + 1),
            None => None,
        }
    }
}

pub fn chars_first_index_of(v: &Vec<char>, c: char) -> (r: Option<usize>)
    ensures
        match r {
            Some(k) => first_index_of(v@, c) == Some(k as int) && k < v.len(),
            None => first_index_of(v@, c).is_none(),
        },
{
    let mut i: usize = 0;
    assert(v@.skip(0) == v@);
    while i < v.len()
        invariant
            i <= v.len(),
            first_index_of(v@, c) == match first_index_of(v@.skip(i as int), c) {
                Some(k) => Some(k + i),
                None => None,
            },
        decreases v.len() - i,
    {
        if v[i] == c {
            return Some(i);
        }
        assert(v@.skip(i as int).skip(1) == v@.skip(i + 1));
        i += 1;
    }
    None
}

pub open spec fn all_ascii_digits(s: Seq<char>) -> bool {
    forall|i: int| 0 <= i < s.len() ==> is_ascii_digit(#[trigger] s[i])
}

pub fn chars_all_ascii_digits(v: &Vec<char>, from: usize, to: usize) -> (r: bool)
    requires
        from <= to <= v.len(),
    ensures
        r == all_ascii_digits(v@.subrange(from as int, to as int)),
{
    let mut i: usize = from;
    while i < to
        invariant
            from <= i <= to <= v.len(),
            forall|k: int| from <= k < i ==> is_ascii_digit(#[trigger] v@[k]),
        decreases to - i,
    {
        if !char_is_ascii_digit(v[i]) {
            assert(!is_ascii_digit(v@.subrange(from as int, to as int)[i - from]));
            return false;
        }
        i += 1;
    }
    assert forall|k: int| 0 <= k < v@.subrange(from as int, to as int).len() implies is_ascii_digit(
        #[trigger] v@.subrange(from as int, to as int)[k],
    ) by {
        assert(v@.subrange(from as int, to as int)[k] == v@[from + k]);
    }
    true
}

/// What follows a numeric code in brackets: the text after the closing
/// bracket without the white space, hyphens and dashes that lead it.
pub open spec fn after_code(rest: Seq<char>) -> Seq<char> {
    trim_start(
        strip_leading(strip_leading(strip_leading(trim_start(rest), '-'), '\u{2013}'), '\u{2014}'),
    )
}

/// A profession label: white space collapsed, and a leading numeric code in
/// round brackets removed together with the dash that follows it, provided
/// that something is left.
pub open spec fn profession_label(raw: Seq<char>) -> Seq<char> {
    let s = trim(collapse_whitespace(raw));
    if s.len() > 0 && s[0] == '(' {
        match first_index_of(s.skip(1), ')') {
            Some(k) => {
                let cleaned = after_code(s.skip(1).skip(k + 1));
                if all_ascii_digits(s.skip(1).take(k)) && cleaned.len() > 0 {
                    cleaned
                } else {
                    s
                }
            },
            None => s,
        }
    } else {
        s
    }
}

pub fn normalize_profession_label(raw: &str) -> (r: String)
    ensures
        r@ == profession_label(raw@),
{
    let s = chars_trim(&chars_collapse_whitespace(&chars_of(raw)));
    if s.len() > 0 && s[0] == '(' {
        let rest = chars_from(&s, 1);
        match chars_first_index_of(&rest, ')') {
            Some(k) => {
                assert(rest@.subrange(0, k as int) == rest@.take(k as int));
                if chars_all_ascii_digits(&rest, 0, k) {
                    let after = chars_from(&rest, k + 1);
                    let a = chars_trim_start(&after);
                    let b = chars_strip_leading(&a, '-');
                    let c = chars_strip_leading(&b, '\u{2013}');
                    let d = chars_strip_leading(&c, '\u{2014}');
                    let cleaned = chars_trim_start(&d);
                    if cleaned.len() > 0 {
                        return text_of(&cleaned);
                    }
                }
            },
            None => {},
        }
    }
    text_of(&s)
}

/// The number of bytes a character takes in a string.
pub open spec fn utf8_len(c: char) -> nat {
    if (c as u32) < 0x80 {
        1
    } else if (c as u32) < 0x800 {
        2
    } else if (c as u32) < 0x10000 {
        3
    } else {
        4
    }
}

pub fn char_utf8_len(c: char) -> (r: usize)
    ensures
        r == utf8_len(c),
{
    let n: u32 = c as u32;
    if n < 0x80 {
        1
    } else if n < 0x800 {
        2
    } else if n < 0x10000 {
        3
    } else {
        4
    }
}

/// The scan of a numeric entity after its `&#`: the characters up to a
/// semicolon, which is consumed, to the end of the text, or to the
/// character with which the entity grows beyond ten bytes. `bytes` is the
/// size of the entity so far. Gives the body read and how many characters
/// were consumed.
pub open spec fn scan_entity(rest: Seq<char>, bytes: nat) -> (Seq<char>, nat)
    decreases rest.len(),
{
    if rest.len() == 0 {
        (Seq::empty(), 0)
    } else if rest[0] == ';' {
        (Seq::empty(), 1)
    } else if bytes + utf8_len(rest[0]) > 10 {
        (seq![rest[0]], 1)
    } else {
        let (body, used) = scan_entity(rest.skip(1), bytes + utf8_len(rest[0]));
        (seq![rest[0]] + body, used + 1)
    }
}

/// What a numeric entity with the given body stands for: the character
/// with that code point, hexadecimal after an `x`, decimal otherwise; and
/// the entity itself, closed by a semicolon, where the body names no
/// character.
pub open spec fn entity_text(body: Seq<char>) -> Seq<char> {
    let code = if body.len() > 0 && (body[0] == 'x' || body[0] == 'X') {
        parse_unsigned(body.skip(1), 16, u32::MAX as nat)
    } else {
        parse_unsigned(body, 10, u32::MAX as nat)
    };
    let decoded = match code {
        Some(n) => scalar_of(n as int),
        None => None,
    };
    match decoded {
        Some(c) => seq![c],
        None => seq!['&', '#'] + body + seq![';'],
    }
}

/// The text with its numeric character entities decoded.
pub open spec fn decode_numeric(s: Seq<char>) -> Seq<char>
    decreases s.len(),
{
    if s.len() == 0 {
        s
    } else if s[0] == '&' && s.len() >= 2 && s[1] == '#' {
        let (body, used) = scan_entity(s.skip(2), 2);
        if used <= s.len() - 2 {
            entity_text(body) + decode_numeric(s.skip(2 + used as int))
        } else {
            entity_text(body)
        }
    } else {
        seq![s[0]] + decode_numeric(s.skip(1))
    }
}

fn chars_scan_entity(s: &Vec<char>, from: usize) -> (r: (Vec<char>, usize))
    requires
        from <= s.len(),
    ensures
        (r.0@, r.1 as nat) == scan_entity(s@.skip(from as int), 2),
        from + r.1 <= s.len(),
{
    let mut body: Vec<char> = Vec::new();
    let mut bytes: usize = 2;
    let mut i: usize = from;
    let ghost start = s@.skip(from as int);
    assert(body@ + scan_entity(s@.skip(from as int), 2).0 == scan_entity(start, 2).0);
    loop
        invariant
            from <= i <= s.len(),
            start == s@.skip(from as int),
            bytes <= 10,
            scan_entity(start, 2) == (
                body@ + scan_entity(s@.skip(i as int), bytes as nat).0,
                ((i - from) + scan_entity(s@.skip(i as int), bytes as nat).1) as nat,
            ),
        decreases s.len() - i,
    {
        let ghost rest = s@.skip(i as int);
        if i == s.len() {
            assert(body@ + Seq::<char>::empty() == body@);
            return (body, i - from);
        }
        let c = s[i];
        assert(rest[0] == c);
        if c == ';' {
            assert(body@ + Seq::<char>::empty() == body@);
            return (body, i - from + 1);
        }
        let ghost before = body@;
        body.push(c);
        bytes = bytes + char_utf8_len(c);
        if bytes > 10 {
            assert(before + seq![c] == body@);
            return (body, i - from + 1);
        }
        proof {
            assert(rest.skip(1) == s@.skip(i + 1));
            let next = scan_entity(s@.skip(i + 1), bytes as nat);
            assert(before + (seq![c] + next.0) == body@ + next.0);
        }
        i += 1;
    }
}

fn chars_entity_text(body: &Vec<char>) -> (r: Vec<char>)
    ensures
        r@ == entity_text(body@),
{
    let code = if body.len() > 0 && (body[0] == 'x' || body[0] == 'X') {
        let digits = chars_from(body, 1);
        chars_parse_unsigned(&digits, 16, u32::MAX)
    } else {
        chars_parse_unsigned(body, 10, u32::MAX)
    };
    let decoded = match code {
        Some(n) => char_from_u32(n),
        None => None,
    };
    let mut r: Vec<char> = Vec::new();
    match decoded {
        Some(c) => {
            r.push(c);
        },
        None => {
            r.push('&');
            r.push('#');
            append_chars(&mut r, body);
            r.push(';');
        },
    }
    r
}

pub fn chars_decode_numeric(s: &Vec<char>) -> (r: Vec<char>)
    ensures
        r@ == decode_numeric(s@),
{
    let mut r: Vec<char> = Vec::new();
    let mut i: usize = 0;
    assert(s@.skip(0) == s@);
    assert(r@ + decode_numeric(s@) == decode_numeric(s@));
    while i < s.len()
        invariant
            i <= s.len(),
            r@ + decode_numeric(s@.skip(i as int)) == decode_numeric(s@),
        decreases s.len() - i,
    {
        let ghost rest = s@.skip(i as int);
        let ghost before = r@;
        if s[i] == '&' && i + 1 < s.len() && s[i + 1] == '#' {
            let scanned = chars_scan_entity(s, i + 2);
            let piece = chars_entity_text(&scanned.0);
            append_chars(&mut r, &piece);
            proof {
                assert(rest[0] == '&' && rest[1] == '#');
                assert(rest.skip(2) == s@.skip(i + 2));
                assert(rest.skip(2 + scanned.1 as int) == s@.skip(i + 2 + scanned.1));
                assert(before + (piece@ + decode_numeric(s@.skip(i + 2 + scanned.1))) == r@
                    + decode_numeric(s@.skip(i + 2 + scanned.1)));
            }
            i = i + 2 + scanned.1;
        } else {
            r.push(s[i]);
            proof {
                assert(rest[0] == s@[i as int]);
                if rest.len() >= 2 {
                    assert(rest[1] == s@[i + 1]);
                }
                assert(rest.skip(1) == s@.skip(i + 1));
                assert(before + (seq![s@[i as int]] + decode_numeric(s@.skip(i + 1))) == r@
                    + decode_numeric(s@.skip(i + 1)));
            }
            i += 1;
        }
    }
    assert(s@.skip(s.len() as int).len() == 0);
    assert(r@ + Seq::<char>::empty() == r@);
    r
}

/// The text with its numeric character entities (`&#233;`, `&#xE9;`)
/// decoded.
pub fn decode_numeric_entities(input: &str) -> (r: String)
    ensures
        r@ == decode_numeric(input@),
{
    text_of(&chars_decode_numeric(&chars_of(input)))
}

/// Where the removal of tags stands after a part of the text.
pub struct TagScan {
    pub out: Seq<char>,
    pub in_tag: bool,
    pub after_space: bool,
}

/// The text without its tags. Where a tag follows a character that is no
/// white space, a space takes its place, so that the words on either side
/// stay apart.
pub open spec fn scan_tags(s: Seq<char>) -> TagScan
    decreases s.len(),
{
    if s.len() == 0 {
        TagScan { out: Seq::empty(), in_tag: false, after_space: true }
    } else {
        let st = scan_tags(s.drop_last());
        let c = s.last();
        if c == '<' {
            if !st.in_tag && !st.after_space {
                TagScan { out: st.out.push(' '), in_tag: true, after_space: true }
            } else {
                TagScan { in_tag: true, ..st }
            }
        } else if c == '>' {
            TagScan { in_tag: false, ..st }
        } else if !st.in_tag {
            TagScan { out: st.out.push(c), in_tag: false, after_space: is_whitespace(c) }
        } else {
            st
        }
    }
}

pub fn chars_strip_tags(s: &Vec<char>) -> (r: Vec<char>)
    ensures
        r@ == scan_tags(s@).out,
{
    let mut out: Vec<char> = Vec::new();
    let mut in_tag = false;
    let mut after_space = true;
    let mut i: usize = 0;
    while i < s.len()
        invariant
            i <= s.len(),
            scan_tags(s@.take(i as int)) == (TagScan { out: out@, in_tag, after_space }),
        decreases s.len() - i,
    {
        let c = s[i];
        assert(s@.take(i + 1).drop_last() == s@.take(i as int));
        if c == '<' {
            if !in_tag && !after_space {
                out.push(' ');
                after_space = true;
            }
            in_tag = true;
        } else if c == '>' {
            in_tag = false;
        } else if !in_tag {
            out.push(c);
            after_space = char_is_whitespace(c);
        }
        i += 1;
    }
    assert(s@.take(s.len() as int) == s@);
    out
}

/// The text with the named entities of the fixed table decoded, one after
/// the other: non-breaking space, ampersand, less-than, greater-than,
/// quotation mark, apostrophe.
pub open spec fn decode_named(s: Seq<char>) -> Seq<char> {
    replace_all(
        replace_all(
            replace_all(
                replace_all(
                    replace_all(replace_all(s, "&nbsp;"@, " "@), "&amp;"@, "&"@),
                    "&lt;"@,
                    "<"@,
                ),
                "&gt;"@,
                ">"@,
            ),
            "&quot;"@,
            "\""@,
        ),
        "&#39;"@,
        "'"@,
    )
}

fn replace_text(s: &Vec<char>, pat: &str, rep: &str) -> (r: Vec<char>)
    requires
        pat@.len() > 0,
    ensures
        r@ == replace_all(s@, pat@, rep@),
{
    chars_replace_all(s, &chars_of(pat), &chars_of(rep))
}

pub fn chars_decode_named(s: &Vec<char>) -> (r: Vec<char>)
    ensures
        r@ == decode_named(s@),
{
    proof {
        reveal_strlit("&nbsp;");
        reveal_strlit("&amp;");
        reveal_strlit("&lt;");
        reveal_strlit("&gt;");
        reveal_strlit("&quot;");
        reveal_strlit("&#39;");
    }
    let a = replace_text(s, "&nbsp;", " ");
    let b = replace_text(&a, "&amp;", "&");
    let c = replace_text(&b, "&lt;", "<");
    let d = replace_text(&c, "&gt;", ">");
    let e = replace_text(&d, "&quot;", "\"");
    replace_text(&e, "&#39;", "'")
}

/// The text cut to `max` characters, with an ellipsis where something was
/// cut off; `max` zero cuts nothing.
pub open spec fn truncate_with_ellipsis(s: Seq<char>, max: nat) -> Seq<char> {
    if max == 0 || s.len() <= max {
        s
    } else {
        s.take(max as int).push('\u{2026}')
    }
}

/// The rationale of an amendment made plain: tags removed, entities
/// decoded, white space collapsed, and the whole cut to `max` characters.
pub open spec fn expose_sommaire(raw: Seq<char>, max: nat) -> Seq<char> {
    let t = trim(collapse_whitespace(decode_numeric(decode_named(scan_tags(raw).out))));
    truncate_with_ellipsis(t, max)
}

pub fn normalize_expose_sommaire(raw: &str, max_chars: usize) -> (r: String)
    ensures
        r@ == expose_sommaire(raw@, max_chars as nat),
{
    let stripped = chars_strip_tags(&chars_of(raw));
    let named = chars_decode_named(&stripped);
    let decoded = chars_decode_numeric(&named);
    let t = chars_trim(&chars_collapse_whitespace(&decoded));
    if max_chars == 0 || t.len() <= max_chars {
        return text_of(&t);
    }
    let mut cut = chars_take(&t, max_chars);
    cut.push('\u{2026}');
    text_of(&cut)
}

/// The label of a sex or form of address, normalised: none for an empty
/// text or `null`; `Homme` or `Femme` for the known forms of either; else
/// the text itself, white space collapsed.
pub open spec fn sexe_label(raw: Seq<char>) -> Option<Seq<char>> {
    let t = trim(collapse_whitespace(raw));
    sexe_label_with(t, lowercase_of(t))
}

/// The label for a text and its lower-case form.
pub open spec fn sexe_label_with(t: Seq<char>, lower: Seq<char>) -> Option<Seq<char>> {
    if t.len() == 0 || eq_ignore_ascii_case(t, "null"@) {
        None
    } else if lower == "m"@ || lower == "m."@ || lower == "mr"@ || lower == "monsieur"@ || lower
        == "homme"@ || lower == "masculin"@ {
        Some("Homme"@)
    } else if lower == "mme"@ || lower == "mme."@ || lower == "madame"@ || lower == "melle"@
        || lower == "mlle"@ || lower == "femme"@ || lower == "f\u{e9}minin"@ || lower
        == "feminin"@ {
        Some("Femme"@)
    } else {
        Some(t)
    }
}

pub fn normalize_sexe_label(raw: &str) -> (r: Option<String>)
    ensures
        crate::text::opt_text(r) == sexe_label(raw@),
{
    let text = text_of(&chars_trim(&chars_collapse_whitespace(&chars_of(raw))));
    let lower = str_to_lowercase(text.as_str());
    sexe_label_from(text.as_str(), lower.as_str())
}

/// The label of a sex or form of address for a text, trimmed and with its
/// white space collapsed, and the lower-case form of that text.
pub fn sexe_label_from(text: &str, lower: &str) -> (r: Option<String>)
    ensures
        crate::text::opt_text(r) == sexe_label_with(text@, lower@),
{
    let t = chars_of(text);
    if t.len() == 0 || chars_eq_ignore_ascii_case(&t, &chars_of("null")) {
        return None;
    }
    if str_eq(lower, "m") || str_eq(lower, "m.") || str_eq(lower, "mr") || str_eq(
        lower,
        "monsieur",
    ) || str_eq(lower, "homme") || str_eq(lower, "masculin") {
        return Some("Homme".to_string());
    }
    if str_eq(lower, "mme") || str_eq(lower, "mme.") || str_eq(lower, "madame") || str_eq(
        lower,
        "melle",
    ) || str_eq(lower, "mlle") || str_eq(lower, "femme") || str_eq(lower, "f\u{e9}minin")
        || str_eq(lower, "feminin") {
        return Some("Femme".to_string());
    }
    Some(text_of(&t))
}

/// Some string of the list equals the text up to the case of ASCII letters.
pub open spec fn holds_ignoring_case(list: Seq<String>, value: Seq<char>) -> bool {
    exists|i: int| 0 <= i < list.len() && eq_ignore_ascii_case((#[trigger] list[i])@, value)
}

/// Appends the value unless it is empty or the list holds it already, up
/// to the case of ASCII letters.
pub fn push_unique(vec: &mut Vec<String>, value: String)
    ensures
        final(vec)@ == if value@.len() > 0 && !holds_ignoring_case(old(vec)@, value@) {
            old(vec)@.push(value)
        } else {
            old(vec)@
        },
{
    let v = chars_of(value.as_str());
    if v.len() == 0 {
        return ;
    }
    let mut i: usize = 0;
    while i < vec.len()
        invariant
            i <= vec@.len(),
            vec@ == old(vec)@,
            v@ == value@,
            forall|k: int| 0 <= k < i ==> !eq_ignore_ascii_case((#[trigger] vec@[k])@, value@),
        decreases vec@.len() - i,
    {
        if chars_eq_ignore_ascii_case(&chars_of(vec[i].as_str()), &v) {
            return ;
        }
        i += 1;
    }
    vec.push(value);
}

/// The rank of a web address by the kind the registry gives it: sites
/// first, then blogs, then what is of no known kind, then social networks.
pub open spec fn site_rank(type_libelle: Seq<char>, type_code: Seq<char>) -> int {
    let t = ascii_lower_seq(type_libelle);
    if contains_text(t, "site internet"@) || contains_text(t, "site web"@) {
        0
    } else if contains_text(t, "blog"@) {
        1
    } else if contains_text(t, "r\u{e9}seau social"@) || contains_text(t, "reseau social"@) {
        3
    } else if type_code == "22"@ {
        0
    } else {
        2
    }
}

pub fn site_type_rank(type_libelle: &str, type_code: &str) -> (r: i32)
    ensures
        r == site_rank(type_libelle@, type_code@),
{
    let t = chars_ascii_lower(&chars_of(type_libelle));
    if chars_contains(&t, &chars_of("site internet")) || chars_contains(&t, &chars_of("site web")) {
        return 0;
    }
    if chars_contains(&t, &chars_of("blog")) {
        return 1;
    }
    if chars_contains(&t, &chars_of("r\u{e9}seau social")) || chars_contains(
        &t,
        &chars_of("reseau social"),
    ) {
        return 3;
    }
    if str_eq(type_code, "22") {
        0
    } else {
        2
    }
}

/// The type of body that names the assembly, in one of its spellings.
pub open spec fn names_assemblee(raw: Seq<char>) -> bool {
    let t = trim(raw);
    t == "ASSEMBLEE"@ || t == "Assembl\u{e9}e"@ || t == "ASSEMBL\u{c9}E"@ || t == "Assemblee"@
        || t == "assemblee"@ || t == "assembl\u{e9}e"@
}

pub fn is_type_organe_assemblee(raw: &str) -> (r: bool)
    ensures
        r == names_assemblee(raw@),
{
    let t = chars_trim(&chars_of(raw));
    chars_eq(&t, &chars_of("ASSEMBLEE")) || chars_eq(&t, &chars_of("Assembl\u{e9}e")) || chars_eq(
        &t,
        &chars_of("ASSEMBL\u{c9}E"),
    ) || chars_eq(&t, &chars_of("Assemblee")) || chars_eq(&t, &chars_of("assemblee")) || chars_eq(
        &t,
        &chars_of("assembl\u{e9}e"),
    )
}

/// The texts of a list of strings.
pub open spec fn texts(v: Seq<String>) -> Seq<Seq<char>> {
    Seq::new(v.len(), |i: int| v[i]@)
}

/// Some text of the list has the given text as its trimmed form.
pub open spec fn seen_trimmed(s: Seq<Seq<char>>, key: Seq<char>) -> bool {
    exists|i: int| 0 <= i < s.len() && trim(#[trigger] s[i]) == key
}

/// The references of a list without the blank ones and without those that
/// repeat, trimmed, an earlier one: each reference stays where it first
/// stood.
pub open spec fn dedup_refs(s: Seq<Seq<char>>) -> Seq<Seq<char>>
    decreases s.len(),
{
    if s.len() == 0 {
        s
    } else {
        let head = dedup_refs(s.drop_last());
        let key = trim(s.last());
        if key.len() == 0 || seen_trimmed(s.drop_last(), key) {
            head
        } else {
            head.push(s.last())
        }
    }
}

/// Some entry of the list holds the key.
pub open spec fn has_key(seen: Seq<Vec<char>>, key: Seq<char>) -> bool {
    exists|x: int| 0 <= x < seen.len() && (#[trigger] seen[x])@ == key
}

fn key_seen(seen: &Vec<Vec<char>>, key: &Vec<char>) -> (r: bool)
    ensures
        r == has_key(seen@, key@),
{
    let mut k: usize = 0;
    while k < seen.len()
        invariant
            k <= seen@.len(),
            forall|x: int| 0 <= x < k ==> (#[trigger] seen@[x])@ != key@,
        decreases seen@.len() - k,
    {
        if chars_eq(&seen[k], key) {
            return true;
        }
        k += 1;
    }
    false
}

proof fn lemma_has_key_push(seen: Seq<Vec<char>>, added: Vec<char>, key: Seq<char>)
    ensures
        has_key(seen.push(added), key) <==> has_key(seen, key) || added@ == key,
{
    let more = seen.push(added);
    if has_key(seen, key) {
        let x = choose|x: int| 0 <= x < seen.len() && (#[trigger] seen[x])@ == key;
        assert(more[x]@ == key);
    }
    if added@ == key {
        assert(more[seen.len() as int]@ == key);
    }
    if has_key(more, key) {
        let x = choose|x: int| 0 <= x < more.len() && (#[trigger] more[x])@ == key;
        if x < seen.len() {
            assert(seen[x]@ == key);
        }
    }
}

proof fn lemma_seen_trimmed_step(s: Seq<Seq<char>>, i: int, key: Seq<char>)
    requires
        0 <= i < s.len(),
    ensures
        seen_trimmed(s.take(i + 1), key) <==> seen_trimmed(s.take(i), key) || trim(s[i]) == key,
{
    let head = s.take(i);
    let more = s.take(i + 1);
    if seen_trimmed(head, key) {
        let x = choose|x: int| 0 <= x < head.len() && trim(#[trigger] head[x]) == key;
        assert(more[x] == head[x]);
    }
    if trim(s[i]) == key {
        assert(more[i] == s[i]);
    }
    if seen_trimmed(more, key) {
        let x = choose|x: int| 0 <= x < more.len() && trim(#[trigger] more[x]) == key;
        if x < i {
            assert(head[x] == more[x]);
        }
    }
}

pub fn dedup_actor_refs_keep_order(ids: &mut Vec<String>)
    ensures
        texts(final(ids)@) == dedup_refs(texts(old(ids)@)),
{
    let ghost given = texts(ids@);
    let mut kept: Vec<String> = Vec::new();
    let mut seen: Vec<Vec<char>> = Vec::new();
    let mut i: usize = 0;
    assert(texts(kept@) =~= dedup_refs(given.take(0)));
    while i < ids.len()
        invariant
            i <= ids@.len(),
            ids@ == old(ids)@,
            given == texts(ids@),
            texts(kept@) == dedup_refs(given.take(i as int)),
            forall|key: Seq<char>|
                key.len() > 0 ==> (#[trigger] has_key(seen@, key) <==> seen_trimmed(
                    given.take(i as int),
                    key,
                )),
        decreases ids@.len() - i,
    {
        let key = chars_trim(&chars_of(ids[i].as_str()));
        let ghost head = given.take(i as int);
        let ghost seen_before = seen@;
        let ghost kept_before = kept@;
        proof {
            assert(given.take(i + 1).drop_last() == head);
            assert(given.take(i + 1).last() == given[i as int]);
            assert(key@ == trim(given[i as int]));
        }
        if key.len() > 0 && !key_seen(&seen, &key) {
            kept.push(ids[i].clone());
            seen.push(key);
            proof {
                assert(texts(kept@) =~= texts(kept_before).push(given[i as int]));
                assert forall|k: Seq<char>| k.len() > 0 implies (#[trigger] has_key(seen@, k)
                    <==> seen_trimmed(given.take(i + 1), k)) by {
                    lemma_has_key_push(seen_before, key, k);
                    lemma_seen_trimmed_step(given, i as int, k);
                    assert(has_key(seen_before, k) <==> seen_trimmed(head, k));
                }
            }
        } else {
            proof {
                assert forall|k: Seq<char>| k.len() > 0 implies (#[trigger] has_key(seen@, k)
                    <==> seen_trimmed(given.take(i + 1), k)) by {
                    lemma_seen_trimmed_step(given, i as int, k);
                    assert(has_key(seen_before, k) <==> seen_trimmed(head, k));
                }
            }
        }
        i += 1;
    }
    assert(given.take(ids@.len() as int) == given);
    *ids = kept;
}

/// The longest start of the text that takes exactly `n` bytes in a string,
/// if there is one.
pub open spec fn byte_prefix(s: Seq<char>, n: nat) -> Option<Seq<char>>
    decreases s.len(),
{
    if n == 0 {
        Some(Seq::empty())
    } else if s.len() == 0 || utf8_len(s[0]) > n {
        None
    } else {
        match byte_prefix(s.skip(1), (n - utf8_len(s[0])) as nat) {
            Some(p) => Some(seq![s[0]] + p),
            None => None,
        }
    }
}

pub fn chars_byte_prefix(s: &Vec<char>, n: usize) -> (r: Option<Vec<char>>)
    ensures
        match r {
            Some(p) => byte_prefix(s@, n as nat) == Some(p@),
            None => byte_prefix(s@, n as nat).is_none(),
        },
{
    let mut p: Vec<char> = Vec::new();
    let mut left: usize = n;
    let mut i: usize = 0;
    assert(s@.skip(0) == s@);
    loop
        invariant
            i <= s.len(),
            p@.len() == i,
            byte_prefix(s@, n as nat) == match byte_prefix(s@.skip(i as int), left as nat) {
                Some(q) => Some(p@ + q),
                None => None,
            },
        decreases s.len() - i,
    {
        if left == 0 {
            assert(p@ + Seq::<char>::empty() == p@);
            return Some(p);
        }
        if i == s.len() {
            return None;
        }
        let w = char_utf8_len(s[i]);
        assert(s@.skip(i as int)[0] == s@[i as int]);
        if w > left {
            return None;
        }
        let ghost before = p@;
        p.push(s[i]);
        proof {
            assert(s@.skip(i as int).skip(1) == s@.skip(i + 1));
            match byte_prefix(s@.skip(i + 1), (left - w) as nat) {
                Some(q) => {
                    assert(before + (seq![s@[i as int]] + q) == p@ + q);
                },
                None => {},
            }
        }
        left = left - w;
        i += 1;
    }
}

/// The day that a text names: read as year-month-day, else as
/// day/month/year, else, where the text is longer, from its first ten
/// bytes as year-month-day. None for an empty text and for `null`.
pub open spec fn date_days(raw: Seq<char>) -> Option<int> {
    let t = trim(raw);
    if t.len() == 0 || t == "null"@ {
        None
    } else {
        first_present(
            parsed_days(t, "%Y-%m-%d"@),
            parsed_days(t, "%d/%m/%Y"@),
            match byte_prefix(t, 10) {
                Some(p) => parsed_days(p, "%Y-%m-%d"@),
                None => None,
            },
        )
    }
}

/// The first of three readings that gave something.
pub open spec fn first_present<T>(a: Option<T>, b: Option<T>, c: Option<T>) -> Option<T> {
    if a is Some {
        a
    } else if b is Some {
        b
    } else {
        c
    }
}

/// The date among three readings of a text: as year-month-day, as
/// day/month/year, and of its first ten bytes as year-month-day; the first
/// that gave a date counts.
pub fn first_date(iso: Option<Date>, french: Option<Date>, prefix: Option<Date>) -> (r: Option<
    Date,
>)
    ensures
        r == first_present(iso, french, prefix),
{
    match iso {
        Some(d) => Some(d),
        None => match french {
            Some(d) => Some(d),
            None => prefix,
        },
    }
}

/// The date that a text names.
pub open spec fn date_of(raw: Seq<char>) -> Option<Date> {
    match date_days(raw) {
        Some(n) => Some(Date::at(n)),
        None => None,
    }
}

/// Reads a date in one of the forms that the records use.
pub fn parse_date(s: &str) -> (r: Option<Date>)
    ensures
        r is Some <==> date_days(s@) is Some,
        r matches Some(d) ==> date_days(s@) == Some(d.day()),
        r == date_of(s@),
{
    let r = read_date(s);
    proof {
        if r is Some {
            crate::dates::lemma_date_at(r->0.day());
        }
    }
    r
}

fn read_date(s: &str) -> (r: Option<Date>)
    ensures
        r is Some <==> date_days(s@) is Some,
        r matches Some(d) ==> date_days(s@) == Some(d.day()),
{
    let t = chars_trim(&chars_of(s));
    if t.len() == 0 || chars_eq(&t, &chars_of("null")) {
        return None;
    }
    let text = text_of(&t);
    let iso = date_with_format(text.as_str(), "%Y-%m-%d");
    let french = date_with_format(text.as_str(), "%d/%m/%Y");
    let prefix = match chars_byte_prefix(&t, 10) {
        Some(p) => date_with_format(text_of(&p).as_str(), "%Y-%m-%d"),
        None => None,
    };
    first_date(iso, french, prefix)
}

/// Some string of the list holds the text.
pub open spec fn holds_text(list: Seq<String>, key: Seq<char>) -> bool {
    exists|x: int| 0 <= x < list.len() && (#[trigger] list[x])@ == key
}

/// Whether some string of the list holds the same text as `key`.
pub fn list_holds(list: &Vec<String>, key: &String) -> (r: bool)
    ensures
        r == holds_text(list@, key@),
{
    let mut k: usize = 0;
    while k < list.len()
        invariant
            k <= list@.len(),
            forall|x: int| 0 <= x < k ==> (#[trigger] list@[x])@ != key@,
        decreases list@.len() - k,
    {
        if list[k] == *key {
            return true;
        }
        k += 1;
    }
    false
}

pub proof fn lemma_holds_text_push(list: Seq<String>, added: String, key: Seq<char>)
    ensures
        holds_text(list.push(added), key) <==> holds_text(list, key) || added@ == key,
{
    let more = list.push(added);
    if holds_text(list, key) {
        let x = choose|x: int| 0 <= x < list.len() && (#[trigger] list[x])@ == key;
        assert(more[x]@ == key);
    }
    if added@ == key {
        assert(more[list.len() as int]@ == key);
    }
    if holds_text(more, key) {
        let x = choose|x: int| 0 <= x < more.len() && (#[trigger] more[x])@ == key;
        if x < list.len() {
            assert(list[x]@ == key);
        }
    }
}

/// The texts of a list, each once, where it first stands.
pub open spec fn distinct_texts(s: Seq<Seq<char>>) -> Seq<Seq<char>>
    decreases s.len(),
{
    if s.len() == 0 {
        s
    } else {
        let head = distinct_texts(s.drop_last());
        if s.drop_last().contains(s.last()) {
            head
        } else {
            head.push(s.last())
        }
    }
}

/// How many different texts the list holds.
pub fn count_distinct(ids: &Vec<String>) -> (r: usize)
    ensures
        r == distinct_texts(texts(ids@)).len(),
{
    let ghost given = texts(ids@);
    let mut seen: Vec<String> = Vec::new();
    let mut i: usize = 0;
    assert(given.take(0) =~= Seq::<Seq<char>>::empty());
    while i < ids.len()
        invariant
            i <= ids@.len(),
            given == texts(ids@),
            seen@.len() <= i,
            texts(seen@) == distinct_texts(given.take(i as int)),
            forall|key: Seq<char>|
                #[trigger] holds_text(seen@, key) <==> given.take(i as int).contains(key),
        decreases ids@.len() - i,
    {
        let ghost head = given.take(i as int);
        let ghost seen_before = seen@;
        proof {
            assert(given.take(i + 1).drop_last() == head);
            assert(given.take(i + 1).last() == given[i as int]);
            assert(given.take(i + 1) == head.push(given[i as int]));
            assert forall|key: Seq<char>|
                given.take(i + 1).contains(key) <==> head.contains(key) || key
                    == given[i as int] by {
                if head.contains(key) {
                    let x = choose|x: int| 0 <= x < head.len() && head[x] == key;
                    assert(given.take(i + 1)[x] == key);
                }
                if key == given[i as int] {
                    assert(given.take(i + 1)[i as int] == key);
                }
            }
        }
        if !list_holds(&seen, &ids[i]) {
            seen.push(ids[i].clone());
            proof {
                assert(texts(seen@) =~= texts(seen_before).push(given[i as int]));
                assert forall|key: Seq<char>| #[trigger]
                    holds_text(seen@, key) <==> given.take(i + 1).contains(key) by {
                    lemma_holds_text_push(seen_before, ids@[i as int], key);
                }
            }
        }
        i += 1;
    }
    assert(given.take(ids@.len() as int) == given);
    assert(texts(seen@).len() == seen@.len());
    seen.len()
}

} // verus!
