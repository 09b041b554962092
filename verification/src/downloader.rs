//! The sources of the dumps and what to do with what the server answers.

use vstd::prelude::*;
use crate::text::{
    append_chars, chars_contains, chars_of, clone_opt, contains_text, opt_text, text_of,
};

verus! {

/// A dump to fetch: the key of its directory, its address, and the name of
/// the archive.
#[derive(Debug, Clone)]
pub struct Source {
    pub key: String,
    pub url: String,
    pub filename: String,
}

pub struct Sources {
    pub list: Vec<Source>,
}

/// How many dumps may be fetched at a time.
pub const MAX_CONCURRENT_DOWNLOADS: usize = 2;

/// How long a request may take, in seconds.
pub const REQUEST_TIMEOUT_SECS: u64 = 300;

/// The four dumps of the assembly: representatives, roll calls, amendments
/// and legislative files, in this order.
pub open spec fn is_default_sources(s: Sources) -> bool {
    &&& s.list@.len() == 4
    &&& s.list@[0].key@ == "deputes"@
    &&& s.list@[0].url@
        == "http://data.assemblee-nationale.fr/static/openData/repository/17/amo/deputes_actifs_mandats_actifs_organes/AMO10_deputes_actifs_mandats_actifs_organes.json.zip"@
    &&& s.list@[0].filename@ == "deputes.zip"@
    &&& s.list@[1].key@ == "scrutins"@
    &&& s.list@[1].url@
        == "http://data.assemblee-nationale.fr/static/openData/repository/17/loi/scrutins/Scrutins.json.zip"@
    &&& s.list@[1].filename@ == "scrutins.zip"@
    &&& s.list@[2].key@ == "amendements"@
    &&& s.list@[2].url@
        == "http://data.assemblee-nationale.fr/static/openData/repository/17/loi/amendements_div_legis/Amendements.json.zip"@
    &&& s.list@[2].filename@ == "amendements.zip"@
    &&& s.list@[3].key@ == "dossiers"@
    &&& s.list@[3].url@
        == "http://data.assemblee-nationale.fr/static/openData/repository/17/loi/dossiers_legislatifs/Dossiers_Legislatifs.json.zip"@
    &&& s.list@[3].filename@ == "dossiers.zip"@
}

impl Default for Sources {
    fn default() -> (s: Sources)
        ensures
            is_default_sources(s),
    {
        let mut list: Vec<Source> = Vec::new();
        list.push(
            Source {
                key: "deputes".to_string(),
                url:
                    "http://data.assemblee-nationale.fr/static/openData/repository/17/amo/deputes_actifs_mandats_actifs_organes/AMO10_deputes_actifs_mandats_actifs_organes.json.zip".to_string(),
                filename: "deputes.zip".to_string(),
            },
        );
        list.push(
            Source {
                key: "scrutins".to_string(),
                url:
                    "http://data.assemblee-nationale.fr/static/openData/repository/17/loi/scrutins/Scrutins.json.zip".to_string(),
                filename: "scrutins.zip".to_string(),
            },
        );
        list.push(
            Source {
                key: "amendements".to_string(),
                url:
                    "http://data.assemblee-nationale.fr/static/openData/repository/17/loi/amendements_div_legis/Amendements.json.zip".to_string(),
                filename: "amendements.zip".to_string(),
            },
        );
        list.push(
            Source {
                key: "dossiers".to_string(),
                url:
                    "http://data.assemblee-nationale.fr/static/openData/repository/17/loi/dossiers_legislatifs/Dossiers_Legislatifs.json.zip".to_string(),
                filename: "dossiers.zip".to_string(),
            },
        );
        Sources { list }
    }
}

/// What is kept of a fetched dump for the next run and for the status.
#[derive(Debug, Clone)]
pub struct EtagInfo {
    pub key: String,
    pub etag: Option<String>,
    pub last_modified: Option<String>,
    pub size_bytes: u64,
}

/// What to do with the answer of the server.
#[derive(Debug, Clone, Copy, PartialEq, Eq, Structural)]
pub enum DownloadDecision {
    /// Nothing has changed and the extracted files are there: use them.
    ReuseCache,
    /// The answer is no success: the source fails.
    Fail,
    /// Store the archive and extract it.
    Store,
}

pub open spec fn decision(status: u16, extracted: bool) -> DownloadDecision {
    if status == 304 && extracted {
        DownloadDecision::ReuseCache
    } else if 200 <= status <= 299 {
        DownloadDecision::Store
    } else {
        DownloadDecision::Fail
    }
}

/// Decides on the answer to a conditional request from its status and
/// from whether the dump has been extracted before.
pub fn decide_download(status: u16, extracted: bool) -> (r: DownloadDecision)
    ensures
        r == decision(status, extracted),
{
    if status == 304 && extracted {
        DownloadDecision::ReuseCache
    } else if 200 <= status && status <= 299 {
        DownloadDecision::Store
    } else {
        DownloadDecision::Fail
    }
}

/// What is kept of a dump that was not fetched again: the tag it was
/// cached under.
pub fn reused_info(key: &str, cached_etag: &Option<String>, last_modified: Option<String>, archive_size: Option<u64>) -> (r: EtagInfo)
    ensures
        r.key@ == key@,
        opt_text(r.etag) == opt_text(*cached_etag),
        r.last_modified == last_modified,
        r.size_bytes == match archive_size {
            Some(n) => n,
            None => 0,
        },
{
    EtagInfo {
        key: key.to_string(),
        etag: clone_opt(cached_etag),
        last_modified,
        size_bytes: match archive_size {
            Some(n) => n,
            None => 0,
        },
    }
}

/// The part of a text behind its last slash.
pub open spec fn base_name(s: Seq<char>) -> Seq<char>
    decreases s.len(),
{
    if s.len() == 0 {
        s
    } else if s.last() == '/' {
        Seq::empty()
    } else {
        base_name(s.drop_last()).push(s.last())
    }
}

/// The name of the file that an entry of an archive is extracted to: the
/// base name of the entry. A directory and an entry with `..` in its name
/// are not extracted.
pub open spec fn entry_target(name: Seq<char>) -> Option<Seq<char>> {
    if (name.len() > 0 && name.last() == '/') || contains_text(name, ".."@) {
        None
    } else {
        Some(base_name(name))
    }
}

pub fn zip_entry_target(name: &str) -> (r: Option<String>)
    ensures
        opt_text(r) == entry_target(name@),
{
    let n = chars_of(name);
    if (n.len() > 0 && n[n.len() - 1] == '/') || chars_contains(&n, &chars_of("..")) {
        return None;
    }
    let mut out: Vec<char> = Vec::new();
    let mut i: usize = 0;
    assert(n@.take(0).len() == 0);
    while i < n.len()
        invariant
            i <= n.len(),
            out@ == base_name(n@.take(i as int)),
        decreases n.len() - i,
    {
        proof {
            assert(n@.take(i + 1).drop_last() == n@.take(i as int));
            assert(n@.take(i + 1).last() == n@[i as int]);
        }
        if n[i] == '/' {
            out = Vec::new();
        } else {
            out.push(n[i]);
        }
        i += 1;
    }
    assert(n@.take(n.len() as int) == n@);
    Some(text_of(&out))
}

/// A tag of the cache: the key of a source and the tag of its dump.
#[derive(Debug, Clone)]
pub struct CachedEtag {
    pub key: String,
    pub etag: String,
}

/// The tag cached for a source: that of the first entry with the key.
pub open spec fn cached_for(cache: Seq<CachedEtag>, key: Seq<char>) -> Option<Seq<char>>
    decreases cache.len(),
{
    if cache.len() == 0 {
        None
    } else if cache[0].key@ == key {
        Some(cache[0].etag@)
    } else {
        cached_for(cache.skip(1), key)
    }
}

pub fn cached_etag(cache: &Vec<CachedEtag>, key: &str) -> (r: Option<String>)
    ensures
        opt_text(r) == cached_for(cache@, key@),
{
    let mut i: usize = 0;
    assert(cache@.skip(0) == cache@);
    while i < cache.len()
        invariant
            i <= cache@.len(),
            cached_for(cache@, key@) == cached_for(cache@.skip(i as int), key@),
        decreases cache@.len() - i,
    {
        assert(cache@.skip(i as int)[0] == cache@[i as int]);
        if crate::text::str_eq(cache[i].key.as_str(), key) {
            return Some(cache[i].etag.clone());
        }
        assert(cache@.skip(i as int).skip(1) == cache@.skip(i + 1));
        i += 1;
    }
    None
}

/// A tag of the cache, as texts.
pub struct CachedView {
    pub key: Seq<char>,
    pub etag: Seq<char>,
}

/// The tags to cache after a run: those of the dumps that have one, in the
/// order of the dumps.
pub open spec fn tags_of(etags: Seq<EtagInfo>) -> Seq<CachedView>
    decreases etags.len(),
{
    if etags.len() == 0 {
        Seq::empty()
    } else {
        let head = tags_of(etags.drop_last());
        match etags.last().etag {
            Some(t) => head.push(CachedView { key: etags.last().key@, etag: t@ }),
            None => head,
        }
    }
}

pub open spec fn cache_view(cache: Seq<CachedEtag>) -> Seq<CachedView> {
    Seq::new(cache.len(), |i: int| CachedView { key: cache[i].key@, etag: cache[i].etag@ })
}

/// The cache to keep for the next run.
pub fn etag_cache_of(etags: &Vec<EtagInfo>) -> (cache: Vec<CachedEtag>)
    ensures
        cache_view(cache@) == tags_of(etags@),
{
    let mut cache: Vec<CachedEtag> = Vec::new();
    let mut i: usize = 0;
    assert(cache_view(cache@) =~= tags_of(etags@.take(0)));
    while i < etags.len()
        invariant
            i <= etags@.len(),
            cache_view(cache@) == tags_of(etags@.take(i as int)),
        decreases etags@.len() - i,
    {
        let ghost before = cache@;
        proof {
            assert(etags@.take(i + 1).drop_last() == etags@.take(i as int));
            assert(etags@.take(i + 1).last() == etags@[i as int]);
        }
        match &etags[i].etag {
            Some(t) => {
                cache.push(CachedEtag { key: etags[i].key.clone(), etag: t.clone() });
                assert(cache_view(cache@) =~= cache_view(before).push(
                    CachedView { key: etags@[i as int].key@, etag: t@ },
                ));
            },
            None => {},
        }
        i += 1;
    }
    assert(etags@.take(etags@.len() as int) == etags@);
    cache
}

/// How the fetch of one source ended.
#[derive(Debug, Clone)]
pub enum SourceOutcome {
    Fetched(EtagInfo),
    Failed { key: String, reason: String },
}

pub open spec fn is_failed() -> spec_fn(SourceOutcome) -> bool {
    |o: SourceOutcome| o is Failed
}

/// The failures of a batch as one message: key and reason of each, joined
/// by commas.
pub open spec fn failures_text(outcomes: Seq<SourceOutcome>) -> Seq<char>
    decreases outcomes.len(),
{
    if outcomes.len() == 0 {
        Seq::empty()
    } else {
        let head = failures_text(outcomes.drop_last());
        match outcomes.last() {
            SourceOutcome::Failed { key, reason } => if crate::counting::count_if(
                outcomes.drop_last(),
                is_failed(),
            ) > 0 {
                head + ", "@ + key@ + ": "@ + reason@
            } else {
                key@ + ": "@ + reason@
            },
            SourceOutcome::Fetched(_) => head,
        }
    }
}

/// Without a failure there is no message.
proof fn lemma_no_failure_no_text(outcomes: Seq<SourceOutcome>)
    requires
        crate::counting::count_if(outcomes, is_failed()) == 0,
    ensures
        failures_text(outcomes).len() == 0,
    decreases outcomes.len(),
{
    if outcomes.len() > 0 {
        lemma_no_failure_no_text(outcomes.drop_last());
    }
}

/// What was fetched, in the order of the outcomes: each entry as it came,
/// with its key, tag, date and size.
pub open spec fn fetched(outcomes: Seq<SourceOutcome>) -> Seq<EtagInfo>
    decreases outcomes.len(),
{
    if outcomes.len() == 0 {
        Seq::empty()
    } else {
        let head = fetched(outcomes.drop_last());
        match outcomes.last() {
            SourceOutcome::Fetched(info) => head.push(info),
            SourceOutcome::Failed { .. } => head,
        }
    }
}

/// The outcome of a batch: it succeeds only when every source was fetched;
/// one failure fails the whole batch, so that no mix of old and new dumps
/// is ever used.
pub fn batch_outcome(outcomes: Vec<SourceOutcome>) -> (r: Result<Vec<EtagInfo>, String>)
    ensures
        r is Ok <==> crate::counting::count_if(outcomes@, is_failed()) == 0,
        r matches Ok(etags) ==> etags@ == fetched(outcomes@) && etags@.len() == outcomes@.len()
            && forall|k: int|
            0 <= k < outcomes@.len() ==> #[trigger] outcomes@[k] == SourceOutcome::Fetched(
                etags@[k],
            ),
        r matches Err(e) ==> e@ == "\u{c9}checs de t\u{e9}l\u{e9}chargement: "@ + failures_text(
            outcomes@,
        ),
{
    let mut outcomes = outcomes;
    let ghost given = outcomes@;
    let mut etags: Vec<EtagInfo> = Vec::new();
    let mut errors: Vec<char> = Vec::new();
    let mut failed: usize = 0;
    let n = outcomes.len();
    let mut taken: Vec<SourceOutcome> = Vec::new();
    assert(outcomes@ == given.take(outcomes@.len() as int));
    // take the outcomes out from the back, then go through them from the front
    while outcomes.len() > 0
        invariant
            outcomes@.len() + taken@.len() == given.len(),
            outcomes@ == given.take(outcomes@.len() as int),
            forall|k: int|
                0 <= k < taken@.len() ==> (#[trigger] taken@[k]) == given[given.len() - 1 - k],
        decreases outcomes@.len(),
    {
        let ghost before = outcomes@;
        match outcomes.pop() {
            Some(o) => {
                taken.push(o);
                assert(outcomes@ == given.take(outcomes@.len() as int));
            },
            None => {},
        }
    }
    let mut i: usize = 0;
    assert(given.take(0).len() == 0);
    assert(etags@ =~= fetched(given.take(0)));
    while taken.len() > 0
        invariant
            i + taken@.len() == given.len(),
            given.len() == n,
            forall|k: int|
                0 <= k < taken@.len() ==> (#[trigger] taken@[k]) == given[given.len() - 1 - k],
            failed == crate::counting::count_if(given.take(i as int), is_failed()),
            failed <= i,
            failed + etags@.len() == i,
            etags@ == fetched(given.take(i as int)),
            failed == 0 ==> forall|k: int|
                0 <= k < i ==> #[trigger] given[k] == SourceOutcome::Fetched(etags@[k]),
            errors@ == failures_text(given.take(i as int)),
        decreases taken@.len(),
    {
        let ghost so_far = etags@;
        proof {
            crate::counting::lemma_count_step(given, i as int, is_failed());
            assert(given.take(i + 1).drop_last() == given.take(i as int));
            assert(given.take(i + 1).last() == given[i as int]);
            assert(taken@[taken@.len() - 1] == given[i as int]);
        }
        match taken.pop() {
            Some(SourceOutcome::Fetched(info)) => {
                etags.push(info);
            },
            Some(SourceOutcome::Failed { key, reason }) => {
                let ghost head = errors@;
                if failed > 0 {
                    append_chars(&mut errors, &chars_of(", "));
                }
                append_chars(&mut errors, &chars_of(key.as_str()));
                append_chars(&mut errors, &chars_of(": "));
                append_chars(&mut errors, &chars_of(reason.as_str()));
                proof {
                    if failed > 0 {
                        assert(errors@ =~= head + ", "@ + key@ + ": "@ + reason@);
                    } else {
                        assert(head =~= Seq::<char>::empty()) by {
                            lemma_no_failure_no_text(given.take(i as int));
                        }
                        assert(errors@ =~= key@ + ": "@ + reason@);
                    }
                }
                failed += 1;
            },
            None => {},
        }
        i += 1;
    }
    assert(given.take(given.len() as int) == given);
    if failed > 0 {
        let mut message = chars_of("\u{c9}checs de t\u{e9}l\u{e9}chargement: ");
        append_chars(&mut message, &errors);
        Err(text_of(&message))
    } else {
        Ok(etags)
    }
}

} // verus!
