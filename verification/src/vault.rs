//! The secret resolver and the substitution engine. Each parsed command is
//! mapped to a request URL; responses are cached per URL so a path shared by
//! several directives is requested once; the requested key is extracted from
//! the response document; and the resolved values are substituted back into
//! the original text. Issuing the requests themselves is an external
//! capability: the functions here work on the responses as plain values.
use vstd::prelude::*;
use vstd::string::*;

use crate::parser::CommandView;
use crate::parser::ParsedCommand;
use crate::parser::ParsedView;
use crate::parser::VaultCommand;
use crate::parser::spec_parse;
use crate::parser::VaultCommandParser;
use crate::text::replace_all;
use crate::text::replace_all_str;
use crate::text::str_eq;
use crate::text::trim_end_slashes;
use crate::text::trim_end_slashes_str;
use crate::text::trim_start_slashes;
use crate::text::trim_start_slashes_str;

verus! {

/// The view of a key-value secret document: its fields in order.
pub type DocView = Seq<(Seq<char>, Seq<char>)>;

/// The view of a response table: for each URL, the document a request
/// returns, or `None` for a failed or undecodable response.
pub type StoreView = Seq<(Seq<char>, Option<DocView>)>;

pub open spec fn doc_view(d: Seq<(String, String)>) -> DocView {
    d.map_values(|p: (String, String)| (p.0@, p.1@))
}

pub open spec fn store_view(st: Seq<(String, Option<Vec<(String, String)>>)>) -> StoreView {
    st.map_values(
        |e: (String, Option<Vec<(String, String)>>)|
            (
                e.0@,
                match e.1 {
                    Some(d) => Some(doc_view(d@)),
                    None => None,
                },
            ),
    )
}

/// Whether the document holds the key.
pub open spec fn spec_doc_has_key(d: DocView, key: Seq<char>) -> bool
    decreases d.len(),
{
    if d.len() == 0 {
        false
    } else if d.first().0 == key {
        true
    } else {
        spec_doc_has_key(d.drop_first(), key)
    }
}

/// The value of `key` in the document; the empty string when the key is
/// absent. Absence is a sentinel, not an error.
pub open spec fn spec_doc_value(d: DocView, key: Seq<char>) -> Seq<char>
    decreases d.len(),
{
    if d.len() == 0 {
        Seq::empty()
    } else if d.first().0 == key {
        d.first().1
    } else {
        spec_doc_value(d.drop_first(), key)
    }
}

pub proof fn lemma_doc_value_absent(d: DocView, key: Seq<char>)
    requires
        !spec_doc_has_key(d, key),
    ensures
        spec_doc_value(d, key) == Seq::<char>::empty(),
    decreases d.len(),
{
    if d.len() > 0 {
        lemma_doc_value_absent(d.drop_first(), key);
    }
}

/// The request URL a command's path resolves to on `host` (the host given
/// without its trailing slashes): the path is addressed under the host with
/// its own surrounding slashes stripped.
pub open spec fn spec_url(host: Seq<char>, path: Seq<char>) -> Seq<char> {
    host + "/"@ + trim_end_slashes(trim_start_slashes(path))
}

/// What a request to `url` returns under the response table `st`: the first
/// entry for the URL decides; a URL without an entry is a failed request.
pub open spec fn spec_store_response(st: StoreView, url: Seq<char>) -> Option<DocView>
    decreases st.len(),
{
    if st.len() == 0 {
        None
    } else if st.first().0 == url {
        st.first().1
    } else {
        spec_store_response(st.drop_first(), url)
    }
}

/// The cache contents as a map, built from the entry list.
pub open spec fn cache_map_of(entries: Seq<(String, Vec<(String, String)>)>) -> Map<
    Seq<char>,
    DocView,
>
    decreases entries.len(),
{
    if entries.len() == 0 {
        Map::empty()
    } else {
        cache_map_of(entries.drop_last()).insert(
            entries.last().0@,
            doc_view(entries.last().1@),
        )
    }
}

pub open spec fn urls_unique(entries: Seq<(String, Vec<(String, String)>)>) -> bool {
    forall|i: int, j: int|
        0 <= i < j < entries.len() ==> entries[i].0@ != entries[j].0@
}

pub proof fn lemma_cache_map_contains(entries: Seq<(String, Vec<(String, String)>)>, u: Seq<char>)
    ensures
        cache_map_of(entries).contains_key(u) <==> exists|j: int|
            0 <= j < entries.len() && entries[j].0@ == u,
    decreases entries.len(),
{
    if entries.len() > 0 {
        lemma_cache_map_contains(entries.drop_last(), u);
        if entries.last().0@ == u {
            assert(entries[entries.len() - 1].0@ == u);
        } else if cache_map_of(entries).contains_key(u) {
            let j = choose|j: int| 0 <= j < entries.drop_last().len() && entries.drop_last()[j].0@ == u;
            assert(entries[j].0@ == u);
        } else if exists|j: int| 0 <= j < entries.len() && entries[j].0@ == u {
            let j = choose|j: int| 0 <= j < entries.len() && entries[j].0@ == u;
            assert(entries.drop_last()[j].0@ == u);
        }
    }
}

pub proof fn lemma_cache_map_get(
    entries: Seq<(String, Vec<(String, String)>)>,
    u: Seq<char>,
    j: int,
)
    requires
        urls_unique(entries),
        0 <= j < entries.len(),
        entries[j].0@ == u,
    ensures
        cache_map_of(entries).contains_key(u),
        cache_map_of(entries)[u] == doc_view(entries[j].1@),
    decreases entries.len(),
{
    if j == entries.len() - 1 {
    } else {
        assert(entries.drop_last()[j] == entries[j]);
        lemma_cache_map_get(entries.drop_last(), u, j);
        assert(entries.last().0@ != u);
    }
}

/// The HTTP methods a command can require of the store.
#[derive(Debug)]
pub enum HttpMethod {
    Get,
}

/// One resolution run's state: the per-URL response cache. Empty at the
/// start of a run; a URL is cached at its first successful response and
/// every later directive sharing it reuses the cached document.
pub struct VaultClient {
    cache: Vec<(String, Vec<(String, String)>)>,
}

impl VaultClient {
    /// The cache as a map from request URL to cached document.
    pub closed spec fn cache_map(&self) -> Map<Seq<char>, DocView> {
        cache_map_of(self.cache@)
    }

    /// Well-formedness: no URL is cached twice.
    pub closed spec fn wf(&self) -> bool {
        urls_unique(self.cache@)
    }

    pub fn new() -> (r: Self)
        ensures
            r.wf(),
            r.cache_map() == Map::<Seq<char>, DocView>::empty(),
    {
        VaultClient { cache: Vec::new() }
    }

    /// The cached document for `url`, if that URL was already resolved.
    pub fn cached_doc<'a>(&'a self, url: &str) -> (r: Option<&'a Vec<(String, String)>>)
        requires
            self.wf(),
        ensures
            match r {
                None => !self.cache_map().contains_key(url@),
                Some(d) => self.cache_map().contains_key(url@) && doc_view(d@)
                    == self.cache_map()[url@],
            },
    {
        let mut j: usize = 0;
        while j < self.cache.len()
            invariant
                j <= self.cache.len(),
                self.wf(),
                forall|t: int| 0 <= t < j ==> self.cache@[t].0@ != url@,
            decreases self.cache.len() - j,
        {
            if str_eq(self.cache[j].0.as_str(), url) {
                proof {
                    lemma_cache_map_get(self.cache@, url@, j as int);
                }
                return Some(&self.cache[j].1);
            }
            j = j + 1;
        }
        proof {
            lemma_cache_map_contains(self.cache@, url@);
        }
        None
    }

    /// Caches `doc` as the response for `url`. A URL already cached keeps
    /// the document of its first response.
    pub fn store_response(&mut self, url: String, doc: Vec<(String, String)>)
        requires
            old(self).wf(),
        ensures
            final(self).wf(),
            final(self).cache_map() == (if old(self).cache_map().contains_key(url@) {
                old(self).cache_map()
            } else {
                old(self).cache_map().insert(url@, doc_view(doc@))
            }),
    {
        if self.cached_doc(url.as_str()).is_some() {
            return ;
        }
        proof {
            lemma_cache_map_contains(self.cache@, url@);
        }
        let ghost old_entries = self.cache@;
        self.cache.push((url, doc));
        proof {
            assert(self.cache@.drop_last() =~= old_entries);
        }
    }

    /// Derives the request for one command: the method, the URL addressing
    /// the command's path on `host` (given without trailing slashes), and
    /// the key to extract from the response.
    pub fn get_url_by_command(&self, parsed_command: &ParsedCommand, host: &String) -> (r: (
        HttpMethod,
        String,
        String,
    ))
        ensures
            r.1@ == spec_url(host@, parsed_command@.command.path()),
            r.2@ == parsed_command@.command.key(),
    {
        match parsed_command.command() {
            VaultCommand::Lookup { path, key } => {
                let stripped_start = trim_start_slashes_str(path.as_str());
                let stripped = trim_end_slashes_str(stripped_start.as_str());
                let url = String::from_str(host.as_str()).concat("/").concat(stripped.as_str());
                (HttpMethod::Get, url, key.clone())
            },
        }
    }
}

/// Looks up in the document the value stored under `key`; the empty string
/// stands for an absent key.
pub fn doc_lookup(doc: &Vec<(String, String)>, key: &str) -> (r: String)
    ensures
        r@ == spec_doc_value(doc_view(doc@), key@),
{
    let ghost dv = doc_view(doc@);
    let mut j: usize = 0;
    proof {
        assert(dv.skip(0) =~= dv);
    }
    while j < doc.len()
        invariant
            j <= doc.len(),
            dv == doc_view(doc@),
            spec_doc_value(dv, key@) == spec_doc_value(dv.skip(j as int), key@),
        decreases doc.len() - j,
    {
        proof {
            assert(dv.skip(j as int).drop_first() =~= dv.skip(j + 1));
        }
        if str_eq(doc[j].0.as_str(), key) {
            return doc[j].1.clone();
        }
        j = j + 1;
    }
    proof {
        assert(dv.skip(doc@.len() as int) =~= Seq::<(Seq<char>, Seq<char>)>::empty());
    }
    String::new()
}

/// One textual replacement pass, pair by pair in order: every occurrence of
/// each raw match is replaced by its resolved value.
pub open spec fn apply_substitutions(s: Seq<char>, pairs: DocView) -> Seq<char>
    decreases pairs.len(),
{
    if pairs.len() == 0 {
        s
    } else {
        apply_substitutions(
            replace_all(s, pairs.first().0, pairs.first().1),
            pairs.drop_first(),
        )
    }
}

/// Applies every (raw match, value) pair to the document.
pub fn substitute(document: &str, pairs: &Vec<(String, String)>) -> (r: String)
    ensures
        r@ == apply_substitutions(document@, doc_view(pairs@)),
{
    let ghost pv = doc_view(pairs@);
    let mut data = String::from_str(document);
    let mut j: usize = 0;
    proof {
        assert(pv.skip(0) =~= pv);
    }
    while j < pairs.len()
        invariant
            j <= pairs.len(),
            pv == doc_view(pairs@),
            apply_substitutions(document@, pv) == apply_substitutions(
                data@,
                pv.skip(j as int),
            ),
        decreases pairs.len() - j,
    {
        proof {
            assert(pv.skip(j as int).drop_first() =~= pv.skip(j + 1));
        }
        data = replace_all_str(data.as_str(), pairs[j].0.as_str(), pairs[j].1.as_str());
        j = j + 1;
    }
    proof {
        assert(pv.skip(pairs@.len() as int) =~= Seq::<(Seq<char>, Seq<char>)>::empty());
    }
    data
}

/// The substitution pairs a run produces for `cmds` under the response
/// table: each command resolves to the value of its key in the response for
/// its URL; a command whose value comes out empty — a failed response or an
/// absent key — contributes no pair, so its text survives unchanged.
pub open spec fn spec_pairs(cmds: Seq<ParsedView>, host: Seq<char>, st: StoreView) -> DocView
    decreases cmds.len(),
{
    if cmds.len() == 0 {
        Seq::empty()
    } else {
        let c = cmds.first();
        let url = spec_url(host, c.command.path());
        let v = match spec_store_response(st, url) {
            Some(doc) => spec_doc_value(doc, c.command.key()),
            None => Seq::empty(),
        };
        let rest = spec_pairs(cmds.drop_first(), host, st);
        if v.len() > 0 {
            Seq::empty().push((c.raw, v)) + rest
        } else {
            rest
        }
    }
}

/// How many requests a run over `cmds` issues, given the URLs already
/// cached: a cached URL is never requested again, and a URL is cached
/// exactly when its response decodes.
pub open spec fn spec_fetches(
    cmds: Seq<ParsedView>,
    host: Seq<char>,
    st: StoreView,
    cached: Set<Seq<char>>,
) -> int
    decreases cmds.len(),
{
    if cmds.len() == 0 {
        0
    } else {
        let url = spec_url(host, cmds.first().command.path());
        if cached.contains(url) {
            spec_fetches(cmds.drop_first(), host, st, cached)
        } else {
            1 + spec_fetches(
                cmds.drop_first(),
                host,
                st,
                match spec_store_response(st, url) {
                    Some(_) => cached.insert(url),
                    None => cached,
                },
            )
        }
    }
}

/// The response table's answer for `url`, as the run reads it: the document
/// on a decodable success, `None` on a failed or undecodable response.
fn store_lookup<'a>(
    store: &'a Vec<(String, Option<Vec<(String, String)>>)>,
    url: &str,
) -> (r: Option<&'a Vec<(String, String)>>)
    ensures
        match r {
            None => spec_store_response(store_view(store@), url@) is None,
            Some(d) => spec_store_response(store_view(store@), url@) == Some(doc_view(d@)),
        },
{
    let ghost sv = store_view(store@);
    let mut j: usize = 0;
    proof {
        assert(sv.skip(0) =~= sv);
    }
    while j < store.len()
        invariant
            j <= store.len(),
            sv == store_view(store@),
            spec_store_response(sv, url@) == spec_store_response(sv.skip(j as int), url@),
        decreases store.len() - j,
    {
        proof {
            assert(sv.skip(j as int).drop_first() =~= sv.skip(j + 1));
        }
        if str_eq(store[j].0.as_str(), url) {
            return match &store[j].1 {
                Some(d) => Some(d),
                None => None,
            };
        }
        j = j + 1;
    }
    proof {
        assert(sv.skip(store@.len() as int) =~= Seq::<(Seq<char>, Option<DocView>)>::empty());
    }
    None
}

fn clone_doc(d: &Vec<(String, String)>) -> (r: Vec<(String, String)>)
    ensures
        r@ == d@,
{
    let mut out: Vec<(String, String)> = Vec::new();
    let mut j: usize = 0;
    while j < d.len()
        invariant
            j <= d.len(),
            out@ == d@.subrange(0, j as int),
        decreases d.len() - j,
    {
        let pair = &d[j];
        out.push((pair.0.clone(), pair.1.clone()));
        proof {
            assert(out@ =~= d@.subrange(0, j + 1));
        }
        j = j + 1;
    }
    proof {
        assert(d@.subrange(0, d@.len() as int) =~= d@);
    }
    out
}

/// Resolves every directive of `data` against a response table — what a
/// request to each URL returns, `None` standing for a failed or undecodable
/// response — and substitutes the resolved values into the text. Returns
/// the resolved document and the number of requests the run issued: the
/// path-level cache guarantees at most one request per distinct URL that
/// responds, however many directives share it.
pub fn resolve_document(
    data: &str,
    host: &str,
    store: &Vec<(String, Option<Vec<(String, String)>>)>,
) -> (r: (String, usize))
    ensures
        r.0@ == apply_substitutions(
            data@,
            spec_pairs(spec_parse(data@), trim_end_slashes(host@), store_view(store@)),
        ),
        r.1 == spec_fetches(
            spec_parse(data@),
            trim_end_slashes(host@),
            store_view(store@),
            Set::empty(),
        ),
{
    let host_n = trim_end_slashes_str(host);
    let parser = VaultCommandParser::new();
    let commands = parser.parse(data);
    let ghost cmds = spec_parse(data@);
    let ghost hv = trim_end_slashes(host@);
    let ghost sv = store_view(store@);
    let mut client = VaultClient::new();
    let mut pairs: Vec<(String, String)> = Vec::new();
    let mut fetches: usize = 0;
    let mut j: usize = 0;
    proof {
        assert(cmds.skip(0) =~= cmds);
        assert(doc_view(pairs@) =~= Seq::<(Seq<char>, Seq<char>)>::empty());
        assert(doc_view(pairs@) + spec_pairs(cmds, hv, sv) =~= spec_pairs(cmds, hv, sv));
        assert(client.cache_map().dom() =~= Set::<Seq<char>>::empty());
    }
    while j < commands.len()
        invariant
            j <= commands.len(),
            fetches <= j,
            cmds == crate::parser::views_of(commands@),
            hv == host_n@,
            sv == store_view(store@),
            client.wf(),
            spec_pairs(cmds, hv, sv) == doc_view(pairs@) + spec_pairs(
                cmds.skip(j as int),
                hv,
                sv,
            ),
            spec_fetches(cmds, hv, sv, Set::empty()) == fetches + spec_fetches(
                cmds.skip(j as int),
                hv,
                sv,
                client.cache_map().dom(),
            ),
            forall|u: Seq<char>|
                client.cache_map().contains_key(u) ==> spec_store_response(sv, u) == Some(
                    client.cache_map()[u],
                ),
        decreases commands.len() - j,
    {
        proof {
            assert(cmds.skip(j as int).first() == cmds[j as int]);
            assert(cmds.skip(j as int).drop_first() =~= cmds.skip(j + 1));
        }
        let (_method, url, key) = client.get_url_by_command(&commands[j], &host_n);
        let ghost c = cmds[j as int];
        let ghost u = spec_url(hv, c.command.path());
        let ghost old_dom = client.cache_map().dom();
        let ghost old_fetch_rest = spec_fetches(cmds.skip(j as int), hv, sv, old_dom);
        let ghost expected = (match spec_store_response(sv, u) {
            Some(doc) => spec_doc_value(doc, c.command.key()),
            None => Seq::<char>::empty(),
        });
        proof {
            assert(url@ == u);
            assert(key@ == c.command.key());
        }
        let value: String;
        match client.cached_doc(url.as_str()) {
            Some(d) => {
                value = doc_lookup(d, key.as_str());
                proof {
                    assert(old_dom.contains(u));
                    assert(spec_store_response(sv, u) == Some(client.cache_map()[u]));
                    assert(value@ == expected);
                    assert(old_fetch_rest == spec_fetches(
                        cmds.skip(j + 1),
                        hv,
                        sv,
                        client.cache_map().dom(),
                    ));
                }
            },
            None => {
                proof {
                    assert(!old_dom.contains(u));
                }
                fetches = fetches + 1;
                match store_lookup(store, url.as_str()) {
                    Some(d) => {
                        value = doc_lookup(d, key.as_str());
                        let owned = clone_doc(d);
                        client.store_response(url, owned);
                        proof {
                            assert(value@ == expected);
                            assert(client.cache_map().dom() =~= old_dom.insert(u));
                            assert(old_fetch_rest == 1 + spec_fetches(
                                cmds.skip(j + 1),
                                hv,
                                sv,
                                client.cache_map().dom(),
                            ));
                        }
                    },
                    None => {
                        value = String::new();
                        proof {
                            assert(value@ == expected);
                            assert(old_fetch_rest == 1 + spec_fetches(
                                cmds.skip(j + 1),
                                hv,
                                sv,
                                client.cache_map().dom(),
                            ));
                        }
                    },
                }
            },
        }
        if !value.as_str().is_empty() {
            let raw = commands[j].regex_match().clone();
            let ghost old_pairs = doc_view(pairs@);
            pairs.push((raw, value));
            proof {
                assert(doc_view(pairs@) =~= old_pairs.push((c.raw, expected)));
                assert(doc_view(pairs@) + spec_pairs(cmds.skip(j + 1), hv, sv) =~= old_pairs
                    + (Seq::empty().push((c.raw, expected)) + spec_pairs(
                    cmds.skip(j + 1),
                    hv,
                    sv,
                )));
            }
        }
        j = j + 1;
    }
    proof {
        assert(cmds.skip(commands@.len() as int) =~= Seq::<ParsedView>::empty());
        assert(doc_view(pairs@) + Seq::<(Seq<char>, Seq<char>)>::empty() =~= doc_view(pairs@));
    }
    let out = substitute(data, &pairs);
    (out, fetches)
}

/// The substitution map holds no empty value: a directive that resolved to
/// nothing — a failed response or an absent key — is skipped, never
/// replaced by a blank.
pub proof fn lemma_pairs_hold_values(cmds: Seq<ParsedView>, host: Seq<char>, st: StoreView)
    ensures
        forall|t: int|
            0 <= t < spec_pairs(cmds, host, st).len() ==> #[trigger] spec_pairs(
                cmds,
                host,
                st,
            )[t].1.len() > 0,
    decreases cmds.len(),
{
    if cmds.len() > 0 {
        lemma_pairs_hold_values(cmds.drop_first(), host, st);
        let c = cmds.first();
        let url = spec_url(host, c.command.path());
        let v = match spec_store_response(st, url) {
            Some(doc) => spec_doc_value(doc, c.command.key()),
            None => Seq::<char>::empty(),
        };
        let rest = spec_pairs(cmds.drop_first(), host, st);
        if v.len() > 0 {
            assert forall|t: int|
                0 <= t < spec_pairs(cmds, host, st).len() implies #[trigger] spec_pairs(
                cmds,
                host,
                st,
            )[t].1.len() > 0 by {
                if t > 0 {
                    assert(spec_pairs(cmds, host, st)[t] == rest[t - 1]);
                }
            }
        }
    }
}

/// Two directives that share a path but ask for different keys derive the
/// same request URL, so a run that resolves both issues exactly one request
/// for that path when its URL responds.
pub proof fn lemma_shared_path_single_fetch(
    host: Seq<char>,
    path: Seq<char>,
    raw1: Seq<char>,
    raw2: Seq<char>,
    key1: Seq<char>,
    key2: Seq<char>,
    st: StoreView,
)
    requires
        spec_store_response(st, spec_url(host, path)) is Some,
    ensures
        spec_fetches(
            seq![
                (ParsedView { raw: raw1, command: CommandView::Lookup { path, key: key1 } }),
                (ParsedView { raw: raw2, command: CommandView::Lookup { path, key: key2 } }),
            ],
            host,
            st,
            Set::empty(),
        ) == 1,
{
    let c1 = ParsedView { raw: raw1, command: CommandView::Lookup { path, key: key1 } };
    let c2 = ParsedView { raw: raw2, command: CommandView::Lookup { path, key: key2 } };
    let cmds = seq![c1, c2];
    let u = spec_url(host, path);
    assert(cmds.first() == c1);
    assert(cmds.drop_first() =~= seq![c2]);
    assert(!Set::<Seq<char>>::empty().contains(u));
    let cached1 = Set::<Seq<char>>::empty().insert(u);
    assert(cached1.contains(u));
    assert(seq![c2].first() == c2);
    assert(seq![c2].drop_first() =~= Seq::<ParsedView>::empty());
    assert(spec_fetches(Seq::<ParsedView>::empty(), host, st, cached1) == 0);
    assert(spec_fetches(seq![c2], host, st, cached1) == 0);
    assert(spec_fetches(cmds, host, st, Set::empty()) == 1 + spec_fetches(
        seq![c2],
        host,
        st,
        cached1,
    ));
}

/// A directive whose key is absent from its resolved document contributes
/// no substitution pair, and a document whose only command it is passes
/// through a run unchanged: the placeholder text survives.
pub proof fn lemma_absent_key_leaves_text(
    doc: Seq<char>,
    host: Seq<char>,
    st: StoreView,
    c: ParsedView,
)
    requires
        spec_parse(doc) == seq![c],
        match spec_store_response(st, spec_url(host, c.command.path())) {
            Some(d) => !spec_doc_has_key(d, c.command.key()),
            None => true,
        },
    ensures
        spec_pairs(spec_parse(doc), host, st) == Seq::<(Seq<char>, Seq<char>)>::empty(),
        apply_substitutions(doc, spec_pairs(spec_parse(doc), host, st)) == doc,
{
    let cmds = seq![c];
    assert(cmds.first() == c);
    assert(cmds.drop_first() =~= Seq::<ParsedView>::empty());
    let u = spec_url(host, c.command.path());
    match spec_store_response(st, u) {
        Some(d) => {
            lemma_doc_value_absent(d, c.command.key());
        },
        None => {},
    }
    let none: DocView = Seq::empty();
    assert(spec_pairs(Seq::<ParsedView>::empty(), host, st) == none);
    assert(spec_pairs(cmds, host, st) == none);
    assert(apply_substitutions(doc, none) == doc);
}

/// A document none of whose directive spans parses to a command — unknown
/// command names, wrong arities, or no directives at all — comes out of a
/// run unchanged, whatever the store returns.
pub proof fn lemma_no_valid_directives_unchanged(doc: Seq<char>, host: Seq<char>, st: StoreView)
    requires
        crate::parser::successes(crate::parser::spans_from(doc, 0)) == Seq::<
            ParsedView,
        >::empty(),
    ensures
        spec_parse(doc) == Seq::<ParsedView>::empty(),
        apply_substitutions(doc, spec_pairs(spec_parse(doc), host, st)) == doc,
{
    assert(crate::parser::dedup_views(Seq::<ParsedView>::empty()) =~= Seq::<
        ParsedView,
    >::empty());
}

} // verus!
