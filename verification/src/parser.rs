use vstd::prelude::*;

verus! {

/// What the HTML parser hands back for one page: the document title, the
/// outbound links in document order resolved against the page's URL, and
/// the visible text.
pub struct ParsedPage {
    pub title: Option<String>,
    pub links: Vec<String>,
    pub text_content: String,
}

/// HTML-to-page transformation; a pure function of its two string inputs.
pub struct Parser;

/// The normal serialization of `s` as an absolute URL, or `None` where `s`
/// does not parse as one.  Names the result of `url::Url::parse`.
pub uninterp spec fn url_normal_of(s: Seq<char>) -> Option<Seq<char>>;

/// The resolution of the reference `href` against `base`, or `None` where
/// `base` is not an absolute URL or the resolution fails.  Names the result
/// of `url::Url::join` applied after parsing `base`.
pub uninterp spec fn url_join_of(base: Seq<char>, href: Seq<char>) -> Option<Seq<char>>;

/// The text of the first `title` element of the document that the HTML
/// parser reads out of `s`, or `None` where there is no such element.
pub uninterp spec fn title_of(s: Seq<char>) -> Option<Seq<char>>;

/// The `href` attribute values of the document's anchor elements, in
/// document order.
pub uninterp spec fn hrefs_of(s: Seq<char>) -> Seq<Seq<char>>;

/// The visible text of the document's body (or of the whole document where
/// there is no body element), space-joined.
pub uninterp spec fn text_of(s: Seq<char>) -> Seq<char>;

/// The normal form of `s` where it parses as an absolute URL, `s` itself
/// where it does not.
pub open spec fn normal_or_self(s: Seq<char>) -> Seq<char> {
    match url_normal_of(s) {
        Some(t) => t,
        None => s,
    }
}

/// The links of a page with anchor attribute values `hrefs`, each resolved
/// against `base`, keeping document order and silently dropping values that
/// do not resolve.
pub open spec fn resolved_links(hrefs: Seq<Seq<char>>, base: Seq<char>) -> Seq<Seq<char>>
    decreases hrefs.len(),
{
    if hrefs.len() == 0 {
        Seq::empty()
    } else {
        (match url_join_of(base, hrefs.first()) {
            Some(t) => seq![t],
            None => Seq::<Seq<char>>::empty(),
        }) + resolved_links(hrefs.drop_first(), base)
    }
}

/// View of a list of strings as a sequence of character sequences.
pub open spec fn seq_views(v: Seq<String>) -> Seq<Seq<char>> {
    v.map_values(|s: String| s@)
}

/// Relies on `url::Url::parse` followed by serialization: the result is a
/// pure function of the input, and the URL standard the crate implements
/// guarantees that a serialization parses back to itself.
#[verifier::external_body]
fn parse_url_raw(s: &str) -> (r: Option<String>)
    ensures
        r is Some <==> url_normal_of(s@) is Some,
        r matches Some(t) ==> url_normal_of(s@) == Some(t@),
        r matches Some(t) ==> url_normal_of(t@) == Some(t@),
{
    url::Url::parse(s).ok().map(String::from)
}

/// Relies on `url::Url::parse` on `base` followed by `url::Url::join` on
/// `href`: resolution per the URL standard.  A string that is already a
/// normal serialization resolves to itself against any parseable base,
/// since the parser only consults the base for references without an
/// absolute scheme-and-authority prefix.
#[verifier::external_body]
fn join_url_raw(base: &str, href: &str) -> (r: Option<String>)
    ensures
        r is Some <==> url_join_of(base@, href@) is Some,
        r matches Some(t) ==> url_join_of(base@, href@) == Some(t@),
        r matches Some(t) ==> url_normal_of(t@) == Some(t@),
        r is None ==> !(url_normal_of(base@) is Some && url_normal_of(href@) == Some(href@)),
        r matches Some(t) ==> (url_normal_of(base@) is Some && url_normal_of(href@) == Some(href@)
            ==> t@ == href@),
{
    match url::Url::parse(base) {
        Ok(b) => b.join(href).ok().map(String::from),
        Err(_) => None,
    }
}

/// Relies on scraper's HTML parsing and CSS selector matching: the
/// concatenated text of the document's first `title` element, a pure
/// function of the input string.
#[verifier::external_body]
fn scrape_title(html: &str) -> (r: Option<String>)
    ensures
        r is Some <==> title_of(html@) is Some,
        r matches Some(t) ==> title_of(html@) == Some(t@),
{
    let document = scraper::Html::parse_document(html);
    let selector = scraper::Selector::parse("title").unwrap();
    document.select(&selector).next().map(|el| el.text().collect::<String>())
}

/// Relies on scraper's HTML parsing and CSS selector matching: the `href`
/// attribute values of the anchor elements, in document order, a pure
/// function of the input string.
#[verifier::external_body]
fn scrape_hrefs(html: &str) -> (r: Vec<String>)
    ensures
        r@.len() == hrefs_of(html@).len(),
        forall|i: int| 0 <= i < r@.len() ==> (#[trigger] r@[i])@ == hrefs_of(html@)[i],
{
    let document = scraper::Html::parse_document(html);
    let selector = scraper::Selector::parse("a[href]").unwrap();
    document.select(&selector).filter_map(|el| el.value().attr("href")).map(
        |href| href.to_string(),
    ).collect()
}

/// Relies on scraper's HTML parsing and CSS selector matching: the visible
/// text of the body element (or of the whole document where no body
/// exists), space-joined, a pure function of the input string.
#[verifier::external_body]
fn scrape_text(html: &str) -> (r: String)
    ensures
        r@ == text_of(html@),
{
    let document = scraper::Html::parse_document(html);
    let selector = scraper::Selector::parse("body").unwrap();
    if let Some(body) = document.select(&selector).next() {
        body.text().collect::<Vec<_>>().join(" ")
    } else {
        document.root_element().text().collect::<Vec<_>>().join(" ")
    }
}

/// Normalize a URL string to its standard serialization, or `None` where it
/// is not an absolute URL.  Normalization is idempotent: a returned string
/// normalizes to itself.
pub fn normalize_url(s: &str) -> (r: Option<String>)
    ensures
        r is Some <==> url_normal_of(s@) is Some,
        r matches Some(t) ==> url_normal_of(s@) == Some(t@),
        r matches Some(t) ==> url_normal_of(t@) == Some(t@),
{
    parse_url_raw(s)
}

/// Resolve one hyperlink reference against a base URL.  The result, when
/// any, is a normal serialization; and a reference that is already a
/// normal absolute URL comes back unchanged, whatever parseable base it is
/// resolved against.
pub fn resolve_link(base_url: &str, href: &str) -> (r: Option<String>)
    ensures
        r is Some <==> url_join_of(base_url@, href@) is Some,
        r matches Some(t) ==> url_join_of(base_url@, href@) == Some(t@),
        r matches Some(t) ==> url_normal_of(t@) == Some(t@),
        r is None ==> !(url_normal_of(base_url@) is Some && url_normal_of(href@) == Some(href@)),
        r matches Some(t) ==> (url_normal_of(base_url@) is Some && url_normal_of(href@) == Some(
            href@,
        ) ==> t@ == href@),
{
    join_url_raw(base_url, href)
}

impl Parser {
    /// Turn one page of HTML into its title, outbound links, and visible
    /// text.  Links are the anchor `href` values in document order, each
    /// resolved against `base_url`; values that fail to resolve are
    /// dropped.  Where `base_url` itself is not an absolute URL, the raw
    /// attribute values are kept as they stand.
    pub fn parse(html_content: &str, base_url: &str) -> (r: ParsedPage)
        ensures
            r.title is Some <==> title_of(html_content@) is Some,
            r.title matches Some(t) ==> title_of(html_content@) == Some(t@),
            r.text_content@ == text_of(html_content@),
            url_normal_of(base_url@) is Some ==> seq_views(r.links@) == resolved_links(
                hrefs_of(html_content@),
                base_url@,
            ),
            url_normal_of(base_url@) is None ==> seq_views(r.links@) == hrefs_of(html_content@),
    {
        let title = scrape_title(html_content);
        let text_content = scrape_text(html_content);
        let hrefs = scrape_hrefs(html_content);
        let base_ok = match normalize_url(base_url) {
            Some(_) => true,
            None => false,
        };
        let ghost all: Seq<Seq<char>> = hrefs_of(html_content@);
        let mut links: Vec<String> = Vec::new();
        if base_ok {
            let mut i: usize = 0;
            proof {
                assert(all.skip(0) =~= all);
                assert(seq_views(links@) =~= Seq::<Seq<char>>::empty());
                assert(seq_views(links@) + resolved_links(all, base_url@) =~= resolved_links(
                    all,
                    base_url@,
                ));
            }
            while i < hrefs.len()
                invariant
                    i <= hrefs@.len(),
                    hrefs@.len() == all.len(),
                    forall|k: int| 0 <= k < all.len() ==> (#[trigger] hrefs@[k])@ == all[k],
                    seq_views(links@) + resolved_links(all.skip(i as int), base_url@)
                        == resolved_links(all, base_url@),
                decreases hrefs@.len() - i,
            {
                let ghost rest = all.skip(i as int);
                proof {
                    assert(rest.first() == all[i as int]);
                    assert(rest.drop_first() =~= all.skip(i as int + 1));
                }
                match resolve_link(base_url, hrefs[i].as_str()) {
                    Some(t) => {
                        let ghost pre = links@;
                        links.push(t);
                        proof {
                            assert(seq_views(links@) =~= seq_views(pre).push(t@));
                            assert(seq_views(links@) + resolved_links(
                                all.skip(i as int + 1),
                                base_url@,
                            ) =~= seq_views(pre) + resolved_links(rest, base_url@));
                        }
                    },
                    None => {
                        proof {
                            assert(resolved_links(rest, base_url@) == resolved_links(
                                all.skip(i as int + 1),
                                base_url@,
                            ));
                        }
                    },
                }
                i += 1;
            }
            proof {
                assert(all.skip(all.len() as int) =~= Seq::<Seq<char>>::empty());
                assert(seq_views(links@) + resolved_links(
                    Seq::<Seq<char>>::empty(),
                    base_url@,
                ) =~= seq_views(links@));
            }
        } else {
            let mut i: usize = 0;
            while i < hrefs.len()
                invariant
                    i <= hrefs@.len(),
                    hrefs@.len() == all.len(),
                    forall|k: int| 0 <= k < all.len() ==> (#[trigger] hrefs@[k])@ == all[k],
                    seq_views(links@) =~= all.take(i as int),
                decreases hrefs@.len() - i,
            {
                let ghost pre = links@;
                let href = hrefs[i].clone();
                links.push(href);
                proof {
                    assert(seq_views(links@) =~= seq_views(pre).push(hrefs@[i as int]@));
                    assert(seq_views(links@) =~= all.take(i as int + 1));
                }
                i += 1;
            }
            proof {
                assert(all.take(all.len() as int) =~= all);
            }
        }
        ParsedPage { title, links, text_content }
    }
}

} // verus!
