use vstd::prelude::*;

use regex::Regex;
use soup::{NodeExt, QueryBuilderExt, Soup};

verus! {

#[verifier::external_type_specification]
#[verifier::external_body]
pub struct ExRegex(regex::Regex);

/// The `href` values of the anchors of an HTML document, in document order.
pub uninterp spec fn anchor_hrefs(body: Seq<char>) -> Seq<Seq<char>>;

/// What `Url::parse` makes of a string: the serialized URL, or whether the
/// failure was a relative reference without a base.
pub uninterp spec fn url_parse(s: Seq<char>) -> Result<Seq<char>, bool>;

/// A reference resolved against a base URL, serialized.
pub uninterp spec fn url_join(base: Seq<char>, href: Seq<char>) -> Option<Seq<char>>;

/// A URL with its fragment removed, serialized.
pub uninterp spec fn url_defragment(u: Seq<char>) -> Option<Seq<char>>;

/// Relies on soup: `Soup::new` parses `body` as HTML, and the query
/// `tag("a").attr_name("href").find_all()` yields the anchors that carry an
/// `href`, whose value `get("href")` reads. The result depends on `body` alone.
#[verifier::external_body]
fn hrefs_in(body: &str) -> (r: Vec<String>)
    ensures
        r@.map_values(|s: String| s@) == anchor_hrefs(body@),
{
    Soup::new(body).tag("a").attr_name("href").find_all().map(|a| a.get("href").unwrap_or_default()).collect()
}

/// Relies on url's `Url::parse`: the serialized URL on success; on failure,
/// whether the error is `ParseError::RelativeUrlWithoutBase`.
#[verifier::external_body]
fn parse_url(s: &str) -> (r: Result<String, bool>)
    ensures
        match r {
            Ok(u) => url_parse(s@) == Ok::<Seq<char>, bool>(u@),
            Err(b) => url_parse(s@) == Err::<Seq<char>, bool>(b),
        },
{
    match url::Url::parse(s) {
        Ok(u) => Ok(u.into()),
        Err(url::ParseError::RelativeUrlWithoutBase) => Err(true),
        Err(_) => Err(false),
    }
}

/// Relies on url's `Url::join`: `href` resolved against the URL that `base`
/// parses to, serialized; `None` when either step fails.
#[verifier::external_body]
fn join_url(base: &str, href: &str) -> (r: Option<String>)
    ensures
        r matches Some(u) ==> url_join(base@, href@) == Some(u@),
        r is None ==> url_join(base@, href@) is None,
{
    match url::Url::parse(base).and_then(|b| b.join(href)) {
        Ok(u) => Some(u.into()),
        Err(_) => None,
    }
}

/// Relies on url's `Url::set_fragment(None)`: the URL that `u` parses to,
/// without its fragment, serialized; `None` when `u` does not parse.
#[verifier::external_body]
fn strip_fragment(u: &str) -> (r: Option<String>)
    ensures
        r matches Some(a) ==> url_defragment(u@) == Some(a@),
        r is None ==> url_defragment(u@) is None,
{
    match url::Url::parse(u) {
        Ok(mut x) => {
            x.set_fragment(None);
            Some(x.into())
        },
        Err(_) => None,
    }
}

/// Whether a compiled pattern matches somewhere in a text.
pub uninterp spec fn regex_accepts(re: Regex, s: Seq<char>) -> bool;

/// Relies on regex's `Regex::is_match`: whether the pattern matches somewhere
/// in `s`; the answer depends on the pattern and the text alone.
#[verifier::external_body]
fn pattern_matches(re: &Regex, s: &str) -> (r: bool)
    ensures
        r == regex_accepts(*re, s@),
{
    re.is_match(s)
}

/// The absolute address a link reference names: parsed as it stands, or, when
/// it is relative, resolved against the page's address.
pub open spec fn resolve_href(page: Seq<char>, href: Seq<char>) -> Option<Seq<char>> {
    match url_parse(href) {
        Ok(u) => Some(u),
        Err(true) => url_join(page, href),
        Err(false) => None,
    }
}

/// The address a link reference leads to, without its fragment.
pub open spec fn link_address(page: Seq<char>, href: Seq<char>) -> Option<Seq<char>> {
    match resolve_href(page, href) {
        Some(u) => url_defragment(u),
        None => None,
    }
}

/// The addresses that the references `hrefs` of a page lead to, in order,
/// leaving out those that do not resolve.
pub open spec fn page_links(page: Seq<char>, hrefs: Seq<Seq<char>>) -> Seq<Seq<char>>
    decreases hrefs.len(),
{
    if hrefs.len() == 0 {
        Seq::empty()
    } else {
        let front = page_links(page, hrefs.drop_last());
        match link_address(page, hrefs.last()) {
            Some(a) => front.push(a),
            None => front,
        }
    }
}

/// Whether the link that a reference leads to is kept: the address it resolves
/// to, before its fragment is removed, matches `pattern`; never without one.
pub open spec fn link_kept(page: Seq<char>, href: Seq<char>, pattern: Option<&Regex>) -> bool {
    match (pattern, resolve_href(page, href)) {
        (Some(re), Some(u)) => regex_accepts(*re, u),
        _ => false,
    }
}

/// The keep flags of the links in `page_links(page, hrefs)`, in the same order.
pub open spec fn page_flags(page: Seq<char>, hrefs: Seq<Seq<char>>, pattern: Option<&Regex>) -> Seq<bool>
    decreases hrefs.len(),
{
    if hrefs.len() == 0 {
        Seq::empty()
    } else {
        let front = page_flags(page, hrefs.drop_last(), pattern);
        match link_address(page, hrefs.last()) {
            Some(a) => front.push(link_kept(page, hrefs.last(), pattern)),
            None => front,
        }
    }
}

/// The result of `select_children` over `links` with flags `keep`.
pub open spec fn chosen(links: Seq<Seq<char>>, keep: Seq<bool>, limit: Option<usize>) -> Seq<Seq<char>> {
    first_distinct(leading(kept_links(links, keep), limit))
}

/// The candidates whose flag in `keep` is set, in order.
pub open spec fn kept_links(candidates: Seq<Seq<char>>, keep: Seq<bool>) -> Seq<Seq<char>>
    decreases candidates.len(),
{
    if candidates.len() == 0 {
        Seq::empty()
    } else {
        let front = kept_links(candidates.drop_last(), keep.take(candidates.len() - 1));
        if keep[candidates.len() - 1] {
            front.push(candidates.last())
        } else {
            front
        }
    }
}

/// The elements of `s` without repeats, each where it first occurs.
pub open spec fn first_distinct(s: Seq<Seq<char>>) -> Seq<Seq<char>>
    decreases s.len(),
{
    if s.len() == 0 {
        Seq::empty()
    } else {
        let front = first_distinct(s.drop_last());
        if front.contains(s.last()) {
            front
        } else {
            front.push(s.last())
        }
    }
}

/// At most `limit` leading elements of `s`; all of them when there is no limit.
pub open spec fn leading(s: Seq<Seq<char>>, limit: Option<usize>) -> Seq<Seq<char>> {
    match limit {
        Some(n) if n < s.len() => s.take(n as int),
        _ => s,
    }
}

/// The children to crawl from a page fetched at `depth`. At or beyond
/// `max_depth` there are none. Otherwise the candidate links whose `keep` flag
/// is set are taken in order, at most `limit` of them, and repeats are
/// dropped.
pub fn select_children(
    depth: usize,
    max_depth: usize,
    candidates: &Vec<String>,
    keep: &Vec<bool>,
    limit: Option<usize>,
) -> (r: Option<Vec<String>>)
    requires
        keep@.len() == candidates@.len(),
    ensures
        depth >= max_depth ==> r is None,
        depth < max_depth ==> (r matches Some(v) && v@.map_values(|s: String| s@) == first_distinct(
            leading(kept_links(candidates@.map_values(|s: String| s@), keep@), limit),
        )),
{
    if depth >= max_depth {
        return None;
    }
    let ghost cv = candidates@.map_values(|s: String| s@);
    let mut out: Vec<String> = Vec::new();
    let mut taken: usize = 0;
    let mut i: usize = 0;
    while i < candidates.len()
        invariant
            i <= candidates@.len() == keep@.len(),
            cv == candidates@.map_values(|s: String| s@),
            taken as int == leading(kept_links(cv.take(i as int), keep@.take(i as int)), limit).len(),
            taken <= i,
            out@.map_values(|s: String| s@) == first_distinct(
                leading(kept_links(cv.take(i as int), keep@.take(i as int)), limit),
            ),
        decreases candidates@.len() - i,
    {
        let ghost k0 = kept_links(cv.take(i as int), keep@.take(i as int));
        let ghost l0 = leading(k0, limit);
        let ghost ov = out@.map_values(|s: String| s@);
        assert(cv.take(i + 1).drop_last() =~= cv.take(i as int));
        assert(keep@.take(i + 1).take(i as int) =~= keep@.take(i as int));
        assert(cv.take(i + 1).last() == cv[i as int]);
        let ghost k1 = kept_links(cv.take(i + 1), keep@.take(i + 1));
        let room = match limit {
            Some(n) => taken < n,
            None => true,
        };
        if keep[i] && room {
            assert(k1 == k0.push(cv[i as int]));
            assert(l0 == k0);
            assert(leading(k1, limit) == k1);
            assert(k1.drop_last() =~= k0);
            let mut found = false;
            let mut j: usize = 0;
            while j < out.len()
                invariant
                    j <= out@.len(),
                    ov == out@.map_values(|s: String| s@),
                    found == (exists|m: int| 0 <= m < j && ov[m] == cv[i as int]),
                    cv == candidates@.map_values(|s: String| s@),
                    i < candidates@.len(),
                decreases out@.len() - j,
            {
                assert(ov[j as int] == out@[j as int]@);
                assert(cv[i as int] == candidates@[i as int]@);
                if out[j] == candidates[i] {
                    found = true;
                }
                j = j + 1;
            }
            if !found {
                out.push(candidates[i].clone());
                assert(out@.map_values(|s: String| s@) =~= ov.push(cv[i as int]));
            }
            taken = taken + 1;
        } else {
            if keep[i] {
                assert(k1 == k0.push(cv[i as int]));
                assert(leading(k1, limit) =~= leading(k0, limit));
            } else {
                assert(k1 == k0);
            }
        }
        i = i + 1;
    }
    assert(cv.take(i as int) =~= cv);
    assert(keep@.take(i as int) =~= keep@);
    Some(out)
}

/// Discovery for a page fetched at `depth`: none at or beyond `max_depth`;
/// otherwise the addresses its anchors lead to, kept where `pattern` matches
/// the resolved address (none are kept without a pattern), at most `limit` of
/// them, without repeats.
pub fn discover_links(
    page: &String,
    body: &String,
    depth: usize,
    max_depth: usize,
    pattern: Option<&Regex>,
    limit: Option<usize>,
) -> (r: Option<Vec<String>>)
    ensures
        depth >= max_depth ==> r is None,
        depth < max_depth ==> (r matches Some(v) && v@.map_values(|s: String| s@) == chosen(
            page_links(page@, anchor_hrefs(body@)),
            page_flags(page@, anchor_hrefs(body@), pattern),
            limit,
        )),
{
    if depth >= max_depth {
        return None;
    }
    let hrefs = hrefs_in(body.as_str());
    let ghost hv = hrefs@.map_values(|s: String| s@);
    let mut candidates: Vec<String> = Vec::new();
    let mut keep: Vec<bool> = Vec::new();
    let mut i: usize = 0;
    while i < hrefs.len()
        invariant
            i <= hrefs@.len(),
            hv == hrefs@.map_values(|s: String| s@),
            candidates@.map_values(|s: String| s@) == page_links(page@, hv.take(i as int)),
            keep@.len() == candidates@.len(),
            keep@ == page_flags(page@, hv.take(i as int), pattern),
        decreases hrefs@.len() - i,
    {
        let ghost cv = candidates@.map_values(|s: String| s@);
        let ghost h = hv[i as int];
        assert(hv.take(i + 1).drop_last() =~= hv.take(i as int));
        assert(hv.take(i + 1).last() == h);
        assert(hrefs@[i as int]@ == h);
        let resolved = match parse_url(hrefs[i].as_str()) {
            Ok(u) => Some(u),
            Err(relative) => {
                if relative {
                    join_url(page.as_str(), hrefs[i].as_str())
                } else {
                    None
                }
            },
        };
        assert(resolved matches Some(u) ==> resolve_href(page@, h) == Some(u@));
        assert(resolved is None ==> resolve_href(page@, h) is None);
        if let Some(u) = resolved {
            let flag = match pattern {
                Some(re) => pattern_matches(re, u.as_str()),
                None => false,
            };
            if let Some(a) = strip_fragment(u.as_str()) {
                candidates.push(a);
                keep.push(flag);
                assert(candidates@.map_values(|s: String| s@) =~= cv.push(a@));
                assert(flag == link_kept(page@, h, pattern));
            }
        }
        i = i + 1;
    }
    assert(hv.take(i as int) =~= hv);
    let r = select_children(depth, max_depth, &candidates, &keep, limit);
    r
}

} // verus!
