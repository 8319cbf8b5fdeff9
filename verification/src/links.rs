use vstd::prelude::*;
use vstd::string::StringExecFns;
use crate::errors::UpdateError;
use crate::text::{contains_seq, is_suffix, str_contains, str_ends_with};

verus! {

/// What scraper extracts from an index page: the `href` attribute of every
/// anchor nested in a table cell, in the order the selection yields them
/// (`None` where an anchor carries no `href`). The result depends on the
/// page text alone.
pub uninterp spec fn td_anchor_hrefs(html: Seq<char>) -> Seq<Option<Seq<char>>>;

/// Relies on scraper's `Html::parse_document`, `Selector::parse` and
/// `Html::select`: parses the page and walks every element matching the
/// selector `td>a` in the order the selection yields them, reading each
/// `href` attribute.
#[verifier::external_body]
fn cell_anchor_hrefs(html: &str) -> (r: Vec<Option<String>>)
    ensures
        r.deep_view() == td_anchor_hrefs(html@),
{
    let sel = scraper::Selector::parse("td>a").unwrap();
    scraper::Html::parse_document(html)
        .select(&sel)
        .map(|a| a.value().attr("href").map(|h| h.to_string()))
        .collect()
}

/// The hrefs that are present, in order, with the absent ones dropped.
pub open spec fn present_values(s: Seq<Option<Seq<char>>>) -> Seq<Seq<char>>
    decreases s.len(),
{
    if s.len() == 0 {
        Seq::empty()
    } else {
        present_values(s.drop_last()) + (if s.last() is Some {
            seq![s.last()->0]
        } else {
            Seq::empty()
        })
    }
}

/// A link is correct when it contains the package-name filter as a substring
/// and ends with the literal format suffix (not a true extension check).
pub open spec fn link_matches(link: Seq<char>, package_name: Seq<char>, format: Seq<char>) -> bool {
    contains_seq(link, package_name) && is_suffix(link, format)
}

/// Whether a candidate link passes the package filter and the format suffix.
pub fn is_correct_link(link: &str, package_name: &str, format: &str) -> (r: bool)
    ensures
        r == link_matches(link@, package_name@, format@),
{
    str_contains(link, package_name) && str_ends_with(link, format)
}

/// Some link in `ls` passes the filter.
pub open spec fn has_match(ls: Seq<Seq<char>>, package_name: Seq<char>, format: Seq<char>) -> bool {
    exists|j: int| 0 <= j < ls.len() && link_matches(ls[j], package_name, format)
}

/// Position `j` holds a matching link and nothing after it matches: the
/// listing is assumed chronologically ascending, so the last match is newest.
pub open spec fn is_last_match(
    ls: Seq<Seq<char>>,
    package_name: Seq<char>,
    format: Seq<char>,
    j: int,
) -> bool {
    &&& 0 <= j < ls.len()
    &&& link_matches(ls[j], package_name, format)
    &&& forall|k: int| j < k < ls.len() ==> !link_matches(ls[k], package_name, format)
}

/// Picks the last link in the list that passes the filter; fails with
/// `NotFound` exactly when no link matches.
pub fn select_last_match(links: &Vec<String>, package_name: &str, format: &str) -> (r: Result<
    String,
    UpdateError,
>)
    ensures
        (match r {
            Ok(l) => exists|j: int|
                #[trigger] is_last_match(links.deep_view(), package_name@, format@, j)
                    && links.deep_view()[j] == l@,
            Err(e) => e == UpdateError::NotFound && !has_match(
                links.deep_view(),
                package_name@,
                format@,
            ),
        }),
{
    let mut i: usize = links.len();
    while i > 0
        invariant
            i <= links.len(),
            forall|k: int| i <= k < links.deep_view().len() ==> !link_matches(
                links.deep_view()[k],
                package_name@,
                format@,
            ),
        decreases i,
    {
        i = i - 1;
        if is_correct_link(links[i].as_str(), package_name, format) {
            let l = links[i].clone();
            proof {
                assert(is_last_match(links.deep_view(), package_name@, format@, i as int));
            }
            return Ok(l);
        }
    }
    Err(UpdateError::NotFound)
}

/// Resolves the download link from the raw page text: collects the hrefs of
/// anchors in table cells, keeps those that contain the package-name filter
/// and end in `zip`, and returns the last one the page yields.
pub fn resolve_sector_link(html: &str, package_name: &str) -> (r: Result<String, UpdateError>)
    ensures
        (match r {
            Ok(l) => exists|j: int|
                #[trigger] is_last_match(
                    present_values(td_anchor_hrefs(html@)),
                    package_name@,
                    "zip"@,
                    j,
                ) && present_values(td_anchor_hrefs(html@))[j] == l@,
            Err(e) => e == UpdateError::NotFound && !has_match(
                present_values(td_anchor_hrefs(html@)),
                package_name@,
                "zip"@,
            ),
        }),
{
    let raw = cell_anchor_hrefs(html);
    let mut links: Vec<String> = Vec::new();
    let mut i: usize = 0;
    while i < raw.len()
        invariant
            i <= raw.len(),
            raw.deep_view() == td_anchor_hrefs(html@),
            raw.deep_view().len() == raw.len(),
            links.deep_view() == present_values(raw.deep_view().take(i as int)),
        decreases raw.len() - i,
    {
        proof {
            assert(raw.deep_view().take(i + 1).drop_last() =~= raw.deep_view().take(i as int));
            assert(raw.deep_view().take(i + 1).last() == raw.deep_view()[i as int]);
        }
        match &raw[i] {
            Some(s) => {
                links.push(s.clone());
                proof {
                    assert(links.deep_view() =~= present_values(raw.deep_view().take(i + 1)));
                }
            },
            None => {
                proof {
                    assert(links.deep_view() =~= present_values(raw.deep_view().take(i + 1)));
                }
            },
        }
        i += 1;
    }
    proof {
        assert(raw.deep_view().take(raw.deep_view().len() as int) =~= raw.deep_view());
    }
    select_last_match(&links, package_name, "zip")
}

/// The index page for a region: the fixed listing host followed by the code.
pub fn index_url(fir: &str) -> (r: String)
    ensures
        r@ == "http://files.aero-nav.com/"@ + fir@,
{
    let mut url = "http://files.aero-nav.com/".to_owned();
    url.append(fir);
    url
}

} // verus!
