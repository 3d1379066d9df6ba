use vstd::prelude::*;
use crate::html::{selected_attrs, selector_accepted, Document, Query};
use crate::text::{chars_of, contains, contains_chars, starts_with};

verus! {

/// The site that the links of the results page are relative to.
pub open spec fn site() -> Seq<char> {
    "https://www.formula1.com"@
}

/// Whether a link of the results page leads to a race's results.
pub open spec fn is_race_result_href(href: Seq<char>) -> bool {
    contains(href, "/en/results.html/"@) && contains(href, "/races/"@)
}

/// Texts, by their views.
pub open spec fn texts_view(texts: Seq<String>) -> Seq<Seq<char>> {
    texts.map_values(|t: String| t@)
}

/// The absolute links to race results among `hrefs`, each once, in the order
/// of their first occurrence.
pub open spec fn result_links(hrefs: Seq<Option<Seq<char>>>) -> Seq<Seq<char>>
    decreases hrefs.len(),
{
    if hrefs.len() == 0 {
        Seq::empty()
    } else {
        let before = result_links(hrefs.drop_last());
        match hrefs.last() {
            Some(href) => if is_race_result_href(href) && !before.contains(site() + href) {
                before.push(site() + href)
            } else {
                before
            },
            None => before,
        }
    }
}

/// What the results overview page gives: the absolute links to race results
/// among the `href`s of its `a` elements. An error names a selector that
/// scraper rejected, for which the caller is to stop.
pub open spec fn links_of_page(page: Seq<char>) -> Result<Seq<Seq<char>>, Seq<char>> {
    if !selector_accepted("a"@) {
        Err("Failed to parse selector"@)
    } else {
        Ok(result_links(selected_attrs(page, "a"@, "href"@)))
    }
}

/// Every link that `result_links` gives starts with the site and continues
/// with a race result link; no link comes twice; and every race result link
/// among the `hrefs` is there.
pub proof fn lemma_result_links(hrefs: Seq<Option<Seq<char>>>)
    ensures
        forall|i: int|
            0 <= i < result_links(hrefs).len() ==> starts_with(#[trigger] result_links(hrefs)[i], site())
                && is_race_result_href(result_links(hrefs)[i].skip(site().len() as int)),
        forall|i: int, j: int|
            0 <= i < j < result_links(hrefs).len() ==> result_links(hrefs)[i] != result_links(
                hrefs,
            )[j],
        forall|k: int|
            0 <= k < hrefs.len() && #[trigger] hrefs[k] is Some && is_race_result_href(
                hrefs[k]->Some_0,
            ) ==> result_links(hrefs).contains(site() + hrefs[k]->Some_0),
    decreases hrefs.len(),
{
    if hrefs.len() > 0 {
        let before = result_links(hrefs.drop_last());
        lemma_result_links(hrefs.drop_last());
        let links = result_links(hrefs);
        match hrefs.last() {
            Some(href) => {
                let link = site() + href;
                assert(link.subrange(0, site().len() as int) =~= site());
                assert(link.skip(site().len() as int) =~= href);
            },
            None => {},
        }
        assert forall|k: int|
            0 <= k < hrefs.len() && #[trigger] hrefs[k] is Some && is_race_result_href(
                hrefs[k]->Some_0,
            ) implies links.contains(site() + hrefs[k]->Some_0) by {
            if k < hrefs.len() - 1 {
                assert(hrefs.drop_last()[k] == hrefs[k]);
                let href = hrefs[k]->Some_0;
                let w: int = choose|w: int| 0 <= w < before.len() && before[w] == site() + href;
                assert(links[w] == site() + href);
            } else {
                let href = hrefs[k]->Some_0;
                if before.contains(site() + href) {
                    let w: int = choose|w: int| 0 <= w < before.len() && before[w] == site() + href;
                    assert(links[w] == site() + href);
                } else {
                    assert(links[links.len() - 1] == site() + href);
                }
            }
        }
    }
}

proof fn lemma_site_link_injective(a: Seq<char>, b: Seq<char>)
    requires
        site() + a == site() + b,
    ensures
        a == b,
{
    assert((site() + a).skip(site().len() as int) =~= a);
    assert((site() + b).skip(site().len() as int) =~= b);
}

/// Every link that `result_links` gives comes from an `href` of the page.
pub proof fn lemma_result_links_come_from_hrefs(hrefs: Seq<Option<Seq<char>>>)
    ensures
        forall|p: int|
            #![trigger result_links(hrefs)[p]]
            0 <= p < result_links(hrefs).len() ==> exists|k: int|
                #![trigger hrefs[k]]
                0 <= k < hrefs.len() && hrefs[k] is Some && result_links(hrefs)[p] == site()
                    + hrefs[k]->Some_0,
    decreases hrefs.len(),
{
    if hrefs.len() > 0 {
        let rest = hrefs.drop_last();
        lemma_result_links_come_from_hrefs(rest);
        let before = result_links(rest);
        let links = result_links(hrefs);
        assert forall|p: int| #![trigger links[p]] 0 <= p < links.len() implies exists|k: int|
            #![trigger hrefs[k]]
            0 <= k < hrefs.len() && hrefs[k] is Some && links[p] == site() + hrefs[k]->Some_0 by {
            if p < before.len() {
                assert(links[p] == before[p]);
                let k = choose|k: int|
                    #![trigger rest[k]]
                    0 <= k < rest.len() && rest[k] is Some && before[p] == site() + rest[k]->Some_0;
                assert(hrefs[k] == rest[k]);
            } else {
                assert(hrefs[hrefs.len() - 1] is Some);
            }
        }
    }
}

/// The links come in the order of their first occurrence on the page: when
/// race result link `a` stands at `i` and race result link `b` first stands
/// at `j > i`, the link of `a` comes before the link of `b`.
pub proof fn lemma_result_links_in_page_order(hrefs: Seq<Option<Seq<char>>>)
    ensures
        forall|i: int, j: int, p: int, q: int|
            #![trigger hrefs[i], hrefs[j], result_links(hrefs)[p], result_links(hrefs)[q]]
            0 <= i < j < hrefs.len() && hrefs[i] is Some && is_race_result_href(hrefs[i]->Some_0)
                && hrefs[j] is Some && is_race_result_href(hrefs[j]->Some_0) && (forall|k: int|
                0 <= k < j ==> hrefs[k] != hrefs[j]) && 0 <= p < result_links(hrefs).len() && 0
                <= q < result_links(hrefs).len() && result_links(hrefs)[p] == site()
                + hrefs[i]->Some_0 && result_links(hrefs)[q] == site() + hrefs[j]->Some_0 ==> p < q,
    decreases hrefs.len(),
{
    if hrefs.len() > 0 {
        let n = hrefs.len();
        let rest = hrefs.drop_last();
        lemma_result_links_in_page_order(rest);
        lemma_result_links(rest);
        lemma_result_links_come_from_hrefs(rest);
        let before = result_links(rest);
        let links = result_links(hrefs);
        assert forall|i: int, j: int, p: int, q: int|
            #![trigger hrefs[i], hrefs[j], links[p], links[q]]
            0 <= i < j < n && hrefs[i] is Some && is_race_result_href(hrefs[i]->Some_0)
                && hrefs[j] is Some && is_race_result_href(hrefs[j]->Some_0) && (forall|k: int|
                0 <= k < j ==> hrefs[k] != hrefs[j]) && 0 <= p < links.len() && 0 <= q
                < links.len() && links[p] == site() + hrefs[i]->Some_0 && links[q] == site()
                + hrefs[j]->Some_0 implies p < q by {
            let a = hrefs[i]->Some_0;
            let b = hrefs[j]->Some_0;
            assert(rest[i] == hrefs[i]);
            assert(before.contains(site() + a));
            if j < n - 1 {
                assert(rest[j] == hrefs[j]);
                assert(before.contains(site() + b));
                assert forall|k: int| 0 <= k < j implies rest[k] != rest[j] by {
                    assert(rest[k] == hrefs[k]);
                }
                if p >= before.len() {
                    let w = choose|w: int| 0 <= w < before.len() && before[w] == site() + a;
                    assert(links[w] == before[w]);
                } else if q >= before.len() {
                    let w = choose|w: int| 0 <= w < before.len() && before[w] == site() + b;
                    assert(links[w] == before[w]);
                } else {
                    assert(links[p] == before[p]);
                    assert(links[q] == before[q]);
                    assert(rest[i] == hrefs[i] && rest[j] == hrefs[j]);
                }
            } else {
                if before.contains(site() + b) {
                    let w = choose|w: int| 0 <= w < before.len() && before[w] == site() + b;
                    let k = choose|k: int|
                        #![trigger rest[k]]
                        0 <= k < rest.len() && rest[k] is Some && before[w] == site()
                            + rest[k]->Some_0;
                    lemma_site_link_injective(rest[k]->Some_0, b);
                    assert(hrefs[k] == rest[k]);
                    assert(false);
                }
                assert(links == before.push(site() + b));
                if q < before.len() {
                    assert(before[q] == links[q]);
                    assert(false);
                }
                if p >= before.len() {
                    lemma_site_link_injective(a, b);
                    assert(hrefs[i] == hrefs[j]);
                    assert(false);
                }
            }
        }
    }
}

/// Whether `texts` holds `text`.
fn holds_text(texts: &Vec<String>, text: &String) -> (res: bool)
    ensures
        res == texts_view(texts@).contains(text@),
{
    for i in 0..texts.len()
        invariant
            forall|j: int| 0 <= j < i ==> texts@[j]@ != text@,
    {
        if texts[i] == *text {
            assert(texts_view(texts@)[i as int] == text@);
            return true;
        }
    }
    false
}

/// The absolute links to the race results that the results overview page
/// links to, each once, in the order of their first occurrence; every one
/// starts with "https://www.formula1.com".
pub fn f1_official_results_links(page: &str) -> (res: Result<Vec<String>, &'static str>)
    ensures
        match res {
            Ok(links) => links_of_page(page@) == Ok::<Seq<Seq<char>>, Seq<char>>(
                texts_view(links@),
            ),
            Err(e) => links_of_page(page@) == Err::<Seq<Seq<char>>, Seq<char>>(e@),
        },
        res matches Ok(links) ==> {
            &&& forall|i: int|
                0 <= i < links@.len() ==> starts_with(#[trigger] links@[i]@, site())
                    && is_race_result_href(links@[i]@.skip(site().len() as int))
            &&& forall|i: int, j: int| 0 <= i < j < links@.len() ==> links@[i]@ != links@[j]@
            &&& forall|i: int, j: int, p: int, q: int|
                #![trigger selected_attrs(page@, "a"@, "href"@)[i], selected_attrs(page@, "a"@, "href"@)[j], links@[p], links@[q]]
                {
                    let hrefs = selected_attrs(page@, "a"@, "href"@);
                    0 <= i < j < hrefs.len() && hrefs[i] is Some && is_race_result_href(
                        hrefs[i]->Some_0,
                    ) && hrefs[j] is Some && is_race_result_href(hrefs[j]->Some_0) && (forall|
                        k: int,
                    |
                        0 <= k < j ==> hrefs[k] != hrefs[j]) && 0 <= p < links@.len() && 0 <= q
                        < links@.len() && links@[p]@ == site() + hrefs[i]->Some_0 && links@[q]@
                        == site() + hrefs[j]->Some_0 ==> p < q
                }
        },
{
    let document = Document::parse(page);
    let anchor = match Query::parse("a") {
        Some(q) => q,
        None => return Err("Failed to parse selector"),
    };
    let hrefs = document.select_attrs(&anchor, "href");
    let ghost href_views = hrefs.deep_view();
    let results_part = chars_of("/en/results.html/");
    let races_part = chars_of("/races/");
    let mut links: Vec<String> = Vec::new();
    for i in 0..hrefs.len()
        invariant
            href_views == hrefs.deep_view(),
            results_part@ == "/en/results.html/"@,
            races_part@ == "/races/"@,
            texts_view(links@) == result_links(href_views.take(i as int)),
    {
        assert(href_views.take(i + 1).drop_last() =~= href_views.take(i as int));
        assert(href_views.take(i + 1).last() == hrefs@[i as int].deep_view());
        match &hrefs[i] {
            Some(href) => {
                let chars = chars_of(href.as_str());
                if contains_chars(&chars, &results_part) && contains_chars(&chars, &races_part) {
                    let mut link = String::new();
                    link.append("https://www.formula1.com");
                    link.append(href.as_str());
                    if !holds_text(&links, &link) {
                        let ghost before = texts_view(links@);
                        links.push(link);
                        assert(texts_view(links@) =~= before.push(link@));
                    }
                }
            },
            None => {},
        }
    }
    assert(href_views.take(hrefs@.len() as int) =~= href_views);
    proof {
        lemma_result_links(href_views);
        lemma_result_links_in_page_order(href_views);
        assert forall|p: int| 0 <= p < links@.len() implies #[trigger] texts_view(links@)[p]
            == links@[p]@ by {}
        assert forall|i: int| 0 <= i < links@.len() implies starts_with(
            #[trigger] links@[i]@,
            site(),
        ) && is_race_result_href(links@[i]@.skip(site().len() as int)) by {
            assert(texts_view(links@)[i] == links@[i]@);
        }
        assert forall|i: int, j: int| 0 <= i < j < links@.len() implies links@[i]@
            != links@[j]@ by {
            assert(texts_view(links@)[i] == links@[i]@);
            assert(texts_view(links@)[j] == links@[j]@);
        }
    }
    Ok(links)
}

} // verus!
