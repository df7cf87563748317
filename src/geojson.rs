use vstd::prelude::*;

verus! {

/// The height attributes of a feature, each optional.
#[derive(Debug, Clone, Copy, PartialEq, Eq, Structural)]
pub struct GeoJSONProperties {
    pub korkeusarvo: Option<i64>,
    pub syvyysarvo: Option<i64>,
    pub pohjankorkeus: Option<i64>,
}

/// A link of a paged feature collection.
#[derive(Debug)]
pub struct GeoJSONLinks {
    pub href: String,
    pub rel: String,
}

/// Most pages fetched from one collection.
pub const MAX_PAGES: u64 = 10;

/// Index of the first link whose relation is `next`.
pub open spec fn first_next(links: Seq<GeoJSONLinks>) -> Option<int>
    decreases links.len(),
{
    if links.len() == 0 {
        None
    } else {
        match first_next(links.drop_last()) {
            Some(i) => Some(i),
            None => if links.last().rel@ == "next"@ {
                Some(links.len() - 1)
            } else {
                None
            },
        }
    }
}

/// The page to fetch after `pages` pages: the target of the first `next`
/// link, unless the page limit is reached.
pub open spec fn next_page_spec(links: Option<Seq<GeoJSONLinks>>, pages: u64) -> Option<Seq<char>> {
    match links {
        None => None,
        Some(ls) => match first_next(ls) {
            Some(i) => if pages < MAX_PAGES {
                Some(ls[i].href@)
            } else {
                None
            },
            None => None,
        },
    }
}

pub open spec fn links_view(links: Option<Vec<GeoJSONLinks>>) -> Option<Seq<GeoJSONLinks>> {
    match links {
        Some(v) => Some(v@),
        None => None,
    }
}

/// Decides which page to fetch next, after `pages` pages were fetched.
pub fn next_page(links: &Option<Vec<GeoJSONLinks>>, pages: u64) -> (r: Option<String>)
    ensures
        r matches Some(h) ==> next_page_spec(links_view(*links), pages) == Some(h@),
        r is None <==> next_page_spec(links_view(*links), pages) is None,
{
    match links {
        None => None,
        Some(ls) => {
            let next = "next".to_owned();
            let mut i: usize = 0;
            while i < ls.len()
                invariant
                    i <= ls@.len(),
                    next@ == "next"@,
                    links_view(*links) == Some(ls@),
                    first_next(ls@.subrange(0, i as int)) is None,
                decreases ls@.len() - i,
            {
                proof {
                    assert(ls@.subrange(0, i + 1).drop_last() == ls@.subrange(0, i as int));
                }
                if ls[i].rel == next {
                    proof {
                        lemma_first_next_prefix(ls@, i as int);
                    }
                    if pages < MAX_PAGES {
                        return Some(ls[i].href.clone());
                    }
                    return None;
                }
                i = i + 1;
            }
            assert(ls@.subrange(0, ls@.len() as int) == ls@);
            None
        },
    }
}

/// A `next` link at `i` with none before it is the first one.
proof fn lemma_first_next_prefix(ls: Seq<GeoJSONLinks>, i: int)
    requires
        0 <= i < ls.len(),
        first_next(ls.subrange(0, i)) is None,
        ls[i].rel@ == "next"@,
    ensures
        first_next(ls) == Some(i),
    decreases ls.len(),
{
    if ls.len() - 1 == i {
        assert(ls.drop_last() == ls.subrange(0, i));
    } else {
        assert(ls.drop_last().subrange(0, i) == ls.subrange(0, i));
        lemma_first_next_prefix(ls.drop_last(), i);
    }
}

} // verus!
