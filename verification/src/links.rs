//! What to do with the links that an artist's page offers.
//!
//! A link to a track or an album carries the title in its address. The
//! title decides whether the link is followed at all, and on the page behind
//! it one of the download links is taken.
use vstd::prelude::*;
use crate::find_exist::Exist;
use crate::media::MediaType;
use crate::normalize::{normalize_music_name, normalized_music_name};
use crate::text::{
    contains, ends_with, has_suffix, lowercase, lowercased, names, occurs, space_separators,
    spaced, split, split_on,
};

verus! {

/// A link whose address does not hold a title.
#[derive(Clone, Copy, Debug, PartialEq, Eq)]
pub enum LinkError {
    /// The address has no '/' in it, so no part of it stands before the
    /// last one.
    InvalidUrlStructure,
}

/// Why none of the links of a page was taken.
#[derive(Clone, Copy, Debug, PartialEq, Eq)]
pub enum SelectError {
    /// No link of the page ends as a file of the wanted kind does.
    NoCandidates,
    /// Several links do, and each of them is marked as low bitrate.
    OnlyLowBitrate,
}

/// What to do with a link to a track or an album.
#[derive(Debug)]
pub enum MediaPlan {
    /// The library holds the title already: the link is not followed.
    Owned(String),
    /// The title is new: the link is followed and a download link is taken
    /// from its page.
    Fetch(String),
}

/// The mark of a low bitrate in the address of a download.
pub open spec fn low_bitrate_mark() -> Seq<char> {
    seq!['1', '2', '8']
}

/// The part of an address that holds the title: the last part but one of
/// those that '/' divides the address into.
pub open spec fn title_part(href: Seq<char>) -> Option<Seq<char>> {
    let parts = split_on(href, '/');
    if parts.len() >= 2 {
        Some(parts[parts.len() - 2])
    } else {
        None
    }
}

/// The normalized title that a link's address holds.
pub open spec fn link_title(href: Seq<char>, artist_name: Seq<char>) -> Option<Seq<char>> {
    match title_part(href) {
        Some(part) => Some(normalized_music_name(part, artist_name)),
        None => None,
    }
}

/// The links among `hrefs` that end as a file of the given kind does, in
/// their order.
pub open spec fn candidates(hrefs: Seq<Seq<char>>, kind: MediaType) -> Seq<Seq<char>> {
    hrefs.filter(|href: Seq<char>| has_suffix(href, kind.extension()))
}

/// `index` is the place of the link to take among the candidates: the only
/// one, or of several the first that is not marked as low bitrate.
pub open spec fn is_choice(candidates: Seq<Seq<char>>, index: int) -> bool {
    &&& 0 <= index < candidates.len()
    &&& candidates.len() > 1 ==> {
        &&& !occurs(candidates[index], low_bitrate_mark())
        &&& forall|k: int| 0 <= k < index ==> occurs(#[trigger] candidates[k], low_bitrate_mark())
    }
}

/// The name under which an artist is looked up: the name as it was given,
/// with separators as spaces and in lower case.
pub fn artist_key(artist_name: &str) -> (r: String)
    ensures
        r@ == lowercased(spaced(artist_name@)),
{
    let spaced = space_separators(artist_name);
    lowercase(spaced.as_str())
}

/// The address of the page that lists one kind of an artist's media.
pub fn section_url(url: &str, page_type: &MediaType) -> (r: String)
    ensures
        r@ == url@ + seq!['/', '?', 's', 'e', 'c', 't', 'i', 'o', 'n', '='] + page_type.section(),
{
    proof {
        reveal_strlit("/?section=");
        assert("/?section="@ =~= seq!['/', '?', 's', 'e', 'c', 't', 'i', 'o', 'n', '=']);
    }
    let mut r = url.to_owned();
    r.append("/?section=");
    r.append(page_type.label());
    r
}

/// The normalized title that a link's address holds.
///
/// Fails where the address has no '/' in it.
pub fn media_name(href: &str, artist_name: &str) -> (r: Result<String, LinkError>)
    ensures
        match r {
            Ok(name) => link_title(href@, artist_name@) == Some(name@),
            Err(e) => link_title(href@, artist_name@) is None,
        },
{
    let parts = split(href, '/');
    assert(names(parts@).len() == parts@.len());
    if parts.len() >= 2 {
        let part = &parts[parts.len() - 2];
        assert(names(parts@)[parts@.len() - 2] == part@);
        Ok(normalize_music_name(part.as_str(), artist_name))
    } else {
        Err(LinkError::InvalidUrlStructure)
    }
}

/// Decides whether a link is followed: not where the library holds its
/// title already.
///
/// Fails where the address has no '/' in it.
pub fn plan_media(href: &str, artist_name: &str, exist: &Exist, page_type: &MediaType) -> (r:
    Result<MediaPlan, LinkError>)
    ensures
        match r {
            Ok(MediaPlan::Owned(name)) => link_title(href@, artist_name@) == Some(name@)
                && exist.titles(*page_type).contains(name@),
            Ok(MediaPlan::Fetch(name)) => link_title(href@, artist_name@) == Some(name@)
                && !exist.titles(*page_type).contains(name@),
            Err(e) => link_title(href@, artist_name@) is None,
        },
{
    match media_name(href, artist_name) {
        Ok(name) => {
            if exist.contains(name.as_str(), page_type) {
                Ok(MediaPlan::Owned(name))
            } else {
                Ok(MediaPlan::Fetch(name))
            }
        },
        Err(e) => Err(e),
    }
}

/// The download link to take among the links of a page.
///
/// Only links that end as a file of the wanted kind does are candidates. A
/// single candidate is taken as it is. Of several, the first without the
/// mark "128" is taken.
pub fn get_url(hrefs: &Vec<String>, page_type: &MediaType) -> (r: Result<String, SelectError>)
    ensures
        match r {
            Ok(url) => exists|index: int|
                #![auto]
                is_choice(candidates(names(hrefs@), *page_type), index) && url@ == candidates(
                    names(hrefs@),
                    *page_type,
                )[index],
            Err(SelectError::NoCandidates) => candidates(names(hrefs@), *page_type).len() == 0,
            Err(SelectError::OnlyLowBitrate) => {
                &&& candidates(names(hrefs@), *page_type).len() > 1
                &&& forall|k: int|
                    0 <= k < candidates(names(hrefs@), *page_type).len() ==> occurs(
                        #[trigger] candidates(names(hrefs@), *page_type)[k],
                        low_bitrate_mark(),
                    )
            },
        },
{
    let extension = page_type.file_extension();
    let ghost wanted = |href: Seq<char>| has_suffix(href, page_type.extension());
    let mut urls: Vec<String> = Vec::new();
    let mut i: usize = 0;
    while i < hrefs.len()
        invariant
            i <= hrefs.len(),
            extension@ == page_type.extension(),
            wanted == |href: Seq<char>| has_suffix(href, page_type.extension()),
            names(urls@) == names(hrefs@).take(i as int).filter(wanted),
        decreases hrefs.len() - i,
    {
        proof {
            names(hrefs@).lemma_take_succ_push(i as int);
            names(hrefs@).take(i as int).lemma_filter_push(hrefs@[i as int]@, wanted);
        }
        if ends_with(hrefs[i].as_str(), extension) {
            let url = hrefs[i].clone();
            proof {
                urls@.lemma_push_map_commute(|s: String| s@, url);
            }
            urls.push(url);
        }
        i += 1;
    }
    proof {
        names(hrefs@).lemma_take_len();
    }
    let ghost found = candidates(names(hrefs@), *page_type);
    assert(names(urls@) == found);
    if urls.len() == 0 {
        Err(SelectError::NoCandidates)
    } else if urls.len() == 1 {
        assert(is_choice(found, 0));
        Ok(urls[0].clone())
    } else {
        proof {
            reveal_strlit("128");
            assert("128"@ =~= low_bitrate_mark());
        }
        let mut j: usize = 0;
        while j < urls.len()
            invariant
                j <= urls.len(),
                urls.len() > 1,
                names(urls@) == found,
                found == candidates(names(hrefs@), *page_type),
                "128"@ == low_bitrate_mark(),
                forall|k: int| 0 <= k < j ==> occurs(#[trigger] found[k], low_bitrate_mark()),
            decreases urls.len() - j,
        {
            assert(found[j as int] == urls@[j as int]@);
            if !contains(urls[j].as_str(), "128") {
                assert(is_choice(found, j as int));
                return Ok(urls[j].clone());
            }
            j += 1;
        }
        Err(SelectError::OnlyLowBitrate)
    }
}

} // verus!
