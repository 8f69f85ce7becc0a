//! The two kinds of media that a library holds and a page offers.
use vstd::prelude::*;

verus! {

/// What a name or a link stands for: a single track or a whole album.
#[derive(Clone, Copy, Debug, PartialEq, Eq)]
pub enum MediaType {
    Music,
    Album,
}

impl MediaType {
    /// The end of a file name of this kind: ".mp3" for a track, ".zip" for
    /// an album.
    pub open spec fn extension(self) -> Seq<char> {
        match self {
            MediaType::Music => seq!['.', 'm', 'p', '3'],
            MediaType::Album => seq!['.', 'z', 'i', 'p'],
        }
    }

    /// The word for this kind in the address of an artist's page: "music" or
    /// "album".
    pub open spec fn section(self) -> Seq<char> {
        match self {
            MediaType::Music => seq!['m', 'u', 's', 'i', 'c'],
            MediaType::Album => seq!['a', 'l', 'b', 'u', 'm'],
        }
    }

    /// The end of a file name of this kind.
    pub fn file_extension(&self) -> (r: &'static str)
        ensures
            r@ == self.extension(),
    {
        match self {
            MediaType::Music => {
                proof {
                    reveal_strlit(".mp3");
                    assert(".mp3"@ =~= seq!['.', 'm', 'p', '3']);
                }
                ".mp3"
            },
            MediaType::Album => {
                proof {
                    reveal_strlit(".zip");
                    assert(".zip"@ =~= seq!['.', 'z', 'i', 'p']);
                }
                ".zip"
            },
        }
    }

    /// The word for this kind in the address of an artist's page.
    pub fn label(&self) -> (r: &'static str)
        ensures
            r@ == self.section(),
    {
        match self {
            MediaType::Music => {
                proof {
                    reveal_strlit("music");
                    assert("music"@ =~= seq!['m', 'u', 's', 'i', 'c']);
                }
                "music"
            },
            MediaType::Album => {
                proof {
                    reveal_strlit("album");
                    assert("album"@ =~= seq!['a', 'l', 'b', 'u', 'm']);
                }
                "album"
            },
        }
    }
}

} // verus!
