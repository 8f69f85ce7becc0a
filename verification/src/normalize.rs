//! The normalized form under which names are compared.
//!
//! Two names stand for the same title exactly when their normalized forms
//! are equal. A directory name is normalized by `normalize_name`, the file
//! name of a track by `normalize_music_name`.
use vstd::prelude::*;
use vstd::utf8::is_ascii_chars;
use crate::media::MediaType;
use crate::text::{
    all_chars, ascii_lower, ascii_lowercased, has_no_separator, has_suffix, is_separator,
    is_trimmed, lemma_ascii_lowercased, lemma_occurs_in_part, lemma_replaced_without_occurrence,
    lemma_trimmed, lemma_trimmed_of_trimmed, lemma_without_keeps, lemma_without_suffixes,
    lowercase, lowercased, occurs, remove_all, space_separators, spaced, trim, trim_end_matches,
    trimmed, without, without_suffixes,
};

verus! {

/// The end of a track's file name.
pub open spec fn track_extension() -> Seq<char> {
    MediaType::Music.extension()
}

/// The normalized form of a directory name: separators become spaces, the
/// text is lower-cased and then trimmed.
pub open spec fn normalized_name(name: Seq<char>) -> Seq<char> {
    trimmed(lowercased(spaced(name)))
}

/// What is left of a track's file name once the extension is taken off,
/// separators have become spaces and the artist's name is taken out.
pub open spec fn music_rest(file_name: Seq<char>, artist_name: Seq<char>) -> Seq<char> {
    without(spaced(without_suffixes(file_name, track_extension())), artist_name)
}

/// What is left of a track's file name before it is lower-cased: the
/// extension is taken off, separators become spaces, the artist's name is
/// taken out and the rest is trimmed.
pub open spec fn music_stem(file_name: Seq<char>, artist_name: Seq<char>) -> Seq<char> {
    trimmed(music_rest(file_name, artist_name))
}

/// The normalized form of a track's file name: its stem in lower case.
pub open spec fn normalized_music_name(file_name: Seq<char>, artist_name: Seq<char>) -> Seq<
    char,
> {
    lowercased(music_stem(file_name, artist_name))
}

/// A character as directory matching sees it: a separator counts as a
/// space, an ASCII capital as its lower-case letter.
pub open spec fn folded(c: char) -> char {
    ascii_lower(if is_separator(c) { ' ' } else { c })
}

/// Normalizes the name of a directory for comparison.
pub fn normalize_name(name: &str) -> (r: String)
    ensures
        r@ == normalized_name(name@),
{
    let spaced = space_separators(name);
    let lowered = lowercase(spaced.as_str());
    trim(lowered.as_str()).to_owned()
}

/// Normalizes the file name of a track, given the name of its artist.
pub fn normalize_music_name(file_name: &str, artist_name: &str) -> (r: String)
    ensures
        r@ == normalized_music_name(file_name@, artist_name@),
{
    let stem = trim_end_matches(file_name, MediaType::Music.file_extension());
    let spaced = space_separators(stem);
    let cleared = remove_all(spaced.as_str(), artist_name);
    lowercase(trim(cleared.as_str()))
}

/// What held of every character once the separators were spaces still holds
/// of every character of the stem: taking the artist's name out and
/// trimming bring in nothing.
proof fn lemma_stem_keeps(file_name: Seq<char>, artist_name: Seq<char>, p: spec_fn(char) -> bool)
    requires
        all_chars(spaced(without_suffixes(file_name, track_extension())), p),
    ensures
        all_chars(music_stem(file_name, artist_name), p),
{
    let base = spaced(without_suffixes(file_name, track_extension()));
    let cleared = without(base, artist_name);
    lemma_without_keeps(base, artist_name, p);
    let (i, j) = lemma_trimmed(cleared);
    let stem = music_stem(file_name, artist_name);
    assert forall|k: int| 0 <= k < stem.len() implies #[trigger] p(stem[k]) by {
        assert(stem[k] == cleared[i + k]);
    }
}

/// The stem of a track's file name holds no separator and neither starts
/// nor ends in whitespace, and what is left of an ASCII file name is ASCII,
/// before it is trimmed and after.
pub proof fn lemma_music_stem(file_name: Seq<char>, artist_name: Seq<char>)
    ensures
        has_no_separator(music_stem(file_name, artist_name)),
        is_trimmed(music_stem(file_name, artist_name)),
        is_ascii_chars(file_name) ==> is_ascii_chars(music_rest(file_name, artist_name)),
        is_ascii_chars(file_name) ==> is_ascii_chars(music_stem(file_name, artist_name)),
{
    let cut = without_suffixes(file_name, track_extension());
    let base = spaced(cut);
    let stem = music_stem(file_name, artist_name);
    let no_separator = |c: char| !is_separator(c);
    assert(all_chars(base, no_separator));
    lemma_stem_keeps(file_name, artist_name, no_separator);
    assert forall|k: int| 0 <= k < stem.len() implies !is_separator(#[trigger] stem[k]) by {
        assert(no_separator(stem[k]));
    }
    lemma_trimmed(without(base, artist_name));
    if is_ascii_chars(file_name) {
        let ascii = |c: char| '\0' <= c <= '\u{7f}';
        let k = lemma_without_suffixes(file_name, track_extension());
        assert forall|i: int| 0 <= i < base.len() implies #[trigger] ascii(base[i]) by {
            assert(cut[i] == file_name[i]);
        }
        lemma_stem_keeps(file_name, artist_name, ascii);
        assert forall|i: int| 0 <= i < stem.len() implies '\0' <= #[trigger] stem[i]
            <= '\u{7f}' by {
            assert(ascii(stem[i]));
        }
        let rest = music_rest(file_name, artist_name);
        lemma_without_keeps(base, artist_name, ascii);
        assert forall|i: int| 0 <= i < rest.len() implies '\0' <= #[trigger] rest[i]
            <= '\u{7f}' by {
            assert(ascii(rest[i]));
        }
    }
}

/// The stem in lower case keeps what `lemma_music_stem` says of the stem,
/// and lower-casing it again changes nothing, where the file name is ASCII
/// or the stem is in lower case already.
proof fn lemma_music_name_shape(file_name: Seq<char>, artist_name: Seq<char>)
    requires
        is_ascii_chars(file_name) || lowercased(music_stem(file_name, artist_name)) == music_stem(
            file_name,
            artist_name,
        ),
    ensures
        has_no_separator(normalized_music_name(file_name, artist_name)),
        is_trimmed(normalized_music_name(file_name, artist_name)),
        lowercased(normalized_music_name(file_name, artist_name)) == normalized_music_name(
            file_name,
            artist_name,
        ),
{
    let stem = music_stem(file_name, artist_name);
    lemma_music_stem(file_name, artist_name);
    if is_ascii_chars(file_name) {
        lemma_ascii_lowercased(stem);
    }
}

/// The normalized name of a track holds neither '-' nor '_'.
///
/// This is shown for ASCII file names, and for any file name whose stem
/// lower-casing leaves as it is.
pub proof fn lemma_music_name_has_no_separator(file_name: Seq<char>, artist_name: Seq<char>)
    requires
        is_ascii_chars(file_name) || lowercased(music_stem(file_name, artist_name)) == music_stem(
            file_name,
            artist_name,
        ),
    ensures
        has_no_separator(normalized_music_name(file_name, artist_name)),
{
    lemma_music_name_shape(file_name, artist_name);
}

/// The normalized name of a track does not hold the artist's name.
///
/// Two things are asked for. The artist's name is not empty, as the empty
/// text occurs everywhere. And what is left of the file name once the name
/// was taken out does not hold the name anew, neither as it stands, where
/// two pieces have moved together, nor once it is in lower case. For a file
/// name beyond ASCII the lower-case form is not known: there the stem has to
/// be in lower case already.
pub proof fn lemma_music_name_is_free_of_artist(file_name: Seq<char>, artist_name: Seq<char>)
    requires
        artist_name.len() > 0,
        ({
            ||| is_ascii_chars(file_name) && !occurs(
                lowercased(music_rest(file_name, artist_name)),
                artist_name,
            )
            ||| lowercased(music_stem(file_name, artist_name)) == music_stem(
                file_name,
                artist_name,
            ) && !occurs(music_rest(file_name, artist_name), artist_name)
        }),
    ensures
        !occurs(normalized_music_name(file_name, artist_name), artist_name),
{
    let rest = music_rest(file_name, artist_name);
    let stem = music_stem(file_name, artist_name);
    let (i, j) = lemma_trimmed(rest);
    if is_ascii_chars(file_name) && !occurs(lowercased(rest), artist_name) {
        lemma_music_stem(file_name, artist_name);
        lemma_ascii_lowercased(rest);
        lemma_ascii_lowercased(stem);
        assert(ascii_lowercased(stem) =~= ascii_lowercased(rest).subrange(i, j));
        if occurs(ascii_lowercased(stem), artist_name) {
            lemma_occurs_in_part(ascii_lowercased(rest), i, j, artist_name);
        }
    } else {
        if occurs(rest.subrange(i, j), artist_name) {
            lemma_occurs_in_part(rest, i, j, artist_name);
        }
    }
}

/// Normalizing a normalized track name again gives the same name.
///
/// The name has to be one that has lost its extension and does not hold the
/// artist's name; and the file name is ASCII, or its stem is in lower case
/// already.
pub proof fn lemma_music_name_is_idempotent(file_name: Seq<char>, artist_name: Seq<char>)
    requires
        !has_suffix(normalized_music_name(file_name, artist_name), track_extension()),
        artist_name.len() == 0 || !occurs(
            normalized_music_name(file_name, artist_name),
            artist_name,
        ),
        is_ascii_chars(file_name) || lowercased(music_stem(file_name, artist_name)) == music_stem(
            file_name,
            artist_name,
        ),
    ensures
        normalized_music_name(normalized_music_name(file_name, artist_name), artist_name)
            == normalized_music_name(file_name, artist_name),
{
    let name = normalized_music_name(file_name, artist_name);
    lemma_music_name_shape(file_name, artist_name);
    assert(without_suffixes(name, track_extension()) == name);
    assert(spaced(name) =~= name);
    if artist_name.len() > 0 {
        lemma_replaced_without_occurrence(name, artist_name, Seq::empty());
    }
    assert(without(name, artist_name) == name);
    lemma_trimmed_of_trimmed(name);
    assert(music_stem(name, artist_name) == name);
}

/// Directory names that differ only in the case of ASCII letters and in
/// which separator or space stands between the words have one normalized
/// form.
pub proof fn lemma_name_ignores_case_and_separators(a: Seq<char>, b: Seq<char>)
    requires
        is_ascii_chars(a),
        is_ascii_chars(b),
        a.len() == b.len(),
        forall|i: int| 0 <= i < a.len() ==> folded(#[trigger] a[i]) == folded(b[i]),
    ensures
        normalized_name(a) == normalized_name(b),
{
    assert(is_ascii_chars(spaced(a)));
    assert(is_ascii_chars(spaced(b)));
    assert(ascii_lowercased(spaced(a)) =~= ascii_lowercased(spaced(b))) by {
        assert forall|i: int| 0 <= i < a.len() implies ascii_lowercased(spaced(a))[i]
            == ascii_lowercased(spaced(b))[i] by {
            assert(ascii_lowercased(spaced(a))[i] == folded(a[i]));
            assert(ascii_lowercased(spaced(b))[i] == folded(b[i]));
        }
    }
}

} // verus!
