//! Decides which albums and tracks of an artist a music library already holds.
//!
//! A name is compared after it has been normalized: separators become spaces,
//! the artist's name is taken out, the rest is trimmed and lower-cased. The
//! library is handed a listing of the music directory as plain values and
//! answers with the names it found, whether a scraped link is already owned,
//! and which of several download links to take.
pub mod find_exist;
pub mod links;
pub mod media;
pub mod normalize;
pub mod output;
pub mod text;
