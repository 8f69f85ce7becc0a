//! The table of download links that a run ends with, and the text it is
//! written out as.
use vstd::prelude::*;
use crate::text::from_chars;

verus! {

/// A title with the address found for it.
pub type Pair = (Seq<char>, Seq<char>);

/// The digit for `n` in base sixteen, for `n` below sixteen.
pub open spec fn hex_digit(n: int) -> char {
    if n < 10 {
        ('0' as int + n) as char
    } else {
        ('a' as int + n - 10) as char
    }
}

/// How one character stands inside a quoted text: a quotation mark, a
/// backslash and the control characters are escaped, anything else stands
/// for itself.
pub open spec fn escape(c: char) -> Seq<char> {
    if c == '"' {
        seq!['\\', '"']
    } else if c == '\\' {
        seq!['\\', '\\']
    } else if c == '\n' {
        seq!['\\', 'n']
    } else if c == '\r' {
        seq!['\\', 'r']
    } else if c == '\t' {
        seq!['\\', 't']
    } else if ' ' > c {
        seq!['\\', 'u', '0', '0', hex_digit(c as int / 16), hex_digit(c as int % 16)]
    } else {
        seq![c]
    }
}

/// A text with each of its characters escaped.
pub open spec fn escaped(s: Seq<char>) -> Seq<char> {
    s.map_values(|c: char| escape(c)).flatten()
}

/// A text between quotation marks.
pub open spec fn quoted(s: Seq<char>) -> Seq<char> {
    seq!['"'] + escaped(s) + seq!['"']
}

/// One member of an object: the title, a colon, the address.
pub open spec fn member(pair: Pair) -> Seq<char> {
    quoted(pair.0) + seq![':'] + quoted(pair.1)
}

/// The members for `pairs`, with a comma between each two.
pub open spec fn members(pairs: Seq<Pair>) -> Seq<char>
    decreases pairs.len(),
{
    if pairs.len() == 0 {
        Seq::empty()
    } else if pairs.len() == 1 {
        member(pairs[0])
    } else {
        members(pairs.drop_last()) + seq![','] + member(pairs.last())
    }
}

/// The object that holds `pairs`.
pub open spec fn object(pairs: Seq<Pair>) -> Seq<char> {
    seq!['{'] + members(pairs) + seq!['}']
}

/// The whole text: an object with the tracks under "tracks" and the albums
/// under "albums".
pub open spec fn document(tracks: Seq<Pair>, albums: Seq<Pair>) -> Seq<char> {
    seq!['{'] + quoted(seq!['t', 'r', 'a', 'c', 'k', 's']) + seq![':'] + object(tracks) + seq![',']
        + quoted(seq!['a', 'l', 'b', 'u', 'm', 's']) + seq![':'] + object(albums) + seq!['}']
}

/// No title stands twice in `pairs`.
pub open spec fn has_distinct_titles(pairs: Seq<Pair>) -> bool {
    forall|i: int, j: int| 0 <= i < j < pairs.len() ==> pairs[i].0 != pairs[j].0
}

/// `pairs` after `title` was given `url`: in the place where the title
/// stood, or at the end where it is new.
pub open spec fn put(pairs: Seq<Pair>, title: Seq<char>, url: Seq<char>) -> Seq<Pair> {
    if exists|i: int| 0 <= i < pairs.len() && pairs[i].0 == title {
        let i = choose|i: int| 0 <= i < pairs.len() && pairs[i].0 == title;
        pairs.update(i, (title, url))
    } else {
        pairs.push((title, url))
    }
}

/// The addresses found for the titles of one kind. A title stands in it
/// once: the address given last is the one it keeps.
#[derive(Debug)]
pub struct UrlTable {
    entries: Vec<(String, String)>,
}

impl UrlTable {
    #[verifier::type_invariant]
    spec fn well_formed(self) -> bool {
        has_distinct_titles(self.pairs())
    }

    /// The titles with their addresses, in the order in which the titles
    /// came.
    pub closed spec fn pairs(self) -> Seq<Pair> {
        self.entries@.map_values(|e: (String, String)| (e.0@, e.1@))
    }

    /// An empty table.
    pub fn new() -> (r: Self)
        ensures
            r.pairs() == Seq::<Pair>::empty(),
    {
        let r = UrlTable { entries: Vec::new() };
        assert(r.pairs() =~= Seq::<Pair>::empty());
        r
    }

    /// The number of titles.
    pub fn len(&self) -> (r: usize)
        ensures
            r == self.pairs().len(),
            has_distinct_titles(self.pairs()),
    {
        proof {
            use_type_invariant(self);
        }
        self.entries.len()
    }

    /// Where `title` stands in the table.
    fn position(&self, title: &String) -> (r: Option<usize>)
        ensures
            match r {
                Some(i) => i < self.pairs().len() && self.pairs()[i as int].0 == title@,
                None => forall|i: int| 0 <= i < self.pairs().len() ==> self.pairs()[i].0 != title@,
            },
    {
        let mut i: usize = 0;
        while i < self.entries.len()
            invariant
                i <= self.entries.len(),
                forall|k: int| 0 <= k < i ==> self.pairs()[k].0 != title@,
            decreases self.entries.len() - i,
        {
            if self.entries[i].0 == *title {
                return Some(i);
            }
            i += 1;
        }
        None
    }

    /// The address held for `title`.
    pub fn get(&self, title: &str) -> (r: Option<String>)
        ensures
            match r {
                Some(url) => exists|i: int|
                    0 <= i < self.pairs().len() && #[trigger] self.pairs()[i] == (title@, url@),
                None => forall|i: int| 0 <= i < self.pairs().len() ==> self.pairs()[i].0 != title@,
            },
    {
        let wanted = title.to_owned();
        match self.position(&wanted) {
            Some(i) => Some(self.entries[i].1.clone()),
            None => None,
        }
    }

    /// Gives `title` the address `url`, in place of the one it had.
    pub fn insert(&mut self, title: String, url: String)
        ensures
            final(self).pairs() == put(old(self).pairs(), title@, url@),
            has_distinct_titles(final(self).pairs()),
    {
        proof {
            use_type_invariant(&*self);
        }
        let ghost before = self.pairs();
        match self.position(&title) {
            Some(i) => {
                let mut entries: Vec<(String, String)> = Vec::new();
                std::mem::swap(&mut entries, &mut self.entries);
                entries.set(i, (title, url));
                proof {
                    let after = entries@.map_values(|e: (String, String)| (e.0@, e.1@));
                    let at = choose|k: int| 0 <= k < before.len() && before[k].0 == title@;
                    assert(at == i);
                    assert(after =~= before.update(i as int, (title@, url@)));
                }
                self.entries = entries;
            },
            None => {
                let mut entries: Vec<(String, String)> = Vec::new();
                std::mem::swap(&mut entries, &mut self.entries);
                entries.push((title, url));
                proof {
                    let after = entries@.map_values(|e: (String, String)| (e.0@, e.1@));
                    assert(after =~= before.push((title@, url@)));
                }
                self.entries = entries;
            },
        }
    }
}

/// Appends a character as it stands inside a quoted text.
fn push_escape(out: &mut Vec<char>, c: char)
    ensures
        final(out)@ == old(out)@ + escape(c),
{
    let ghost before = out@;
    if c == '"' || c == '\\' {
        out.push('\\');
        out.push(c);
    } else if c == '\n' {
        out.push('\\');
        out.push('n');
    } else if c == '\r' {
        out.push('\\');
        out.push('r');
    } else if c == '\t' {
        out.push('\\');
        out.push('t');
    } else if ' ' > c {
        let code: u8 = c as u8;
        out.push('\\');
        out.push('u');
        out.push('0');
        out.push('0');
        out.push(hex(code / 16));
        out.push(hex(code % 16));
    } else {
        out.push(c);
    }
    assert(out@ =~= before + escape(c));
}

/// The digit for `n` in base sixteen.
fn hex(n: u8) -> (r: char)
    requires
        n < 16,
    ensures
        r == hex_digit(n as int),
{
    if n < 10 {
        (48u8 + n) as char
    } else {
        (87u8 + n) as char
    }
}

/// Appends a text with each of its characters escaped.
fn push_escaped(out: &mut Vec<char>, s: &str)
    ensures
        final(out)@ == old(out)@ + escaped(s@),
{
    let ghost before = out@;
    let ghost each = |c: char| escape(c);
    for c in it: s.chars()
        invariant
            each == |c: char| escape(c),
            it.seq() == s@,
            out@ == before + s@.take(it.index() as int).map_values(each).flatten(),
    {
        let ghost done = s@.take(it.index() as int);
        proof {
            s@.lemma_take_succ_push(it.index() as int);
            done.lemma_push_map_commute(each, c);
            done.map_values(each).lemma_flatten_push(escape(c));
        }
        push_escape(out, c);
    }
    proof {
        s@.lemma_take_len();
    }
}

/// Appends a text between quotation marks.
fn push_quoted(out: &mut Vec<char>, s: &str)
    ensures
        final(out)@ == old(out)@ + quoted(s@),
{
    let ghost before = out@;
    out.push('"');
    push_escaped(out, s);
    out.push('"');
    assert(out@ =~= before + quoted(s@));
}

/// Appends the object that holds a table.
fn push_object(out: &mut Vec<char>, table: &UrlTable)
    ensures
        final(out)@ == old(out)@ + object(table.pairs()),
{
    let ghost before = out@;
    let ghost pairs = table.pairs();
    out.push('{');
    let mut i: usize = 0;
    while i < table.entries.len()
        invariant
            i <= table.entries.len(),
            pairs == table.pairs(),
            out@ == before + seq!['{'] + members(pairs.take(i as int)),
        decreases table.entries.len() - i,
    {
        let ghost done = out@;
        proof {
            assert(pairs.take(i + 1).drop_last() =~= pairs.take(i as int));
            assert(pairs.take(i + 1).last() == pairs[i as int]);
        }
        if i > 0 {
            out.push(',');
        }
        push_quoted(out, table.entries[i].0.as_str());
        out.push(':');
        push_quoted(out, table.entries[i].1.as_str());
        assert(out@ =~= before + seq!['{'] + members(pairs.take(i + 1)));
        i += 1;
    }
    out.push('}');
    proof {
        pairs.lemma_take_len();
        assert(out@ =~= before + object(pairs));
    }
}

/// Writes the two tables out as one text: an object that holds the tracks
/// under "tracks" and the albums under "albums", each an object of its own
/// with an address for each title.
pub fn render(tracks: &UrlTable, albums: &UrlTable) -> (r: String)
    ensures
        r@ == document(tracks.pairs(), albums.pairs()),
{
    proof {
        reveal_strlit("tracks");
        reveal_strlit("albums");
        assert("tracks"@ =~= seq!['t', 'r', 'a', 'c', 'k', 's']);
        assert("albums"@ =~= seq!['a', 'l', 'b', 'u', 'm', 's']);
    }
    let mut out: Vec<char> = Vec::new();
    out.push('{');
    push_quoted(&mut out, "tracks");
    out.push(':');
    push_object(&mut out, tracks);
    out.push(',');
    push_quoted(&mut out, "albums");
    out.push(':');
    push_object(&mut out, albums);
    out.push('}');
    assert(out@ =~= document(tracks.pairs(), albums.pairs()));
    from_chars(&out)
}

/// The name of the file that the text for an artist is written to.
pub fn file_name(artist_key: &str) -> (r: String)
    ensures
        r@ == artist_key@ + seq!['.', 'j', 's', 'o', 'n'],
{
    proof {
        reveal_strlit(".json");
        assert(".json"@ =~= seq!['.', 'j', 's', 'o', 'n']);
    }
    let mut r = artist_key.to_owned();
    r.append(".json");
    r
}

} // verus!
