//! Operations on the characters of a name.
//!
//! The contracts speak of strings as sequences of characters. A few
//! functions of this module hand their work to the standard library and are
//! not proved: each of them says above it which call it wraps and what it
//! takes that call to return.
use vstd::prelude::*;
use vstd::utf8::is_ascii_chars;

verus! {

/// `suffix` stands at the end of `s`.
pub open spec fn has_suffix(s: Seq<char>, suffix: Seq<char>) -> bool {
    suffix.len() <= s.len() && s.skip(s.len() - suffix.len()) =~= suffix
}

/// `pattern` stands in `s` from position `i` on.
pub open spec fn occurs_at(s: Seq<char>, pattern: Seq<char>, i: int) -> bool {
    0 <= i && i + pattern.len() <= s.len() && s.subrange(i, i + pattern.len()) =~= pattern
}

/// `pattern` stands somewhere in `s`.
pub open spec fn occurs(s: Seq<char>, pattern: Seq<char>) -> bool {
    exists|i: int| occurs_at(s, pattern, i)
}

/// `s` with `suffix` taken off its end for as long as it stands there.
pub open spec fn without_suffixes(s: Seq<char>, suffix: Seq<char>) -> Seq<char>
    decreases s.len(),
{
    if suffix.len() > 0 && has_suffix(s, suffix) {
        without_suffixes(s.take(s.len() - suffix.len()), suffix)
    } else {
        s
    }
}

/// `s` with every occurrence of `from` exchanged for `to`, found from the
/// left, each search going on behind the occurrence before it. With an
/// empty `from` this is `s` itself.
pub open spec fn replaced(s: Seq<char>, from: Seq<char>, to: Seq<char>) -> Seq<char>
    decreases s.len(),
{
    if from.len() == 0 || s.len() < from.len() {
        s
    } else if s.take(from.len() as int) =~= from {
        to + replaced(s.skip(from.len() as int), from, to)
    } else {
        seq![s[0]] + replaced(s.skip(1), from, to)
    }
}

/// The characters with the Unicode property `White_Space`.
pub open spec fn is_whitespace(c: char) -> bool {
    ||| '\u{9}' <= c <= '\u{d}'
    ||| c == ' '
    ||| c == '\u{85}'
    ||| c == '\u{a0}'
    ||| c == '\u{1680}'
    ||| '\u{2000}' <= c <= '\u{200a}'
    ||| c == '\u{2028}'
    ||| c == '\u{2029}'
    ||| c == '\u{202f}'
    ||| c == '\u{205f}'
    ||| c == '\u{3000}'
}

/// `s` without the whitespace at its start.
pub open spec fn trimmed_start(s: Seq<char>) -> Seq<char>
    decreases s.len(),
{
    if s.len() > 0 && is_whitespace(s[0]) {
        trimmed_start(s.skip(1))
    } else {
        s
    }
}

/// `s` without the whitespace at its end.
pub open spec fn trimmed_end(s: Seq<char>) -> Seq<char>
    decreases s.len(),
{
    if s.len() > 0 && is_whitespace(s.last()) {
        trimmed_end(s.drop_last())
    } else {
        s
    }
}

/// `s` without the whitespace at either end.
pub open spec fn trimmed(s: Seq<char>) -> Seq<char> {
    trimmed_end(trimmed_start(s))
}

/// The lower-case form of an ASCII capital; any other character as it is.
pub open spec fn ascii_lower(c: char) -> char {
    if 'A' <= c <= 'Z' {
        ((c as int) + 32) as char
    } else {
        c
    }
}

/// `s` with each ASCII capital in lower case.
pub open spec fn ascii_lowercased(s: Seq<char>) -> Seq<char> {
    s.map_values(|c: char| ascii_lower(c))
}

/// The lower-case form that Unicode gives to `s`.
pub uninterp spec fn unicode_lowercased(s: Seq<char>) -> Seq<char>;

/// `s` in lower case. For ASCII text this is known character by character;
/// for any other text it is whatever Unicode's tables say.
pub open spec fn lowercased(s: Seq<char>) -> Seq<char> {
    if is_ascii_chars(s) {
        ascii_lowercased(s)
    } else {
        unicode_lowercased(s)
    }
}

/// The parts of `s` between the occurrences of `separator`, in their order.
/// There is one part more than there are separators; a part may be empty.
pub open spec fn split_on(s: Seq<char>, separator: char) -> Seq<Seq<char>>
    decreases s.len(),
{
    if s.len() == 0 {
        seq![Seq::empty()]
    } else {
        let rest = split_on(s.skip(1), separator);
        if s[0] == separator {
            seq![Seq::empty()] + rest
        } else {
            rest.update(0, seq![s[0]] + rest[0])
        }
    }
}

/// The texts of a list of strings.
pub open spec fn names(list: Seq<String>) -> Seq<Seq<char>> {
    list.map_values(|s: String| s@)
}

/// One of the two characters that stand between words in a file name.
pub open spec fn is_separator(c: char) -> bool {
    c == '-' || c == '_'
}

/// `s` with a space in place of each separator.
pub open spec fn spaced(s: Seq<char>) -> Seq<char> {
    s.map_values(|c: char| if is_separator(c) { ' ' } else { c })
}

/// `s` with every occurrence of `pattern` taken out, as `replaced` finds
/// them. An empty pattern takes nothing out.
pub open spec fn without(s: Seq<char>, pattern: Seq<char>) -> Seq<char> {
    if pattern.len() == 0 {
        s
    } else {
        replaced(s, pattern, Seq::empty())
    }
}

/// No character of `s` is a separator.
pub open spec fn has_no_separator(s: Seq<char>) -> bool {
    forall|i: int| 0 <= i < s.len() ==> !is_separator(#[trigger] s[i])
}

/// Every character of `s` meets `p`.
pub open spec fn all_chars(s: Seq<char>, p: spec_fn(char) -> bool) -> bool {
    forall|i: int| 0 <= i < s.len() ==> #[trigger] p(s[i])
}

/// Trimming would change nothing: `s` neither starts nor ends in whitespace.
pub open spec fn is_trimmed(s: Seq<char>) -> bool {
    s.len() == 0 || (!is_whitespace(s[0]) && !is_whitespace(s.last()))
}

/// The characters of `s`, in their order.
fn chars_of(s: &str) -> (r: Vec<char>)
    ensures
        r@ == s@,
{
    let mut out: Vec<char> = Vec::new();
    for c in it: s.chars()
        invariant
            it.seq() == s@,
            out@ == s@.take(it.index() as int),
    {
        proof {
            s@.lemma_take_succ_push(it.index() as int);
        }
        out.push(c);
    }
    proof {
        s@.lemma_take_len();
    }
    out
}

/// Whether `pattern` stands in `text` from position `at` on.
fn matches_at(text: &Vec<char>, pattern: &Vec<char>, at: usize) -> (r: bool)
    requires
        at + pattern.len() <= text.len(),
    ensures
        r == occurs_at(text@, pattern@, at as int),
{
    let ghost part = text@.subrange(at as int, at + pattern.len());
    let mut k: usize = 0;
    while k < pattern.len()
        invariant
            k <= pattern.len(),
            at + pattern.len() <= text.len(),
            part == text@.subrange(at as int, at + pattern.len()),
            forall|l: int| 0 <= l < k ==> part[l] == pattern@[l],
        decreases pattern.len() - k,
    {
        if text[at + k] != pattern[k] {
            assert(part[k as int] != pattern@[k as int]);
            return false;
        }
        k += 1;
    }
    assert(part =~= pattern@);
    true
}

/// Whether `suffix` stands at the end of `s`.
pub(crate) fn ends_with(s: &str, suffix: &str) -> (r: bool)
    ensures
        r == has_suffix(s@, suffix@),
{
    let text = chars_of(s);
    let pattern = chars_of(suffix);
    if pattern.len() > text.len() {
        false
    } else {
        let at = text.len() - pattern.len();
        assert(text@.skip(at as int) =~= text@.subrange(at as int, at + pattern.len()));
        matches_at(&text, &pattern, at)
    }
}

/// Whether `pattern` stands somewhere in `s`.
pub(crate) fn contains(s: &str, pattern: &str) -> (r: bool)
    ensures
        r == occurs(s@, pattern@),
{
    let text = chars_of(s);
    let wanted = chars_of(pattern);
    if wanted.len() > text.len() {
        return false;
    }
    let last = text.len() - wanted.len();
    let mut i: usize = 0;
    while i <= last
        invariant
            i <= last + 1,
            last + wanted.len() == text.len(),
            text@ == s@,
            wanted@ == pattern@,
            forall|k: int| 0 <= k < i ==> !occurs_at(text@, wanted@, k),
        decreases last + 1 - i,
    {
        if matches_at(&text, &wanted, i) {
            return true;
        }
        i += 1;
    }
    false
}

/// Wraps `str::split` with a character as the pattern, and copies each part
/// that it yields into a string of its own: the parts of `s` between the
/// matches of `separator`, in their order.
#[verifier::external_body]
pub(crate) fn split(s: &str, separator: char) -> (r: Vec<String>)
    ensures
        names(r@) == split_on(s@, separator),
{
    s.split(separator).map(String::from).collect()
}

/// Wraps the collecting of characters into a `String` (`String::from_iter`):
/// the result holds the characters of `chars`, in their order.
#[verifier::external_body]
pub(crate) fn from_chars(chars: &Vec<char>) -> (r: String)
    ensures
        r@ == chars@,
{
    chars.iter().collect()
}

/// Wraps `str::trim_end_matches` with a string as the pattern: the result is
/// `s` with every match of `suffix` at its end taken off, one after another.
/// An empty pattern is left out.
#[verifier::external_body]
pub(crate) fn trim_end_matches<'a>(s: &'a str, suffix: &str) -> (r: &'a str)
    requires
        suffix@.len() > 0,
    ensures
        r@ == without_suffixes(s@, suffix@),
{
    s.trim_end_matches(suffix)
}

/// Wraps `str::replace` with a string as the pattern: the result is `s` with
/// each match of `from` exchanged for `to`. The matches are those that a
/// search from the left finds when it goes on behind each match, so they do
/// not overlap. An empty pattern is left out.
#[verifier::external_body]
pub(crate) fn replace(s: &str, from: &str, to: &str) -> (r: String)
    requires
        from@.len() > 0,
    ensures
        r@ == replaced(s@, from@, to@),
{
    s.replace(from, to)
}

/// Wraps `str::trim`: the result is `s` without leading and trailing
/// whitespace, which is every character with the Unicode property
/// `White_Space`.
#[verifier::external_body]
pub(crate) fn trim<'a>(s: &'a str) -> (r: &'a str)
    ensures
        r@ == trimmed(s@),
{
    s.trim()
}

/// The lower-case form of an ASCII capital; any other character as it is.
fn to_ascii_lower(c: char) -> (r: char)
    ensures
        r == ascii_lower(c),
{
    if c >= 'A' && 'Z' >= c {
        let code: u8 = c as u8;
        (code + 32) as char
    } else {
        c
    }
}

/// A copy of `s` in which the letters 'A' to 'Z' have become 'a' to 'z' and
/// nothing else has changed.
pub(crate) fn to_ascii_lowercase(s: &str) -> (r: String)
    ensures
        r@ == ascii_lowercased(s@),
{
    let ghost lower = |c: char| ascii_lower(c);
    let mut out: Vec<char> = Vec::new();
    for c in it: s.chars()
        invariant
            lower == |c: char| ascii_lower(c),
            it.seq() == s@,
            out@ == s@.take(it.index() as int).map_values(lower),
    {
        proof {
            s@.lemma_take_succ_push(it.index() as int);
            s@.take(it.index() as int).lemma_push_map_commute(lower, c);
        }
        out.push(to_ascii_lower(c));
    }
    proof {
        s@.lemma_take_len();
    }
    from_chars(&out)
}

/// Wraps `str::to_lowercase`. What Unicode's case tables make of a text is
/// not written out here: the contract only gives the result a name, so that
/// equal texts are known to have equal lower-case forms.
#[verifier::external_body]
pub(crate) fn to_lowercase(s: &str) -> (r: String)
    ensures
        r@ == unicode_lowercased(s@),
{
    s.to_lowercase()
}

/// The lower-case form of `s`.
///
/// ASCII text, the common case, is folded letter by letter, so its result is
/// known exactly; other text goes through Unicode's tables.
pub fn lowercase(s: &str) -> (r: String)
    ensures
        r@ == lowercased(s@),
{
    if s.is_ascii() {
        to_ascii_lowercase(s)
    } else {
        to_lowercase(s)
    }
}

/// `s` with a space in place of each '-' and each '_'.
pub fn space_separators(s: &str) -> (r: String)
    ensures
        r@ == spaced(s@),
{
    proof {
        reveal_strlit("-");
        reveal_strlit("_");
        reveal_strlit(" ");
        assert("-"@ =~= seq!['-']);
        assert("_"@ =~= seq!['_']);
        assert(" "@ =~= seq![' ']);
    }
    let dashes_gone = replace(s, "-", " ");
    let r = replace(dashes_gone.as_str(), "_", " ");
    proof {
        lemma_replaced_char(s@, '-', ' ');
        lemma_replaced_char(dashes_gone@, '_', ' ');
        assert(r@ =~= spaced(s@));
    }
    r
}

/// `s` with every occurrence of `pattern` taken out. An empty pattern takes
/// nothing out.
pub fn remove_all(s: &str, pattern: &str) -> (r: String)
    ensures
        r@ == without(s@, pattern@),
{
    if pattern.is_empty() {
        s.to_owned()
    } else {
        let r = replace(s, pattern, "");
        proof {
            reveal_strlit("");
            assert(""@ =~= Seq::<char>::empty());
        }
        r
    }
}

/// Exchanging one character for another changes each place by itself.
pub proof fn lemma_replaced_char(s: Seq<char>, from: char, to: char)
    ensures
        replaced(s, seq![from], seq![to]) == s.map_values(
            |c: char| if c == from { to } else { c },
        ),
    decreases s.len(),
{
    let f = |c: char| if c == from { to } else { c };
    if s.len() == 0 {
        assert(s =~= s.map_values(f));
    } else {
        lemma_replaced_char(s.skip(1), from, to);
        assert(s.take(1) =~= seq![from] <==> s[0] == from) by {
            if s[0] == from {
                assert(s.take(1) =~= seq![from]);
            } else {
                assert(s.take(1)[0] != seq![from][0]);
            }
        }
        assert(s.map_values(f) =~= seq![f(s[0])] + s.skip(1).map_values(f));
    }
}

/// A text that the pattern does not occur in is left as it is.
pub proof fn lemma_replaced_without_occurrence(s: Seq<char>, from: Seq<char>, to: Seq<char>)
    requires
        !occurs(s, from),
    ensures
        replaced(s, from, to) == s,
    decreases s.len(),
{
    if from.len() == 0 || s.len() < from.len() {
    } else {
        assert(!(s.take(from.len() as int) =~= from)) by {
            if s.take(from.len() as int) =~= from {
                assert(s.subrange(0, from.len() as int) =~= s.take(from.len() as int));
                assert(occurs_at(s, from, 0));
            }
        }
        assert(!occurs(s.skip(1), from)) by {
            if occurs(s.skip(1), from) {
                let i = choose|i: int| occurs_at(s.skip(1), from, i);
                assert(s.subrange(i + 1, i + 1 + from.len()) =~= s.skip(1).subrange(
                    i,
                    i + from.len(),
                ));
                assert(occurs_at(s, from, i + 1));
            }
        }
        lemma_replaced_without_occurrence(s.skip(1), from, to);
        assert(seq![s[0]] + s.skip(1) =~= s);
    }
}

/// Taking a pattern out brings in no character that was not there.
pub proof fn lemma_without_keeps(s: Seq<char>, pattern: Seq<char>, p: spec_fn(char) -> bool)
    requires
        all_chars(s, p),
    ensures
        all_chars(without(s, pattern), p),
    decreases s.len(),
{
    if pattern.len() == 0 || s.len() < pattern.len() {
    } else if s.take(pattern.len() as int) =~= pattern {
        let rest = s.skip(pattern.len() as int);
        assert(all_chars(rest, p)) by {
            assert forall|i: int| 0 <= i < rest.len() implies #[trigger] p(rest[i]) by {
                assert(rest[i] == s[i + pattern.len()]);
            }
        }
        lemma_without_keeps(rest, pattern, p);
        assert(without(s, pattern) =~= without(rest, pattern));
    } else {
        let rest = s.skip(1);
        assert(all_chars(rest, p)) by {
            assert forall|i: int| 0 <= i < rest.len() implies #[trigger] p(rest[i]) by {
                assert(rest[i] == s[i + 1]);
            }
        }
        lemma_without_keeps(rest, pattern, p);
        let tail = without(rest, pattern);
        assert(without(s, pattern) =~= seq![s[0]] + tail);
        assert forall|i: int| 0 <= i < without(s, pattern).len() implies #[trigger] p(
            without(s, pattern)[i],
        ) by {
            if i == 0 {
                assert(p(s[0]));
            } else {
                assert(without(s, pattern)[i] == tail[i - 1]);
            }
        }
    }
}

/// Where the text without its leading whitespace begins.
pub proof fn lemma_trimmed_start(s: Seq<char>) -> (k: int)
    ensures
        0 <= k <= s.len(),
        trimmed_start(s) == s.skip(k),
        k < s.len() ==> !is_whitespace(s[k]),
    decreases s.len(),
{
    if s.len() > 0 && is_whitespace(s[0]) {
        let k = lemma_trimmed_start(s.skip(1));
        assert(s.skip(1).skip(k) =~= s.skip(k + 1));
        k + 1
    } else {
        assert(s.skip(0) =~= s);
        0
    }
}

/// Where the text without its trailing whitespace ends.
pub proof fn lemma_trimmed_end(s: Seq<char>) -> (k: int)
    ensures
        0 <= k <= s.len(),
        trimmed_end(s) == s.take(k),
        k > 0 ==> !is_whitespace(s[k - 1]),
    decreases s.len(),
{
    if s.len() > 0 && is_whitespace(s.last()) {
        let k = lemma_trimmed_end(s.drop_last());
        assert(s.drop_last().take(k) =~= s.take(k));
        k
    } else {
        assert(s.take(s.len() as int) =~= s);
        s.len() as int
    }
}

/// The trimmed text is the part of the text between two positions, and it
/// neither starts nor ends in whitespace.
pub proof fn lemma_trimmed(s: Seq<char>) -> (bounds: (int, int))
    ensures
        0 <= bounds.0 <= bounds.1 <= s.len(),
        trimmed(s) == s.subrange(bounds.0, bounds.1),
        is_trimmed(trimmed(s)),
{
    let i = lemma_trimmed_start(s);
    let rest = s.skip(i);
    let k = lemma_trimmed_end(rest);
    assert(rest.take(k) =~= s.subrange(i, i + k));
    if k > 0 {
        assert(rest.take(k)[0] == s[i]);
        assert(rest.take(k).last() == rest[k - 1]);
    }
    (i, i + k)
}

/// A text that neither starts nor ends in whitespace is its own trimmed form.
pub proof fn lemma_trimmed_of_trimmed(s: Seq<char>)
    requires
        is_trimmed(s),
    ensures
        trimmed(s) == s,
{
}

/// The text without the suffixes is the text up to some position.
pub proof fn lemma_without_suffixes(s: Seq<char>, suffix: Seq<char>) -> (k: int)
    ensures
        0 <= k <= s.len(),
        without_suffixes(s, suffix) == s.take(k),
    decreases s.len(),
{
    if suffix.len() > 0 && has_suffix(s, suffix) {
        let shorter = s.take(s.len() - suffix.len());
        let k = lemma_without_suffixes(shorter, suffix);
        assert(shorter.take(k) =~= s.take(k));
        k
    } else {
        assert(s.take(s.len() as int) =~= s);
        s.len() as int
    }
}

/// What occurs in a part of a text occurs in the text.
pub proof fn lemma_occurs_in_part(s: Seq<char>, from: int, to: int, pattern: Seq<char>)
    requires
        0 <= from <= to <= s.len(),
        occurs(s.subrange(from, to), pattern),
    ensures
        occurs(s, pattern),
{
    let part = s.subrange(from, to);
    let i = choose|i: int| occurs_at(part, pattern, i);
    assert(s.subrange(from + i, from + i + pattern.len()) =~= part.subrange(i, i + pattern.len()));
    assert(occurs_at(s, pattern, from + i));
}

/// What lower-casing an ASCII character keeps: the result is ASCII, it is a
/// separator or whitespace exactly if the character was, and lower-casing it
/// again changes nothing.
pub proof fn lemma_ascii_lower(c: char)
    requires
        '\0' <= c <= '\u{7f}',
    ensures
        '\0' <= ascii_lower(c) <= '\u{7f}',
        is_separator(ascii_lower(c)) == is_separator(c),
        is_whitespace(ascii_lower(c)) == is_whitespace(c),
        ascii_lower(ascii_lower(c)) == ascii_lower(c),
{
}

/// Lower-casing ASCII text gives ASCII text of the same shape: separators
/// and whitespace stay where they were, and the result is in lower case.
pub proof fn lemma_ascii_lowercased(s: Seq<char>)
    requires
        is_ascii_chars(s),
    ensures
        is_ascii_chars(ascii_lowercased(s)),
        lowercased(s) == ascii_lowercased(s),
        lowercased(ascii_lowercased(s)) == ascii_lowercased(s),
        has_no_separator(s) ==> has_no_separator(ascii_lowercased(s)),
        is_trimmed(s) ==> is_trimmed(ascii_lowercased(s)),
{
    let low = ascii_lowercased(s);
    assert forall|i: int| 0 <= i < low.len() implies '\0' <= #[trigger] low[i] <= '\u{7f}' by {
        lemma_ascii_lower(s[i]);
    }
    assert(ascii_lowercased(low) =~= low) by {
        assert forall|i: int| 0 <= i < low.len() implies ascii_lowercased(low)[i] == low[i] by {
            lemma_ascii_lower(s[i]);
        }
    }
    if has_no_separator(s) {
        assert forall|i: int| 0 <= i < low.len() implies !is_separator(#[trigger] low[i]) by {
            lemma_ascii_lower(s[i]);
        }
    }
    if is_trimmed(s) && s.len() > 0 {
        lemma_ascii_lower(s[0]);
        lemma_ascii_lower(s.last());
        assert(low.last() == ascii_lower(s.last()));
    }
}

} // verus!
