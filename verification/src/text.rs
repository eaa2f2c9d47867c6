//! Text as sequences of characters.

use vstd::prelude::*;

verus! {

/// `String::push`: the character is appended to the text.
pub assume_specification[ std::string::String::push ](s: &mut std::string::String, ch: char)
    ensures
        final(s)@ == old(s)@.push(ch),
;

/// What `str::to_lowercase` returns for a text.
pub uninterp spec fn lowercase(source: Seq<char>) -> Seq<char>;

/// What `str::to_uppercase` returns for a text.
pub uninterp spec fn uppercase(source: Seq<char>) -> Seq<char>;

pub open spec fn ascii_lowercase(c: char) -> char {
    if 'A' <= c <= 'Z' {
        (c as int + 32) as char
    } else {
        c
    }
}

pub open spec fn ascii_uppercase(c: char) -> char {
    if 'a' <= c <= 'z' {
        (c as int - 32) as char
    } else {
        c
    }
}

/// A text of ASCII characters in lower case.
pub open spec fn plain_lowercase(source: Seq<char>) -> Seq<char> {
    source.map_values(|c: char| ascii_lowercase(c))
}

pub open spec fn is_ascii(source: Seq<char>) -> bool {
    forall|i: int| 0 <= i < source.len() ==> (#[trigger] source[i]) as int <= 127
}

/// `str::to_lowercase`: the result depends on the text alone. In a text of ASCII
/// characters the letters `A` to `Z` become `a` to `z` and the rest stays.
pub assume_specification[ str::to_lowercase ](s: &str) -> (lower: std::string::String)
    ensures
        lower@ == lowercase(s@),
        is_ascii(s@) ==> lower@ == s@.map_values(|c: char| ascii_lowercase(c)),
;

/// `str::to_uppercase`: the result depends on the text alone. In a text of ASCII
/// characters the letters `a` to `z` become `A` to `Z` and the rest stays.
pub assume_specification[ str::to_uppercase ](s: &str) -> (upper: std::string::String)
    ensures
        upper@ == uppercase(s@),
        is_ascii(s@) ==> upper@ == s@.map_values(|c: char| ascii_uppercase(c)),
;

/// Whether `part` occurs in `whole` as a contiguous run.
pub open spec fn occurs(part: Seq<char>, whole: Seq<char>) -> bool {
    exists|i: int| #[trigger] occurs_at(part, whole, i)
}

/// Whether `part` occurs in `whole` from position `i` on.
pub open spec fn occurs_at(part: Seq<char>, whole: Seq<char>, i: int) -> bool {
    0 <= i <= whole.len() - part.len() && whole.subrange(i, i + part.len()) == part
}

/// The characters of a text.
pub fn characters(text: &str) -> (chars: Vec<char>)
    ensures
        chars@ == text@,
{
    let mut chars: Vec<char> = Vec::new();
    for c in it: text.chars()
        invariant
            it.seq() == text@,
            chars@ == it.seq().take(it.index() as int),
    {
        chars.push(c);
    }
    chars
}

/// Whether the two texts are the same.
pub fn same(a: &str, b: &str) -> (r: bool)
    ensures
        r == (a@ == b@),
{
    a.to_owned() == b.to_owned()
}

fn matches_at(whole: &Vec<char>, part: &Vec<char>, at: usize) -> (r: bool)
    requires
        at + part.len() <= whole.len(),
    ensures
        r == occurs_at(part@, whole@, at as int),
{
    for i in 0..part.len()
        invariant
            at + part.len() <= whole.len(),
            whole@.subrange(at as int, at + i) == part@.take(i as int),
    {
        if whole[at + i] != part[i] {
            assert(whole@.subrange(at as int, at + part.len())[i as int] != part@[i as int]);
            return false;
        }
        assert(whole@.subrange(at as int, at + i + 1) == whole@.subrange(
            at as int,
            at + i,
        ).push(whole@[at + i]));
    }
    assert(part@.take(part.len() as int) == part@);
    true
}

/// Whether `part` occurs in the text.
pub fn contains(text: &str, part: &str) -> (r: bool)
    ensures
        r == occurs(part@, text@),
{
    let whole = characters(text);
    let wanted = characters(part);
    if wanted.len() > whole.len() {
        return false;
    }
    let last: usize = whole.len() - wanted.len();
    for i in 0..last
        invariant
            last + wanted.len() == whole.len(),
            whole@ == text@,
            wanted@ == part@,
            forall|j: int| 0 <= j < i ==> !#[trigger] occurs_at(part@, text@, j),
    {
        if matches_at(&whole, &wanted, i) {
            return true;
        }
    }
    matches_at(&whole, &wanted, last)
}

/// Whether the text begins with `part`.
pub fn starts_with(text: &str, part: &str) -> (r: bool)
    ensures
        r == part@.is_prefix_of(text@),
{
    let whole = characters(text);
    let wanted = characters(part);
    if wanted.len() > whole.len() {
        return false;
    }
    matches_at(&whole, &wanted, 0)
}

/// Whether the text ends with `part`.
pub fn ends_with(text: &str, part: &str) -> (r: bool)
    ensures
        r == part@.is_suffix_of(text@),
{
    let whole = characters(text);
    let wanted = characters(part);
    if wanted.len() > whole.len() {
        return false;
    }
    matches_at(&whole, &wanted, whole.len() - wanted.len())
}

/// The texts one after the other, with `gap` between neighbours.
pub open spec fn joined(parts: Seq<Seq<char>>, gap: Seq<char>) -> Seq<char>
    decreases parts.len(),
{
    if parts.len() == 0 {
        Seq::empty()
    } else if parts.len() == 1 {
        parts[0]
    } else {
        joined(parts.drop_last(), gap) + gap + parts.last()
    }
}

/// The views of a list of texts.
pub open spec fn views(texts: Seq<String>) -> Seq<Seq<char>> {
    texts.map_values(|t: String| t@)
}

/// A copy of a list of texts.
pub fn copy(texts: &Vec<String>) -> (r: Vec<String>)
    ensures
        views(r@) == views(texts@),
{
    let r = texts.clone();
    assert forall|i: int| 0 <= i < texts.len() implies r@[i]@ == texts@[i]@ by {
        assert(cloned::<String>(texts[i], r[i]));
    }
    assert(views(r@) =~= views(texts@));
    r
}

/// The texts one after the other, with `gap` between neighbours.
pub fn join(parts: &Vec<String>, gap: &str) -> (text: String)
    ensures
        text@ == joined(views(parts@), gap@),
{
    let mut text = String::new();
    for i in 0..parts.len()
        invariant
            text@ == joined(views(parts@).take(i as int), gap@),
    {
        let ghost before = views(parts@).take(i as int);
        let ghost after = views(parts@).take(i + 1);
        assert(after.drop_last() == before);
        assert(after.last() == parts@[i as int]@);
        if i > 0 {
            text.append(gap);
        }
        text.append(parts[i].as_str());
    }
    assert(views(parts@).take(parts.len() as int) == views(parts@));
    text
}

} // verus!
