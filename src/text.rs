use vstd::prelude::*;

verus! {

/// Whether `char::is_alphabetic` holds of a character (the Unicode `Alphabetic` property).
pub uninterp spec fn alphabetic(c: char) -> bool;

/// Relies on `char::is_alphabetic`, whose result depends on the character alone.
#[verifier::external_body]
pub(crate) fn is_alphabetic(c: char) -> (r: bool)
    ensures
        r == alphabetic(c),
{
    c.is_alphabetic()
}

/// Relies on `str::chars` collected into a `Vec`: the characters in order.
#[verifier::external_body]
pub(crate) fn chars_of(s: &str) -> (r: Vec<char>)
    ensures
        r@ == s@,
{
    s.chars().collect()
}

/// Relies on collecting characters into a `String` (`FromIterator<&char>`): the same characters in order.
#[verifier::external_body]
pub(crate) fn string_of(v: &Vec<char>) -> (r: String)
    ensures
        r@ == v@,
{
    v.iter().collect()
}

/// A string holding one character.
pub fn string_of_char(c: char) -> (r: String)
    ensures
        r@ == seq![c],
{
    let v = vec![c];
    string_of(&v)
}

/// Characters of a `String`.
pub fn chars_of_string(s: &String) -> (r: Vec<char>)
    ensures
        r@ == s@,
{
    chars_of(s.as_str())
}

/// Whether a character occurs in a text.
pub fn contains_char(s: &Vec<char>, c: char) -> (r: bool)
    ensures
        r == s@.contains(c),
{
    let mut i: usize = 0;
    while i < s.len()
        invariant
            i <= s@.len(),
            forall|k: int| 0 <= k < i ==> s@[k] != c,
        decreases s.len() - i,
    {
        if s[i] == c {
            return true;
        }
        i += 1;
    }
    false
}


/// Lines finished so far, and the line being read, after a prefix of a text.
pub open spec fn lines_state(cs: Seq<char>) -> (Seq<Seq<char>>, Seq<char>)
    decreases cs.len(),
{
    if cs.len() == 0 {
        (Seq::empty(), Seq::empty())
    } else {
        let (ls, cur) = lines_state(cs.drop_last());
        if cs.last() == '\n' {
            (ls.push(cur), Seq::empty())
        } else {
            (ls, cur.push(cs.last()))
        }
    }
}

/// The lines of a text: the pieces between line breaks, without a last
/// empty piece.
pub open spec fn split_lines(cs: Seq<char>) -> Seq<Seq<char>> {
    let (ls, cur) = lines_state(cs);
    if cur.len() > 0 { ls.push(cur) } else { ls }
}

pub open spec fn strings_view(v: Seq<String>) -> Seq<Seq<char>> {
    v.map_values(|s: String| s@)
}

/// The lines of a text, without their line breaks.
pub fn lines_of(data: &str) -> (r: Vec<String>)
    ensures
        strings_view(r@) == split_lines(data@),
{
    let cs = chars_of(data);
    let mut lines: Vec<String> = Vec::new();
    let mut cur: Vec<char> = Vec::new();
    let mut i: usize = 0;
    while i < cs.len()
        invariant
            i <= cs@.len(),
            cs@ == data@,
            lines_state(cs@.take(i as int)) == (strings_view(lines@), cur@),
        decreases cs.len() - i,
    {
        let c = cs[i];
        assert(cs@.take(i + 1).drop_last() =~= cs@.take(i as int));
        let ghost before = lines@;
        if c == '\n' {
            let line = string_of(&cur);
            lines.push(line);
            cur = Vec::new();
            assert(strings_view(lines@) =~= strings_view(before).push(line@));
            assert(cur@ =~= Seq::<char>::empty());
        } else {
            cur.push(c);
        }
        i += 1;
    }
    assert(cs@.take(i as int) =~= cs@);
    if cur.len() > 0 {
        let ghost before = lines@;
        let line = string_of(&cur);
        lines.push(line);
        assert(strings_view(lines@) =~= strings_view(before).push(line@));
    }
    lines
}

} // verus!
