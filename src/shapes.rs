use vstd::prelude::*;
use crate::text::{chars_of, split_lines, strings_view, lines_of, string_of, chars_of_string};

verus! {

/// Index of the first `c` in `s`, or its length.
pub open spec fn first_index(s: Seq<char>, c: char) -> int
    decreases s.len(),
{
    if s.len() == 0 {
        0
    } else if s[0] == c {
        0
    } else {
        1 + first_index(s.drop_first(), c)
    }
}

/// A shape line `name:value` (the value ends at a further colon); none
/// for a line without a colon.
pub open spec fn shape_entry(line: Seq<char>) -> Option<(Seq<char>, Seq<char>)> {
    let k = first_index(line, ':');
    if k >= line.len() {
        None
    } else {
        let rest = line.skip(k + 1);
        Some((line.take(k), rest.take(first_index(rest, ':'))))
    }
}

pub open spec fn shape_entries(lines: Seq<Seq<char>>) -> Seq<(Seq<char>, Seq<char>)>
    decreases lines.len(),
{
    if lines.len() == 0 {
        Seq::empty()
    } else {
        shape_entries(lines.drop_last()) + match shape_entry(lines.last()) {
            Some(e) => seq![e],
            None => Seq::empty(),
        }
    }
}

pub open spec fn pairs_view(v: Seq<(String, String)>) -> Seq<(Seq<char>, Seq<char>)> {
    v.map_values(|p: (String, String)| (p.0@, p.1@))
}

proof fn lemma_first_index(s: Seq<char>, c: char, k: int)
    requires
        0 <= k <= s.len(),
        forall|j: int| 0 <= j < k ==> s[j] != c,
        k < s.len() ==> s[k] == c,
    ensures
        first_index(s, c) == k,
    decreases s.len(),
{
    if s.len() > 0 && k > 0 {
        lemma_first_index(s.drop_first(), c, k - 1);
    }
}

fn find_char(s: &Vec<char>, from: usize, c: char) -> (r: usize)
    requires
        from <= s@.len(),
    ensures
        from + first_index(s@.skip(from as int), c) == r,
        from <= r <= s@.len(),
        r < s@.len() ==> s@[r as int] == c,
        forall|j: int| from <= j < r ==> s@[j] != c,
{
    let mut i = from;
    while i < s.len() && s[i] != c
        invariant
            from <= i <= s@.len(),
            forall|j: int| from <= j < i ==> s@[j] != c,
        decreases s.len() - i,
    {
        i += 1;
    }
    proof {
        let t = s@.skip(from as int);
        assert forall|j: int| 0 <= j < i - from implies t[j] != c by {
            assert(t[j] == s@[from + j]);
        }
        if i < s@.len() {
            assert(t[i - from] == s@[i as int]);
        }
        lemma_first_index(t, c, i - from);
    }
    i
}

fn slice_text(s: &Vec<char>, a: usize, b: usize) -> (r: String)
    requires
        a <= b <= s@.len(),
    ensures
        r@ == s@.subrange(a as int, b as int),
{
    let mut v: Vec<char> = Vec::new();
    let mut i = a;
    while i < b
        invariant
            a <= i <= b <= s@.len(),
            v@ == s@.subrange(a as int, i as int),
        decreases b - i,
    {
        v.push(s[i]);
        i += 1;
        assert(v@ =~= s@.subrange(a as int, i as int));
    }
    string_of(&v)
}

/// Reads one `name:value` line.
pub fn shape_line(line: &String) -> (r: Option<(String, String)>)
    ensures
        match r {
            Some(p) => shape_entry(line@) == Some((p.0@, p.1@)),
            None => shape_entry(line@) is None,
        },
{
    let cs = chars_of_string(line);
    assert(cs@.skip(0) =~= cs@);
    let k = find_char(&cs, 0, ':');
    if k >= cs.len() {
        return None;
    }
    let e = find_char(&cs, k + 1, ':');
    let name = slice_text(&cs, 0, k);
    let value = slice_text(&cs, k + 1, e);
    proof {
        let rest = cs@.skip(k + 1);
        assert(name@ =~= cs@.take(k as int));
        assert(value@ =~= rest.take(first_index(rest, ':')));
    }
    Some((name, value))
}

/// Reads a shape table: one `name:value` entry per line; lines without a
/// colon are passed over.
pub fn parse_shapes(s: &str) -> (r: Vec<(String, String)>)
    ensures
        pairs_view(r@) == shape_entries(split_lines(s@)),
{
    let lines = lines_of(s);
    let mut r: Vec<(String, String)> = Vec::new();
    let mut i: usize = 0;
    while i < lines.len()
        invariant
            i <= lines@.len(),
            strings_view(lines@) == split_lines(s@),
            pairs_view(r@) == shape_entries(strings_view(lines@).take(i as int)),
        decreases lines.len() - i,
    {
        let ghost before = r@;
        assert(strings_view(lines@).take(i + 1).drop_last() =~= strings_view(lines@).take(i as int));
        assert(strings_view(lines@).take(i + 1).last() == lines@[i as int]@);
        match shape_line(&lines[i]) {
            Some(p) => {
                r.push(p);
                assert(pairs_view(r@) =~= pairs_view(before) + seq![(p.0@, p.1@)]);
            },
            None => {
                assert(pairs_view(r@) =~= pairs_view(before) + Seq::<(Seq<char>, Seq<char>)>::empty());
            },
        }
        i += 1;
    }
    assert(strings_view(lines@).take(i as int) =~= strings_view(lines@));
    r
}

/// Words finished so far, and the word being read, after a prefix of a text.
pub open spec fn words_state(cs: Seq<char>) -> (Seq<Seq<char>>, Seq<char>)
    decreases cs.len(),
{
    if cs.len() == 0 {
        (Seq::empty(), Seq::empty())
    } else {
        let (ws, cur) = words_state(cs.drop_last());
        if cs.last() == ' ' {
            (if cur.len() > 0 { ws.push(cur) } else { ws }, Seq::empty())
        } else {
            (ws, cur.push(cs.last()))
        }
    }
}

/// Words of a text separated by spaces, empty words left out.
pub open spec fn words(cs: Seq<char>) -> Seq<Seq<char>> {
    let (ws, cur) = words_state(cs);
    if cur.len() > 0 { ws.push(cur) } else { ws }
}

/// Consecutive words taken two by two; an odd last word is dropped.
pub open spec fn word_pairs(w: Seq<Seq<char>>) -> Seq<(Seq<char>, Seq<char>)>
    decreases w.len(),
{
    if w.len() < 2 {
        Seq::empty()
    } else {
        seq![(w[0], w[1])] + word_pairs(w.skip(2))
    }
}

/// Reads an object header at position `i`: a line `#` followed by object
/// names and file paths separated by spaces. Gives the end of that line and
/// the (name, path) pairs; elsewhere, and where a name has no path (an odd
/// number of words), gives `i` and no pairs.
pub fn read_header(s: &str, i: usize) -> (r: (usize, Vec<(String, String)>))
    ensures
        (i < s@.len() && s@[i as int] == '#') ==> {
            let t = s@.skip(i as int);
            let end = first_index(t, '\n');
            let w = words(t.subrange(1, end));
            &&& w.len() % 2 == 1 ==> r.0 == i && r.1@.len() == 0
            &&& w.len() % 2 == 0 ==> r.0 == i + end && pairs_view(r.1@) == word_pairs(w)
        },
        !(i < s@.len() && s@[i as int] == '#') ==> r.0 == i && r.1@.len() == 0,
{
    let cs = chars_of(s);
    if i >= cs.len() || cs[i] != '#' {
        return (i, Vec::new());
    }
    let end = find_char(&cs, i, '\n');
    let ghost t = cs@.skip(i as int);
    assert(end > i);
    let mut ws: Vec<String> = Vec::new();
    let mut cur: Vec<char> = Vec::new();
    let mut p = i + 1;
    while p < end
        invariant
            i < p <= end <= cs@.len(),
            cs@ == s@,
            words_state(cs@.subrange(i + 1, p as int)) == (strings_view(ws@), cur@),
        decreases end - p,
    {
        let c = cs[p];
        assert(cs@.subrange(i + 1, p + 1).drop_last() =~= cs@.subrange(i + 1, p as int));
        let ghost before = ws@;
        if c == ' ' {
            if cur.len() > 0 {
                let w = string_of(&cur);
                ws.push(w);
                assert(strings_view(ws@) =~= strings_view(before).push(w@));
            }
            cur = Vec::new();
            assert(cur@ =~= Seq::<char>::empty());
        } else {
            cur.push(c);
        }
        p += 1;
    }
    if cur.len() > 0 {
        let ghost before = ws@;
        let w = string_of(&cur);
        ws.push(w);
        assert(strings_view(ws@) =~= strings_view(before).push(w@));
    }
    proof {
        assert(t.subrange(1, end - i) =~= cs@.subrange(i + 1, end as int));
    }
    if ws.len() % 2 == 1 {
        return (i, Vec::new());
    }
    let mut pairs: Vec<(String, String)> = Vec::new();
    let mut k: usize = 0;
    assert(strings_view(ws@).skip(0) =~= strings_view(ws@));
    while k < ws.len() && ws.len() - k >= 2
        invariant
            k <= ws@.len(),
            word_pairs(strings_view(ws@)) == pairs_view(pairs@) + word_pairs(strings_view(ws@).skip(k as int)),
        decreases ws.len() - k,
    {
        let ghost before = pairs@;
        let a = ws[k].clone();
        let b = ws[k + 1].clone();
        pairs.push((a, b));
        proof {
            let rest = strings_view(ws@).skip(k as int);
            assert(rest[0] == a@ && rest[1] == b@);
            assert(rest.skip(2) =~= strings_view(ws@).skip(k + 2));
            assert(pairs_view(pairs@) =~= pairs_view(before) + seq![(a@, b@)]);
        }
        k += 2;
    }
    proof {
        assert(strings_view(ws@).skip(k as int).len() < 2);
        assert(pairs_view(pairs@) + Seq::<(Seq<char>, Seq<char>)>::empty() =~= pairs_view(pairs@));
    }
    (end, pairs)
}

} // verus!
