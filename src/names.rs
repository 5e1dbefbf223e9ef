use vstd::prelude::*;

verus! {

/// Names as character sequences.
pub open spec fn names_view(v: Seq<String>) -> Seq<Seq<char>> {
    v.map_values(|s: String| s@)
}

/// Appends to `a` the names of `b` that it does not hold yet, in order.
pub open spec fn merge_names(a: Seq<Seq<char>>, b: Seq<Seq<char>>) -> Seq<Seq<char>>
    decreases b.len(),
{
    if b.len() == 0 {
        a
    } else {
        let m = merge_names(a, b.drop_last());
        if m.contains(b.last()) {
            m
        } else {
            m.push(b.last())
        }
    }
}

pub proof fn lemma_merge_names_contains(a: Seq<Seq<char>>, b: Seq<Seq<char>>, x: Seq<char>)
    ensures
        merge_names(a, b).contains(x) <==> (a.contains(x) || b.contains(x)),
    decreases b.len(),
{
    if b.len() > 0 {
        lemma_merge_names_contains(a, b.drop_last(), x);
        let m = merge_names(a, b.drop_last());
        if b.drop_last().contains(x) {
            let k = choose|k: int| 0 <= k < b.drop_last().len() && b.drop_last()[k] == x;
            assert(b[k] == x);
        }
        if b.contains(x) && x != b.last() {
            let k = choose|k: int| 0 <= k < b.len() && b[k] == x;
            assert(b.drop_last()[k] == x);
        }
        if !m.contains(b.last()) {
            assert(m.push(b.last()).last() == b.last());
            if m.contains(x) {
                let k = choose|k: int| 0 <= k < m.len() && m[k] == x;
                assert(m.push(b.last())[k] == x);
            }
            if m.push(b.last()).contains(x) && x != b.last() {
                let k = choose|k: int| 0 <= k < m.len() + 1 && m.push(b.last())[k] == x;
                assert(m[k] == x);
            }
        }
    }
}

/// Whether a list of names holds `s`.
pub fn contains_name(v: &Vec<String>, s: &String) -> (r: bool)
    ensures
        r == names_view(v@).contains(s@),
{
    let mut i: usize = 0;
    while i < v.len()
        invariant
            i <= v@.len(),
            forall|k: int| 0 <= k < i ==> v@[k]@ != s@,
        decreases v.len() - i,
    {
        if v[i] == *s {
            assert(names_view(v@)[i as int] == s@);
            return true;
        }
        i += 1;
    }
    proof {
        if names_view(v@).contains(s@) {
            let k = choose|k: int| 0 <= k < names_view(v@).len() && names_view(v@)[k] == s@;
            assert(v@[k]@ == s@);
        }
    }
    false
}

/// Appends to `a` the names of `b` that it does not hold yet.
pub fn merge_into(a: &mut Vec<String>, b: Vec<String>)
    ensures
        names_view(final(a)@) == merge_names(names_view(old(a)@), names_view(b@)),
{
    let ghost a0 = names_view(a@);
    let mut i: usize = 0;
    while i < b.len()
        invariant
            i <= b@.len(),
            names_view(a@) == merge_names(a0, names_view(b@).take(i as int)),
        decreases b.len() - i,
    {
        let ghost before = a@;
        assert(names_view(b@).take(i + 1).drop_last() =~= names_view(b@).take(i as int));
        if !contains_name(a, &b[i]) {
            a.push(b[i].clone());
            assert(names_view(a@) =~= names_view(before).push(b@[i as int]@));
        }
        i += 1;
    }
    assert(names_view(b@).take(b@.len() as int) =~= names_view(b@));
}

} // verus!
