use vstd::prelude::*;
use crate::iter_ctx::IterCtx;
use crate::num::SCALE;
use crate::pattern::{Pattern, table_view};
use crate::symbol::SymbolModel;
use crate::symbolstring::SymbolString;
use crate::text::chars_of_string;
use rand::rngs::StdRng;
use rand::Rng;

verus! {

#[verifier::external_type_specification]
#[verifier::external_body]
pub struct ExStdRng(StdRng);

/// Relies on `rand::Rng::gen_range` over `0..bound`: a value below `bound`
/// (it panics on an empty range, which `requires` leaves out).
#[verifier::external_body]
fn draw_below(rng: &mut StdRng, bound: u64) -> (r: u64)
    requires
        bound > 0,
    ensures
        r < bound,
{
    rng.gen_range(0..bound)
}

/// The draw for rule `j` at position `i`; zero where the table has none.
pub open spec fn draw_at(d: Seq<Seq<u64>>, i: int, j: int) -> int {
    if 0 <= i < d.len() && 0 <= j < d[i].len() {
        d[i][j] as int
    } else {
        0
    }
}

/// Every draw of the table is a valid one, below `SCALE`.
pub open spec fn valid_draws(d: Seq<Seq<u64>>) -> bool {
    forall|i: int, j: int| 0 <= i < d.len() && 0 <= j < d[i].len() ==> d[i][j] < SCALE
}

pub open spec fn draws_view(d: Seq<Vec<u64>>) -> Seq<Seq<u64>> {
    d.map_values(|v: Vec<u64>| v@)
}

/// Index of the first rule set named `name`.
pub open spec fn find_rule_set(ctxs: Seq<(String, IterCtx)>, name: Seq<char>) -> Option<int>
    decreases ctxs.len(),
{
    if ctxs.len() == 0 {
        None
    } else {
        match find_rule_set(ctxs.drop_last(), name) {
            Some(k) => Some(k),
            None => if ctxs.last().0@ == name {
                Some(ctxs.len() - 1)
            } else {
                None
            },
        }
    }
}

/// Tries the rules from the `j`-th on at position `i`; the first that
/// applies, or fails, decides.
pub open spec fn try_rules(
    pats: Seq<Pattern>,
    j: int,
    s: Seq<SymbolModel>,
    i: int,
    ign: Seq<char>,
    defs: Seq<(Seq<char>, i64)>,
    d: Seq<Seq<u64>>,
) -> Result<Option<Seq<SymbolModel>>, Seq<char>>
    decreases pats.len() - j,
{
    if j < 0 || j >= pats.len() {
        Ok(None)
    } else {
        match pats[j].outcome(s, i, ign, defs, draw_at(d, i, j)) {
            Err(n) => Err(n),
            Ok(Some(r)) => Ok(Some(r)),
            Ok(None) => try_rules(pats, j + 1, s, i, ign, defs, d),
        }
    }
}

/// What position `i` becomes: the replacement of the first rule of its
/// rule set that applies, else the symbol itself.
pub open spec fn step_at(s: Seq<SymbolModel>, ctxs: Seq<(String, IterCtx)>, d: Seq<Seq<u64>>, i: int) -> Result<Seq<SymbolModel>, Seq<char>> {
    match find_rule_set(ctxs, s[i].rule_set) {
        None => Ok(seq![s[i]]),
        Some(k) => {
            let c = ctxs[k].1;
            match try_rules(c.patterns@, 0, s, i, c.ignored@, table_view(c.define@), d) {
                Err(n) => Err(n),
                Ok(Some(r)) => Ok(r),
                Ok(None) => Ok(seq![s[i]]),
            }
        },
    }
}

/// The rewriting of the first `n` positions, left to right.
pub open spec fn pass_prefix(s: Seq<SymbolModel>, ctxs: Seq<(String, IterCtx)>, d: Seq<Seq<u64>>, n: int) -> Result<Seq<SymbolModel>, Seq<char>>
    decreases n,
{
    if n <= 0 {
        Ok(Seq::empty())
    } else {
        match pass_prefix(s, ctxs, d, n - 1) {
            Err(e) => Err(e),
            Ok(out) => match step_at(s, ctxs, d, n - 1) {
                Err(e) => Err(e),
                Ok(r) => Ok(out + r),
            },
        }
    }
}

/// One rewriting pass over the whole string.
pub open spec fn pass(s: Seq<SymbolModel>, ctxs: Seq<(String, IterCtx)>, d: Seq<Seq<u64>>) -> Result<Seq<SymbolModel>, Seq<char>> {
    pass_prefix(s, ctxs, d, s.len() as int)
}

pub open spec fn pass_view(r: Result<SymbolString, String>) -> Result<Seq<SymbolModel>, Seq<char>> {
    match r {
        Ok(x) => Ok(x@),
        Err(n) => Err(n@),
    }
}

proof fn lemma_pass_err_stays(s: Seq<SymbolModel>, ctxs: Seq<(String, IterCtx)>, d: Seq<Seq<u64>>, m: int, n: int)
    requires
        0 <= m <= n,
        pass_prefix(s, ctxs, d, m) is Err,
    ensures
        pass_prefix(s, ctxs, d, n) == pass_prefix(s, ctxs, d, m),
    decreases n - m,
{
    if n > m {
        lemma_pass_err_stays(s, ctxs, d, m, n - 1);
    }
}

fn find_rule_set_exec(ctxs: &Vec<(String, IterCtx)>, name: &String) -> (r: Option<usize>)
    ensures
        match r {
            Some(k) => k < ctxs@.len() && find_rule_set(ctxs@, name@) == Some(k as int),
            None => find_rule_set(ctxs@, name@) is None,
        },
{
    let mut k: usize = 0;
    while k < ctxs.len()
        invariant
            k <= ctxs@.len(),
            find_rule_set(ctxs@.take(k as int), name@) is None,
        decreases ctxs.len() - k,
    {
        let ghost t = ctxs@.take(k + 1);
        assert(t.drop_last() =~= ctxs@.take(k as int));
        if ctxs[k].0 == *name {
            proof {
                lemma_find_prefix(ctxs@, name@, k + 1);
            }
            return Some(k);
        }
        k += 1;
    }
    assert(ctxs@.take(k as int) =~= ctxs@);
    None
}

/// A rule set found in a prefix is the one found in the whole list.
proof fn lemma_find_prefix(ctxs: Seq<(String, IterCtx)>, name: Seq<char>, n: int)
    requires
        0 <= n <= ctxs.len(),
        find_rule_set(ctxs.take(n), name) is Some,
    ensures
        find_rule_set(ctxs, name) == find_rule_set(ctxs.take(n), name),
    decreases ctxs.len(),
{
    if n < ctxs.len() {
        assert(ctxs.drop_last().take(n) =~= ctxs.take(n));
        lemma_find_prefix(ctxs.drop_last(), name, n);
    } else {
        assert(ctxs.take(n) =~= ctxs);
    }
}

fn try_rules_exec(pats: &Vec<Pattern>, s: &SymbolString, i: usize, ign: &Vec<char>, defs: &Vec<(String, i64)>, d: &Vec<Vec<u64>>) -> (r: Result<Option<SymbolString>, String>)
    requires
        i < s@.len(),
    ensures
        crate::pattern::outcome_view(r) == try_rules(pats@, 0, s@, i as int, ign@, table_view(defs@), draws_view(d@)),
{
    let mut j: usize = 0;
    while j < pats.len()
        invariant
            j <= pats@.len(),
            i < s@.len(),
            try_rules(pats@, 0, s@, i as int, ign@, table_view(defs@), draws_view(d@))
                == try_rules(pats@, j as int, s@, i as int, ign@, table_view(defs@), draws_view(d@)),
        decreases pats.len() - j,
    {
        let draw: u64 = if i < d.len() && j < d[i].len() { d[i][j] } else { 0 };
        assert(draw as int == draw_at(draws_view(d@), i as int, j as int));
        match pats[j].apply_at(i, s, ign, defs, draw) {
            Err(n) => return Err(n),
            Ok(Some(r)) => return Ok(Some(r)),
            Ok(None) => {},
        }
        j += 1;
    }
    Ok(None)
}

/// One rewriting pass with the given draws: each position becomes the
/// replacement of the first rule of its rule set that applies, or stays;
/// the string is read whole before anything is written. Fails with the
/// name of a variable that a rule could not resolve.
pub fn iterate_with(s: &SymbolString, ctx_list: &Vec<(String, IterCtx)>, draws: &Vec<Vec<u64>>) -> (r: Result<SymbolString, String>)
    ensures
        pass_view(r) == pass(s@, ctx_list@, draws_view(draws@)),
{
    let mut result = SymbolString::empty();
    let n = s.symbols.len();
    let mut i: usize = 0;
    while i < n
        invariant
            i <= n == s@.len(),
            pass_prefix(s@, ctx_list@, draws_view(draws@), i as int) == Ok::<Seq<SymbolModel>, Seq<char>>(result@),
        decreases n - i,
    {
        let sym = &s.symbols[i];
        assert(s@[i as int] == sym@);
        let ghost before = result@;
        let ghost dv = draws_view(draws@);
        let mut found = false;
        match find_rule_set_exec(ctx_list, &sym.rule_set) {
            None => {},
            Some(k) => {
                let c = &ctx_list[k].1;
                let ign = chars_of_string(&c.ignored);
                match try_rules_exec(&c.patterns, s, i, &ign, &c.define, draws) {
                    Err(e) => {
                        proof {
                            lemma_pass_err_stays(s@, ctx_list@, draws_view(draws@), i + 1, n as int);
                        }
                        return Err(e);
                    },
                    Ok(Some(r)) => {
                        result.push_str(&r);
                        found = true;
                        assert(step_at(s@, ctx_list@, dv, i as int) == Ok::<Seq<SymbolModel>, Seq<char>>(r@));
                    },
                    Ok(None) => {
                        assert(step_at(s@, ctx_list@, dv, i as int) == Ok::<Seq<SymbolModel>, Seq<char>>(seq![sym@]));
                    },
                }
            },
        }
        if !found {
            let c = sym.copy();
            result.push(c);
            assert(seq![c@] =~= Seq::<SymbolModel>::empty().push(c@));
            assert(step_at(s@, ctx_list@, dv, i as int) == Ok::<Seq<SymbolModel>, Seq<char>>(seq![sym@]));
            assert(result@ =~= before + seq![sym@]);
        }
        i += 1;
    }
    Ok(result)
}

/// One rewriting pass, drawing the stochastic gates from `rng`: the result
/// is the pass for some table of valid draws.
pub fn iterate(s: &SymbolString, ctx_list: &Vec<(String, IterCtx)>, rng: &mut StdRng) -> (r: Result<SymbolString, String>)
    ensures
        exists|d: Seq<Seq<u64>>| valid_draws(d) && pass_view(r) == pass(s@, ctx_list@, d),
{
    let mut draws: Vec<Vec<u64>> = Vec::new();
    let mut i: usize = 0;
    while i < s.symbols.len()
        invariant
            i <= s@.len(),
            draws@.len() == i,
            valid_draws(draws_view(draws@)),
        decreases s.symbols.len() - i,
    {
        let count = match find_rule_set_exec(ctx_list, &s.symbols[i].rule_set) {
            Some(k) => ctx_list[k].1.patterns.len(),
            None => 0,
        };
        let mut row: Vec<u64> = Vec::new();
        let mut j: usize = 0;
        while j < count
            invariant
                j <= count,
                forall|q: int| 0 <= q < row@.len() ==> row@[q] < SCALE,
            decreases count - j,
        {
            row.push(draw_below(rng, SCALE as u64));
            j += 1;
        }
        let ghost before = draws@;
        draws.push(row);
        proof {
            assert forall|a: int, b: int| 0 <= a < draws_view(draws@).len() && 0 <= b < draws_view(draws@)[a].len()
                implies draws_view(draws@)[a][b] < SCALE by {
                if a < before.len() {
                    assert(draws_view(draws@)[a] == draws_view(before)[a]);
                }
            }
        }
        i += 1;
    }
    iterate_with(s, ctx_list, &draws)
}

/// No rule of the rule set of the symbol at `i` applies there with the
/// draws `d`: each fails its gate, its structural match or its condition.
pub open spec fn no_rule_applies(s: Seq<SymbolModel>, ctxs: Seq<(String, IterCtx)>, d: Seq<Seq<u64>>, i: int) -> bool {
    match find_rule_set(ctxs, s[i].rule_set) {
        None => true,
        Some(k) => forall|j: int| 0 <= j < ctxs[k].1.patterns@.len() ==>
            (#[trigger] ctxs[k].1.patterns@[j]).outcome(s, i, ctxs[k].1.ignored@, table_view(ctxs[k].1.define@), draw_at(d, i, j))
                == Ok::<Option<Seq<SymbolModel>>, Seq<char>>(None),
    }
}

/// Idempotence: when, at every position, no rule of the symbol's own rule
/// set applies (gate, context or condition fails), a pass returns the
/// string unchanged.
pub proof fn lemma_pass_without_applicable_rule(s: Seq<SymbolModel>, ctxs: Seq<(String, IterCtx)>, d: Seq<Seq<u64>>)
    requires
        forall|i: int| 0 <= i < s.len() ==> #[trigger] no_rule_applies(s, ctxs, d, i),
    ensures
        pass(s, ctxs, d) == Ok::<Seq<SymbolModel>, Seq<char>>(s),
{
    lemma_pass_prefix_no_rule(s, ctxs, d, s.len() as int);
    assert(s.take(s.len() as int) =~= s);
}

proof fn lemma_pass_prefix_no_rule(s: Seq<SymbolModel>, ctxs: Seq<(String, IterCtx)>, d: Seq<Seq<u64>>, n: int)
    requires
        0 <= n <= s.len(),
        forall|i: int| 0 <= i < s.len() ==> #[trigger] no_rule_applies(s, ctxs, d, i),
    ensures
        pass_prefix(s, ctxs, d, n) == Ok::<Seq<SymbolModel>, Seq<char>>(s.take(n)),
    decreases n,
{
    if n > 0 {
        lemma_pass_prefix_no_rule(s, ctxs, d, n - 1);
        let i = n - 1;
        assert(no_rule_applies(s, ctxs, d, i));
        match find_rule_set(ctxs, s[i].rule_set) {
            None => {},
            Some(k) => {
                lemma_find_in_range(ctxs, s[i].rule_set);
                let c = ctxs[k].1;
                lemma_try_rules_no_rule(c.patterns@, 0, s, i, c.ignored@, table_view(c.define@), d, ctxs, k);
            },
        }
        assert(step_at(s, ctxs, d, i) == Ok::<Seq<SymbolModel>, Seq<char>>(seq![s[i]]));
        assert(s.take(n - 1) + seq![s[i]] =~= s.take(n));
    } else {
        assert(s.take(n) =~= Seq::<SymbolModel>::empty());
    }
}

proof fn lemma_try_rules_no_rule(
    pats: Seq<Pattern>,
    j: int,
    s: Seq<SymbolModel>,
    i: int,
    ign: Seq<char>,
    defs: Seq<(Seq<char>, i64)>,
    d: Seq<Seq<u64>>,
    ctxs: Seq<(String, IterCtx)>,
    k: int,
)
    requires
        0 <= j,
        0 <= i < s.len(),
        0 <= k < ctxs.len(),
        find_rule_set(ctxs, s[i].rule_set) == Some(k),
        pats == ctxs[k].1.patterns@,
        ign == ctxs[k].1.ignored@,
        defs == table_view(ctxs[k].1.define@),
        no_rule_applies(s, ctxs, d, i),
    ensures
        try_rules(pats, j, s, i, ign, defs, d) == Ok::<Option<Seq<SymbolModel>>, Seq<char>>(None),
    decreases pats.len() - j,
{
    if j < pats.len() {
        assert(ctxs[k].1.patterns@[j].outcome(s, i, ign, defs, draw_at(d, i, j)) == Ok::<Option<Seq<SymbolModel>>, Seq<char>>(None));
        lemma_try_rules_no_rule(pats, j + 1, s, i, ign, defs, d, ctxs, k);
    }
}

/// Idempotence: when no rule of any rule set fits structurally at any
/// position, a pass returns the string unchanged, whatever the draws.
pub proof fn lemma_pass_without_match(s: Seq<SymbolModel>, ctxs: Seq<(String, IterCtx)>, d: Seq<Seq<u64>>)
    requires
        forall|i: int, k: int, j: int| 0 <= i < s.len() && 0 <= k < ctxs.len() && 0 <= j < ctxs[k].1.patterns@.len()
            ==> (#[trigger] ctxs[k].1.patterns@[j].structural(s, i, ctxs[k].1.ignored@)) is None,
    ensures
        pass(s, ctxs, d) == Ok::<Seq<SymbolModel>, Seq<char>>(s),
{
    lemma_pass_prefix_without_match(s, ctxs, d, s.len() as int);
    assert(s.take(s.len() as int) =~= s);
}

proof fn lemma_pass_prefix_without_match(s: Seq<SymbolModel>, ctxs: Seq<(String, IterCtx)>, d: Seq<Seq<u64>>, n: int)
    requires
        0 <= n <= s.len(),
        forall|i: int, k: int, j: int| 0 <= i < s.len() && 0 <= k < ctxs.len() && 0 <= j < ctxs[k].1.patterns@.len()
            ==> (#[trigger] ctxs[k].1.patterns@[j].structural(s, i, ctxs[k].1.ignored@)) is None,
    ensures
        pass_prefix(s, ctxs, d, n) == Ok::<Seq<SymbolModel>, Seq<char>>(s.take(n)),
    decreases n,
{
    if n > 0 {
        lemma_pass_prefix_without_match(s, ctxs, d, n - 1);
        let i = n - 1;
        match find_rule_set(ctxs, s[i].rule_set) {
            None => {},
            Some(k) => {
                lemma_find_in_range(ctxs, s[i].rule_set);
                let c = ctxs[k].1;
                lemma_try_rules_none(c.patterns@, 0, s, i, c.ignored@, table_view(c.define@), d, ctxs, k);
            },
        }
        assert(step_at(s, ctxs, d, i) == Ok::<Seq<SymbolModel>, Seq<char>>(seq![s[i]]));
        assert(s.take(n - 1) + seq![s[i]] =~= s.take(n));
    } else {
        assert(s.take(n) =~= Seq::<SymbolModel>::empty());
    }
}

proof fn lemma_find_in_range(ctxs: Seq<(String, IterCtx)>, name: Seq<char>)
    ensures
        find_rule_set(ctxs, name) is Some ==> 0 <= find_rule_set(ctxs, name)->Some_0 < ctxs.len(),
    decreases ctxs.len(),
{
    if ctxs.len() > 0 {
        lemma_find_in_range(ctxs.drop_last(), name);
    }
}

proof fn lemma_try_rules_none(
    pats: Seq<Pattern>,
    j: int,
    s: Seq<SymbolModel>,
    i: int,
    ign: Seq<char>,
    defs: Seq<(Seq<char>, i64)>,
    d: Seq<Seq<u64>>,
    ctxs: Seq<(String, IterCtx)>,
    k: int,
)
    requires
        0 <= j,
        0 <= i < s.len(),
        0 <= k < ctxs.len(),
        pats == ctxs[k].1.patterns@,
        ign == ctxs[k].1.ignored@,
        forall|i: int, k: int, j: int| 0 <= i < s.len() && 0 <= k < ctxs.len() && 0 <= j < ctxs[k].1.patterns@.len()
            ==> (#[trigger] ctxs[k].1.patterns@[j].structural(s, i, ctxs[k].1.ignored@)) is None,
    ensures
        try_rules(pats, j, s, i, ign, defs, d) == Ok::<Option<Seq<SymbolModel>>, Seq<char>>(None),
    decreases pats.len() - j,
{
    if j < pats.len() {
        assert(ctxs[k].1.patterns@[j].structural(s, i, ctxs[k].1.ignored@) is None);
        lemma_try_rules_none(pats, j + 1, s, i, ign, defs, d, ctxs, k);
    }
}

/// Determinism: when every rule has probability one, a pass gives the same
/// result for any two tables of valid draws.
pub proof fn lemma_pass_certain_rules(s: Seq<SymbolModel>, ctxs: Seq<(String, IterCtx)>, d1: Seq<Seq<u64>>, d2: Seq<Seq<u64>>)
    requires
        forall|k: int, j: int| 0 <= k < ctxs.len() && 0 <= j < ctxs[k].1.patterns@.len()
            ==> (#[trigger] ctxs[k].1.patterns@[j]).p == SCALE,
        valid_draws(d1),
        valid_draws(d2),
    ensures
        pass(s, ctxs, d1) == pass(s, ctxs, d2),
{
    lemma_pass_prefix_certain(s, ctxs, d1, d2, s.len() as int);
}

proof fn lemma_pass_prefix_certain(s: Seq<SymbolModel>, ctxs: Seq<(String, IterCtx)>, d1: Seq<Seq<u64>>, d2: Seq<Seq<u64>>, n: int)
    requires
        forall|k: int, j: int| 0 <= k < ctxs.len() && 0 <= j < ctxs[k].1.patterns@.len()
            ==> (#[trigger] ctxs[k].1.patterns@[j]).p == SCALE,
        valid_draws(d1),
        valid_draws(d2),
    ensures
        pass_prefix(s, ctxs, d1, n) == pass_prefix(s, ctxs, d2, n),
    decreases n,
{
    if n > 0 {
        lemma_pass_prefix_certain(s, ctxs, d1, d2, n - 1);
        let i = n - 1;
        match find_rule_set(ctxs, s[i].rule_set) {
            None => {},
            Some(k) => {
                lemma_find_in_range(ctxs, s[i].rule_set);
                let c = ctxs[k].1;
                lemma_try_rules_certain(c.patterns@, 0, s, i, c.ignored@, table_view(c.define@), d1, d2, ctxs, k);
            },
        }
    }
}

proof fn lemma_try_rules_certain(
    pats: Seq<Pattern>,
    j: int,
    s: Seq<SymbolModel>,
    i: int,
    ign: Seq<char>,
    defs: Seq<(Seq<char>, i64)>,
    d1: Seq<Seq<u64>>,
    d2: Seq<Seq<u64>>,
    ctxs: Seq<(String, IterCtx)>,
    k: int,
)
    requires
        0 <= j,
        0 <= k < ctxs.len(),
        pats == ctxs[k].1.patterns@,
        forall|k: int, j: int| 0 <= k < ctxs.len() && 0 <= j < ctxs[k].1.patterns@.len()
            ==> (#[trigger] ctxs[k].1.patterns@[j]).p == SCALE,
        valid_draws(d1),
        valid_draws(d2),
    ensures
        try_rules(pats, j, s, i, ign, defs, d1) == try_rules(pats, j, s, i, ign, defs, d2),
    decreases pats.len() - j,
{
    if j < pats.len() {
        assert(ctxs[k].1.patterns@[j].p == SCALE);
        assert(draw_at(d1, i, j) < SCALE);
        assert(draw_at(d2, i, j) < SCALE);
        lemma_try_rules_certain(pats, j + 1, s, i, ign, defs, d1, d2, ctxs, k);
    }
}

} // verus!
