use vstd::prelude::*;
use crate::iter_ctx::IterCtx;
use crate::iterate::{iterate, pass, pass_view, valid_draws, lemma_pass_certain_rules};
use crate::num::SCALE;
use crate::pattern::{Pattern, opt_view, opt_rule_set};
use crate::literal::literal_string;
use crate::symbolstring::{string_text, with_rule_set, replaced};
use crate::symbol::SymbolModel;
use crate::symbolstring::SymbolString;
use crate::text::string_of;
use rand::rngs::StdRng;

verus! {

/// Name of the rule set of the main rule file.
pub open spec fn root_name() -> Seq<char> {
    seq!['r', 'o', 'o', 't']
}

pub fn root_string() -> (r: String)
    ensures
        r@ == root_name(),
{
    let v = vec!['r', 'o', 'o', 't'];
    string_of(&v)
}

/// The production `n` is `o` put in rule set `rs`.
pub open spec fn set_in(o: Pattern, n: Pattern, rs: Seq<char>) -> bool {
    &&& n.pattern@ == (SymbolModel { rule_set: rs, ..o.pattern@ })
    &&& n.replacement@ == with_rule_set(o.replacement@, rs)
    &&& opt_view(n.left) == opt_rule_set(o.left, rs)
    &&& opt_view(n.right) == opt_rule_set(o.right, rs)
    &&& n.p == o.p
    &&& n.cond == o.cond
}

/// Each alias of `al`, in order, replaced by its symbol string.
pub open spec fn splice_all(ms: Seq<SymbolModel>, al: Seq<(Seq<char>, Seq<SymbolModel>)>) -> Seq<SymbolModel>
    decreases al.len(),
{
    if al.len() == 0 {
        ms
    } else {
        replaced(splice_all(ms, al.drop_last()), al.last().0, al.last().1)
    }
}

pub open spec fn opt_splice_all(c: Option<Seq<SymbolModel>>, al: Seq<(Seq<char>, Seq<SymbolModel>)>) -> Option<Seq<SymbolModel>> {
    match c {
        Some(ms) => Some(splice_all(ms, al)),
        None => None,
    }
}

/// The production `n` is `o` with the aliases of `al` spliced into its
/// replacement and contexts.
pub open spec fn spliced(o: Pattern, n: Pattern, al: Seq<(Seq<char>, Seq<SymbolModel>)>) -> bool {
    &&& n.pattern == o.pattern
    &&& n.replacement@ == splice_all(o.replacement@, al)
    &&& opt_view(n.left) == opt_splice_all(opt_view(o.left), al)
    &&& opt_view(n.right) == opt_splice_all(opt_view(o.right), al)
    &&& n.p == o.p
    &&& n.cond == o.cond
}

pub open spec fn aliases_view(v: Seq<(String, SymbolString)>) -> Seq<(Seq<char>, Seq<SymbolModel>)> {
    v.map_values(|e: (String, SymbolString)| (e.0@, e.1@))
}

fn set_rule_sets(pats: &mut Vec<Pattern>, name: &String)
    ensures
        final(pats)@.len() == old(pats)@.len(),
        forall|k: int| 0 <= k < final(pats)@.len() ==> set_in(old(pats)@[k], #[trigger] final(pats)@[k], name@),
{
    let mut i: usize = 0;
    while i < pats.len()
        invariant
            i <= pats@.len() == old(pats)@.len(),
            forall|k: int| 0 <= k < i ==> set_in(old(pats)@[k], #[trigger] pats@[k], name@),
            forall|k: int| i <= k < pats@.len() ==> #[trigger] pats@[k] == old(pats)@[k],
        decreases pats.len() - i,
    {
        let ghost before = pats@;
        let mut p = pats.remove(i);
        p.rule_set(name);
        pats.insert(i, p);
        assert(pats@ =~= before.update(i as int, p));
        i += 1;
    }
}

fn splice_aliases(pats: &mut Vec<Pattern>, starts: &Vec<(String, SymbolString)>)
    ensures
        final(pats)@.len() == old(pats)@.len(),
        forall|k: int| 0 <= k < final(pats)@.len() ==> spliced(old(pats)@[k], #[trigger] final(pats)@[k], aliases_view(starts@)),
{
    let ghost al = aliases_view(starts@);
    let mut i: usize = 0;
    while i < pats.len()
        invariant
            al == aliases_view(starts@),
            i <= pats@.len() == old(pats)@.len(),
            forall|k: int| 0 <= k < i ==> spliced(old(pats)@[k], #[trigger] pats@[k], al),
            forall|k: int| i <= k < pats@.len() ==> #[trigger] pats@[k] == old(pats)@[k],
        decreases pats.len() - i,
    {
        let ghost before = pats@;
        let ghost o = pats@[i as int];
        let mut p = pats.remove(i);
        let mut j: usize = 0;
        assert(al.take(0) =~= Seq::<(Seq<char>, Seq<SymbolModel>)>::empty());
        while j < starts.len()
            invariant
                al == aliases_view(starts@),
                j <= starts@.len(),
                spliced(o, p, al.take(j as int)),
            decreases starts.len() - j,
        {
            p.replace(&starts[j].0, &starts[j].1);
            proof {
                assert(al.take(j + 1).drop_last() =~= al.take(j as int));
                assert(al.take(j + 1).last() == (starts@[j as int].0@, starts@[j as int].1@));
            }
            j += 1;
        }
        assert(al.take(j as int) =~= al);
        pats.insert(i, p);
        assert(pats@ =~= before.update(i as int, p));
        i += 1;
    }
}

/// The main productions `fin` are `orig` put in rule set `root`, with the
/// aliases of `al` (one per import, each string in its import's rule set)
/// spliced in.
pub open spec fn root_prepared(orig: Seq<Pattern>, fin: Seq<Pattern>, imported: Seq<(String, IterCtx)>,
    al: Seq<(Seq<char>, Seq<SymbolModel>)>) -> bool {
    &&& al.len() == imported.len()
    &&& forall|k: int| 0 <= k < al.len() ==> (#[trigger] al[k]).0 == imported[k].0@
        && forall|q: int| 0 <= q < al[k].1.len() ==> al[k].1[q].rule_set == imported[k].0@
    &&& fin.len() == orig.len()
    &&& forall|j: int| 0 <= j < orig.len() ==> prepared_one(orig[j], #[trigger] fin[j], al)
}

/// `f` is `o` put in rule set `root` with the aliases of `al` spliced in.
pub open spec fn prepared_one(o: Pattern, f: Pattern, al: Seq<(Seq<char>, Seq<SymbolModel>)>) -> bool {
    exists|mid: Pattern| #[trigger] set_in(o, mid, root_name()) && spliced(mid, f, al)
}

/// Puts a run together: the productions of the main rule set go in rule
/// set `root` and those of each imported rule set in its alias; each alias
/// in the main productions is replaced, once and in the order of the
/// imports, by the start string of its rule set (empty where that start
/// word does not parse). Gives the rule sets, the main one last, and the
/// start string of the main rule set; fails only when that start word does
/// not parse, which a start word of simple symbols always does.
pub fn prepare(root: IterCtx, imported: Vec<(String, IterCtx)>) -> (r: Result<(Vec<(String, IterCtx)>, SymbolString), &'static str>)
    ensures
        (exists|ms: Seq<SymbolModel>| ms.len() > 0 && literal_string(ms) && root.start_word@ == #[trigger] string_text(ms))
            ==> r is Ok,
        r is Ok ==> {
            let (list, start) = r->Ok_0;
            &&& list@.len() == imported@.len() + 1
            &&& list@.last().0@ == root_name()
            &&& forall|k: int| 0 <= k < imported@.len() ==> (#[trigger] list@[k]).0 == imported@[k].0
            &&& forall|k: int| 0 <= k < imported@.len() ==> (#[trigger] list@[k]).1.patterns@.len() == imported@[k].1.patterns@.len()
                && list@[k].1.start_word == imported@[k].1.start_word && list@[k].1.n_iter == imported@[k].1.n_iter
                && list@[k].1.ignored == imported@[k].1.ignored && list@[k].1.define == imported@[k].1.define
            &&& forall|k: int, j: int| 0 <= k < imported@.len() && 0 <= j < imported@[k].1.patterns@.len()
                ==> set_in(imported@[k].1.patterns@[j], #[trigger] list@[k].1.patterns@[j], imported@[k].0@)
            &&& list@.last().1.patterns@.len() == root.patterns@.len()
            &&& list@.last().1.start_word == root.start_word && list@.last().1.n_iter == root.n_iter
                && list@.last().1.ignored == root.ignored && list@.last().1.define == root.define
            &&& exists|al: Seq<(Seq<char>, Seq<SymbolModel>)>|
                #[trigger] root_prepared(root.patterns@, list@.last().1.patterns@, imported@, al)
            &&& forall|k: int| 0 <= k < start@.len() ==> (#[trigger] start@[k]).rule_set == root_name()
        },
{
    let root_rs = root_string();
    let mut root = root;
    let ghost root0 = root;
    set_rule_sets(&mut root.patterns, &root_rs);
    let ghost mids = root.patterns@;
    let mut list: Vec<(String, IterCtx)> = Vec::new();
    let mut starts: Vec<(String, SymbolString)> = Vec::new();
    let mut rest = imported;
    let ghost n = rest@.len();
    let ghost orig = imported@;
    while rest.len() > 0
        invariant
            list@.len() + rest@.len() == n,
            n == orig.len(),
            starts@.len() == list@.len(),
            rest@ == orig.skip(list@.len() as int),
            forall|k: int| 0 <= k < list@.len() ==> (#[trigger] list@[k]).0 == orig[k].0
                && starts@[k].0 == orig[k].0
                && forall|q: int| 0 <= q < starts@[k].1@.len() ==> starts@[k].1@[q].rule_set == orig[k].0@,
            forall|k: int| 0 <= k < list@.len() ==> (#[trigger] list@[k]).1.patterns@.len() == orig[k].1.patterns@.len()
                && list@[k].1.start_word == orig[k].1.start_word && list@[k].1.n_iter == orig[k].1.n_iter
                && list@[k].1.ignored == orig[k].1.ignored && list@[k].1.define == orig[k].1.define,
            forall|k: int, j: int| 0 <= k < list@.len() && 0 <= j < orig[k].1.patterns@.len()
                ==> set_in(orig[k].1.patterns@[j], #[trigger] list@[k].1.patterns@[j], orig[k].0@),
        decreases rest@.len(),
    {
        let ghost before = list@;
        let ghost sbefore = starts@;
        assert(rest@[0] == orig[list@.len() as int]);
        let (alias, mut ctx) = rest.remove(0);
        set_rule_sets(&mut ctx.patterns, &alias);
        let mut start = match SymbolString::from_string(ctx.start_word.as_str()) {
            Ok(s) => s,
            Err(_) => SymbolString::empty(),
        };
        start.rule_set(&alias);
        starts.push((alias.clone(), start));
        list.push((alias, ctx));
        proof {
            assert(rest@ =~= orig.skip(list@.len() as int));
            assert forall|k: int| 0 <= k < list@.len() - 1 implies (#[trigger] list@[k]) == before[k] && starts@[k] == sbefore[k] by {}
        }
    }
    splice_aliases(&mut root.patterns, &starts);
    let ghost al = aliases_view(starts@);
    let mut start = SymbolString::from_string(root.start_word.as_str())?;
    start.rule_set(&root_rs);
    let ghost before = list@;
    list.push((root_rs, root));
    proof {
        assert forall|k: int| 0 <= k < list@.len() - 1 implies (#[trigger] list@[k]) == before[k] by {}
        assert forall|k: int| 0 <= k < al.len() implies (#[trigger] al[k]).0 == orig[k].0@
            && forall|q: int| 0 <= q < al[k].1.len() ==> al[k].1[q].rule_set == orig[k].0@ by {
            assert(al[k] == (starts@[k].0@, starts@[k].1@));
            assert(before[k].0 == orig[k].0);
        }
        assert forall|j: int| 0 <= j < root0.patterns@.len() implies prepared_one(root0.patterns@[j], #[trigger] list@.last().1.patterns@[j], al) by {
            assert(set_in(root0.patterns@[j], mids[j], root_name()));
        }
        assert(root_prepared(root0.patterns@, list@.last().1.patterns@, orig, al));
    }
    Ok((list, start))
}

/// `n` passes one after the other, with a table of draws for each.
pub open spec fn passes(s: Seq<SymbolModel>, ctxs: Seq<(String, IterCtx)>, ds: Seq<Seq<Seq<u64>>>, n: int) -> Result<Seq<SymbolModel>, Seq<char>>
    decreases n,
{
    if n <= 0 {
        Ok(s)
    } else {
        match passes(s, ctxs, ds, n - 1) {
            Err(e) => Err(e),
            Ok(t) => pass(t, ctxs, ds[n - 1]),
        }
    }
}

/// Rewrites `start` `n` times, drawing the stochastic gates from `rng`.
pub fn run(ctx_list: &Vec<(String, IterCtx)>, start: SymbolString, n: usize, rng: &mut StdRng) -> (r: Result<SymbolString, String>)
    ensures
        exists|ds: Seq<Seq<Seq<u64>>>| ds.len() == n
            && (forall|k: int| 0 <= k < n ==> valid_draws(#[trigger] ds[k]))
            && pass_view(r) == passes(start@, ctx_list@, ds, n as int),
{
    let ghost s0 = start@;
    let mut cur = start;
    let ghost mut ds: Seq<Seq<Seq<u64>>> = Seq::empty();
    let mut i: usize = 0;
    while i < n
        invariant
            i <= n,
            ds.len() == i,
            s0 == start@,
            forall|k: int| 0 <= k < i ==> valid_draws(#[trigger] ds[k]),
            passes(s0, ctx_list@, ds, i as int) == Ok::<Seq<SymbolModel>, Seq<char>>(cur@),
        decreases n - i,
    {
        let next = iterate(&cur, ctx_list, rng);
        let ghost d = choose|d: Seq<Seq<u64>>| valid_draws(d) && pass_view(next) == pass(cur@, ctx_list@, d);
        proof {
            let ds2 = ds.push(d);
            assert(ds2.take(i as int) =~= ds);
            lemma_passes_prefix(s0, ctx_list@, ds, ds2, i as int);
            ds = ds2;
        }
        match next {
            Ok(t) => {
                cur = t;
            },
            Err(e) => {
                proof {
                    assert(passes(s0, ctx_list@, ds, i + 1) == Err::<Seq<SymbolModel>, Seq<char>>(e@));
                    let w = extend(ds, n as int);
                    assert forall|k: int| 0 <= k < n implies valid_draws(#[trigger] w[k]) by {
                        if k < ds.len() {
                            assert(w[k] == ds[k]);
                        }
                    }
                    lemma_passes_extend(s0, ctx_list@, ds, n as int, i as int + 1);
                    assert(w.len() == n);
                    assert(pass_view(Err::<SymbolString, String>(e)) == passes(s0, ctx_list@, w, n as int));
                    assert(exists|ds: Seq<Seq<Seq<u64>>>| ds.len() == n
                        && (forall|k: int| 0 <= k < n ==> valid_draws(#[trigger] ds[k]))
                        && pass_view(Err::<SymbolString, String>(e)) == passes(start@, ctx_list@, ds, n as int)) by {
                        assert(w.len() == n
                            && (forall|k: int| 0 <= k < n ==> valid_draws(#[trigger] w[k]))
                            && pass_view(Err::<SymbolString, String>(e)) == passes(s0, ctx_list@, w, n as int));
                    }
                }
                return Err(e);
            },
        }
        i += 1;
    }
    Ok(cur)
}

/// Determinism over a run: when every rule has probability one, `n`
/// passes give the same result for any two lists of valid draw tables.
pub proof fn lemma_passes_certain_rules(s: Seq<SymbolModel>, ctxs: Seq<(String, IterCtx)>, ds1: Seq<Seq<Seq<u64>>>, ds2: Seq<Seq<Seq<u64>>>, n: int)
    requires
        forall|k: int, j: int| 0 <= k < ctxs.len() && 0 <= j < ctxs[k].1.patterns@.len()
            ==> (#[trigger] ctxs[k].1.patterns@[j]).p == SCALE,
        0 <= n <= ds1.len(),
        n <= ds2.len(),
        forall|k: int| 0 <= k < n ==> valid_draws(#[trigger] ds1[k]),
        forall|k: int| 0 <= k < n ==> valid_draws(#[trigger] ds2[k]),
    ensures
        passes(s, ctxs, ds1, n) == passes(s, ctxs, ds2, n),
    decreases n,
{
    if n > 0 {
        lemma_passes_certain_rules(s, ctxs, ds1, ds2, n - 1);
        match passes(s, ctxs, ds1, n - 1) {
            Err(_) => {},
            Ok(t) => {
                assert(valid_draws(ds1[n - 1]));
                assert(valid_draws(ds2[n - 1]));
                lemma_pass_certain_rules(t, ctxs, ds1[n - 1], ds2[n - 1]);
            },
        }
    }
}

/// The table list padded with empty tables up to length `n`.
pub open spec fn extend(ds: Seq<Seq<Seq<u64>>>, n: int) -> Seq<Seq<Seq<u64>>> {
    Seq::new(if n > ds.len() { n as nat } else { ds.len() }, |k: int| if k < ds.len() { ds[k] } else { Seq::empty() })
}

proof fn lemma_passes_prefix(s: Seq<SymbolModel>, ctxs: Seq<(String, IterCtx)>, a: Seq<Seq<Seq<u64>>>, b: Seq<Seq<Seq<u64>>>, m: int)
    requires
        0 <= m <= a.len(),
        m <= b.len(),
        forall|k: int| 0 <= k < m ==> a[k] == b[k],
    ensures
        passes(s, ctxs, a, m) == passes(s, ctxs, b, m),
    decreases m,
{
    if m > 0 {
        lemma_passes_prefix(s, ctxs, a, b, m - 1);
    }
}

proof fn lemma_passes_err_stays(s: Seq<SymbolModel>, ctxs: Seq<(String, IterCtx)>, ds: Seq<Seq<Seq<u64>>>, m: int, n: int)
    requires
        0 <= m <= n,
        passes(s, ctxs, ds, m) is Err,
    ensures
        passes(s, ctxs, ds, n) == passes(s, ctxs, ds, m),
    decreases n - m,
{
    if n > m {
        lemma_passes_err_stays(s, ctxs, ds, m, n - 1);
    }
}

proof fn lemma_passes_extend(s: Seq<SymbolModel>, ctxs: Seq<(String, IterCtx)>, ds: Seq<Seq<Seq<u64>>>, n: int, m: int)
    requires
        0 <= m <= ds.len(),
        m <= n,
        passes(s, ctxs, ds, m) is Err,
    ensures
        passes(s, ctxs, extend(ds, n), n) == passes(s, ctxs, ds, m),
        extend(ds, n).len() >= n,
{
    lemma_passes_prefix(s, ctxs, ds, extend(ds, n), m);
    lemma_passes_err_stays(s, ctxs, extend(ds, n), m, n);
}

} // verus!
