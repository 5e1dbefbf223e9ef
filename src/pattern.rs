use vstd::prelude::*;
use crate::bool_exp::BoolExp;
use crate::iter_ctx::LightCtx;
use crate::names::names_view;
use crate::num::SCALE;
use crate::symbol::{Symbol, SymbolModel, alike, is_glyph, values_of, symbol_vars};
use crate::symbolstring::{SymbolString, string_vars, string_bound, with_rule_set, replaced};
use core::cmp::Ordering;
use crate::text::{chars_of, chars_of_string, contains_char};

verus! {

/// Bracket depth after passing symbol `c` from depth `lvl`: `[` opens a branch, `]` closes one.
pub open spec fn depth_after(c: SymbolModel, lvl: int) -> int {
    if is_glyph(c, '[') {
        lvl + 1
    } else if is_glyph(c, ']') {
        lvl - 1
    } else {
        lvl
    }
}

/// Context scanning passes over ignored glyphs and over symbols of another rule set.
pub open spec fn passed_over(c: SymbolModel, cur: SymbolModel, ign: Seq<char>) -> bool {
    ign.contains(c.glyph) || c.rule_set != cur.rule_set
}

/// Forward scan for a right context. `i` is the next subject position, `k`
/// the next context symbol, `lvl` the bracket depth of the subject and
/// `pat_lvl` the depth at which the context symbol is expected. Gives the
/// captured parameter values on success.
pub open spec fn rscan(
    s: Seq<SymbolModel>,
    ctx: Seq<SymbolModel>,
    ign: Seq<char>,
    i: int,
    k: int,
    lvl: int,
    pat_lvl: int,
) -> Option<Seq<i64>>
    decreases s.len() - i,
{
    if i < 0 || i >= s.len() || k < 0 || k >= ctx.len() {
        None
    } else {
        let c = s[i];
        let cur = ctx[k];
        let l = depth_after(c, lvl);
        if passed_over(c, cur, ign) {
            rscan(s, ctx, ign, i + 1, k, l, pat_lvl)
        } else if alike(c, cur) && l >= 0 && l == pat_lvl {
            if k == ctx.len() - 1 {
                Some(values_of(c))
            } else {
                match rscan(s, ctx, ign, i + 1, k + 1, l, depth_after(ctx[k + 1], pat_lvl)) {
                    Some(v) => Some(values_of(c) + v),
                    None => None,
                }
            }
        } else if l >= 0 && (is_glyph(c, '[') || is_glyph(c, ']') || l > pat_lvl) {
            rscan(s, ctx, ign, i + 1, k, l, pat_lvl)
        } else {
            None
        }
    }
}

/// Whether `ctx` is found to the right of position `from` (that position
/// included), and the parameter values captured in order.
pub open spec fn right_context(s: Seq<SymbolModel>, from: int, ctx: Seq<SymbolModel>, ign: Seq<char>) -> Option<Seq<i64>> {
    if ctx.len() == 0 {
        Some(Seq::empty())
    } else {
        rscan(s, ctx, ign, from, 0, 0, if is_glyph(ctx[0], '[') { 1 } else { 0 })
    }
}

/// Backward scan for a left context. `s[i - 1]` is the next subject symbol,
/// `ctx[k - 1]` the next context symbol; only symbols at a depth no deeper
/// than the shallowest one reached are compared, so that branches closed
/// before the predecessor are passed over.
pub open spec fn lscan(
    s: Seq<SymbolModel>,
    ctx: Seq<SymbolModel>,
    ign: Seq<char>,
    i: int,
    k: int,
    lvl: int,
    min_lvl: int,
) -> Option<Seq<i64>>
    decreases i,
{
    if i <= 0 || i > s.len() || k <= 0 || k > ctx.len() {
        None
    } else {
        let c = s[i - 1];
        let cur = ctx[k - 1];
        if is_glyph(c, '[') {
            let l = lvl - 1;
            lscan(s, ctx, ign, i - 1, k, l, if l < min_lvl { l } else { min_lvl })
        } else if is_glyph(c, ']') {
            lscan(s, ctx, ign, i - 1, k, lvl + 1, min_lvl)
        } else if lvl <= min_lvl && !passed_over(c, cur, ign) {
            if alike(c, cur) {
                if k == 1 {
                    Some(values_of(c))
                } else {
                    match lscan(s, ctx, ign, i - 1, k - 1, lvl, min_lvl) {
                        Some(v) => Some(v + values_of(c)),
                        None => None,
                    }
                }
            } else {
                None
            }
        } else {
            lscan(s, ctx, ign, i - 1, k, lvl, min_lvl)
        }
    }
}

/// Whether `ctx` is found to the left of position `to` (that position
/// excluded), and the parameter values captured in order.
pub open spec fn left_context(s: Seq<SymbolModel>, to: int, ctx: Seq<SymbolModel>, ign: Seq<char>) -> Option<Seq<i64>> {
    if ctx.len() == 0 {
        Some(Seq::empty())
    } else {
        lscan(s, ctx, ign, to, ctx.len() as int, 0, 0)
    }
}

pub open spec fn symbols_view(v: Seq<Symbol>) -> Seq<SymbolModel> {
    v.map_values(|s: Symbol| s@)
}

pub open spec fn prepend_values(v: Seq<i64>, r: Option<Seq<i64>>) -> Option<Seq<i64>> {
    match r {
        Some(w) => Some(v + w),
        None => None,
    }
}

pub open spec fn append_values(r: Option<Seq<i64>>, v: Seq<i64>) -> Option<Seq<i64>> {
    match r {
        Some(w) => Some(w + v),
        None => None,
    }
}

pub open spec fn values_result(r: Option<Vec<i64>>) -> Option<Seq<i64>> {
    match r {
        Some(v) => Some(v@),
        None => None,
    }
}

fn glyph_depth(c: &Symbol, lvl: i128) -> (r: i128)
    requires
        i128::MIN < lvl < i128::MAX,
    ensures
        r == depth_after(c@, lvl as int),
{
    if c.is_glyph('[') {
        lvl + 1
    } else if c.is_glyph(']') {
        lvl - 1
    } else {
        lvl
    }
}

fn is_passed_over(c: &Symbol, cur: &Symbol, ign: &Vec<char>) -> (r: bool)
    ensures
        r == passed_over(c@, cur@, ign@),
{
    contains_char(ign, c.sym) || c.rule_set != cur.rule_set
}

/// Scans `s` forward from position `from` for the right context `ctx`.
pub fn scan_right(s: &Vec<Symbol>, from: usize, ctx: &Vec<Symbol>, ign: &Vec<char>) -> (r: Option<Vec<i64>>)
    requires
        from <= s@.len(),
    ensures
        values_result(r) == right_context(symbols_view(s@), from as int, symbols_view(ctx@), ign@),
{
    let ghost sv = symbols_view(s@);
    let ghost cv = symbols_view(ctx@);
    if ctx.len() == 0 {
        let r: Vec<i64> = Vec::new();
        assert(r@ =~= Seq::<i64>::empty());
        return Some(r);
    }
    let mut values: Vec<i64> = Vec::new();
    let mut k: usize = 0;
    let mut lvl: i128 = 0;
    let mut pat_lvl: i128 = if ctx[0].is_glyph('[') { 1 } else { 0 };
    let mut i: usize = from;
    assert(values@ + Seq::<i64>::empty() =~= values@);
    while i < s.len()
        invariant
            from <= i <= s@.len(),
            k < ctx@.len(),
            sv == symbols_view(s@),
            cv == symbols_view(ctx@),
            -(i as int) <= lvl <= i as int,
            -(k as int) - 1 <= pat_lvl <= k as int + 1,
            right_context(sv, from as int, cv, ign@)
                == prepend_values(values@, rscan(sv, cv, ign@, i as int, k as int, lvl as int, pat_lvl as int)),
        decreases s.len() - i,
    {
        let c = &s[i];
        let cur = &ctx[k];
        assert(sv[i as int] == c@ && cv[k as int] == cur@);
        let l = glyph_depth(c, lvl);
        if is_passed_over(c, cur, ign) {
            lvl = l;
        } else if c.alike(cur) && l >= 0 && l == pat_lvl {
            let ghost before = values@;
            let mut vs = c.get_vec();
            values.append(&mut vs);
            if k == ctx.len() - 1 {
                return Some(values);
            }
            k += 1;
            pat_lvl = glyph_depth(&ctx[k], pat_lvl);
            assert(cv[k as int] == ctx@[k as int]@);
            lvl = l;
            proof {
                let rest = rscan(sv, cv, ign@, i + 1, k as int, lvl as int, pat_lvl as int);
                assert(prepend_values(before, prepend_values(values_of(c@), rest)) == prepend_values(values@, rest)) by {
                    if rest is Some {
                        assert(before + (values_of(c@) + rest->Some_0) =~= values@ + rest->Some_0);
                    }
                }
            }
        } else if l >= 0 && (c.is_glyph('[') || c.is_glyph(']') || l > pat_lvl) {
            lvl = l;
        } else {
            return None;
        }
        i += 1;
    }
    None
}

/// Scans `s` backward from position `to` for the left context `ctx`.
pub fn scan_left(s: &Vec<Symbol>, to: usize, ctx: &Vec<Symbol>, ign: &Vec<char>) -> (r: Option<Vec<i64>>)
    requires
        to <= s@.len(),
    ensures
        values_result(r) == left_context(symbols_view(s@), to as int, symbols_view(ctx@), ign@),
{
    let ghost sv = symbols_view(s@);
    let ghost cv = symbols_view(ctx@);
    if ctx.len() == 0 {
        let r: Vec<i64> = Vec::new();
        assert(r@ =~= Seq::<i64>::empty());
        return Some(r);
    }
    let mut values: Vec<i64> = Vec::new();
    let mut k: usize = ctx.len();
    let mut lvl: i128 = 0;
    let mut min_lvl: i128 = 0;
    let mut i: usize = to;
    assert(Seq::<i64>::empty() + values@ =~= values@);
    while i > 0
        invariant
            i <= to <= s@.len(),
            0 < k <= ctx@.len(),
            sv == symbols_view(s@),
            cv == symbols_view(ctx@),
            -((to - i) as int) <= min_lvl <= lvl <= (to - i) as int,
            min_lvl <= 0,
            left_context(sv, to as int, cv, ign@)
                == append_values(lscan(sv, cv, ign@, i as int, k as int, lvl as int, min_lvl as int), values@),
        decreases i,
    {
        let c = &s[i - 1];
        let cur = &ctx[k - 1];
        assert(sv[i - 1] == c@ && cv[k - 1] == cur@);
        if c.is_glyph('[') {
            lvl = lvl - 1;
            if lvl < min_lvl {
                min_lvl = lvl;
            }
        } else if c.is_glyph(']') {
            lvl = lvl + 1;
        } else if lvl <= min_lvl && !is_passed_over(c, cur, ign) {
            if c.alike(cur) {
                let ghost before = values@;
                let mut vs = c.get_vec();
                vs.append(&mut values);
                values = vs;
                if k == 1 {
                    return Some(values);
                }
                k -= 1;
                proof {
                    let rest = lscan(sv, cv, ign@, i - 1, k as int, lvl as int, min_lvl as int);
                    assert(append_values(append_values(rest, values_of(c@)), before) == append_values(rest, values@)) by {
                        if rest is Some {
                            assert((rest->Some_0 + values_of(c@)) + before =~= rest->Some_0 + values@);
                        }
                    }
                }
            } else {
                return None;
            }
        }
        i -= 1;
    }
    None
}


/// A name-to-value table; a later entry hides an earlier one of the same name.
pub open spec fn table_view(v: Seq<(String, i64)>) -> Seq<(Seq<char>, i64)> {
    v.map_values(|e: (String, i64)| (e.0@, e.1))
}

pub open spec fn lookup(b: Seq<(Seq<char>, i64)>, name: Seq<char>) -> Option<i64>
    decreases b.len(),
{
    if b.len() == 0 {
        None
    } else if b.last().0 == name {
        Some(b.last().1)
    } else {
        lookup(b.drop_last(), name)
    }
}

/// Value of a variable: from the bindings of the match, else from the constants.
pub open spec fn resolve(b: Seq<(Seq<char>, i64)>, defs: Seq<(Seq<char>, i64)>, name: Seq<char>) -> Option<i64> {
    match lookup(b, name) {
        Some(v) => Some(v),
        None => lookup(defs, name),
    }
}

/// Names paired with values by position, as far as both go.
pub open spec fn zip_names(names: Seq<Seq<char>>, vals: Seq<i64>) -> Seq<(Seq<char>, i64)> {
    Seq::new(
        if names.len() < vals.len() { names.len() } else { vals.len() },
        |k: int| (names[k], vals[k]),
    )
}

/// The condition with the names set, one after the other, to their
/// resolved values; the first name that resolves to nothing is the error.
pub open spec fn bind_cond(e: BoolExp, names: Seq<Seq<char>>, b: Seq<(Seq<char>, i64)>, defs: Seq<(Seq<char>, i64)>) -> Result<BoolExp, Seq<char>>
    decreases names.len(),
{
    if names.len() == 0 {
        Ok(e)
    } else {
        match bind_cond(e, names.drop_last(), b, defs) {
            Err(n) => Err(n),
            Ok(e2) => match resolve(b, defs, names.last()) {
                Some(v) => Ok(e2.bound(names.last(), v)),
                None => Err(names.last()),
            },
        }
    }
}

/// The symbol string with the names set, one after the other, to their
/// resolved values; the first name that resolves to nothing is the error.
pub open spec fn bind_string(ms: Seq<SymbolModel>, names: Seq<Seq<char>>, b: Seq<(Seq<char>, i64)>, defs: Seq<(Seq<char>, i64)>) -> Result<Seq<SymbolModel>, Seq<char>>
    decreases names.len(),
{
    if names.len() == 0 {
        Ok(ms)
    } else {
        match bind_string(ms, names.drop_last(), b, defs) {
            Err(n) => Err(n),
            Ok(m2) => match resolve(b, defs, names.last()) {
                Some(v) => Ok(string_bound(m2, names.last(), v)),
                None => Err(names.last()),
            },
        }
    }
}

/// The stochastic gate: a draw in `0..SCALE` passes a rule of probability
/// `p` (in millionths) when it falls below `p`.
pub open spec fn gate(p: int, draw: int) -> bool {
    draw < p
}

pub open spec fn opt_vars(c: Option<SymbolString>) -> Seq<Seq<char>> {
    match c {
        Some(c) => string_vars(c@),
        None => Seq::empty(),
    }
}

pub open spec fn outcome_view(r: Result<Option<SymbolString>, String>) -> Result<Option<Seq<SymbolModel>>, Seq<char>> {
    match r {
        Ok(Some(x)) => Ok(Some(x@)),
        Ok(None) => Ok(None),
        Err(n) => Err(n@),
    }
}

/// A production: predecessor, replacement, probability in millionths,
/// optional left and right contexts, optional condition.
pub struct Pattern {
    pub pattern: Symbol,
    pub replacement: SymbolString,
    pub p: i64,
    pub left: Option<SymbolString>,
    pub right: Option<SymbolString>,
    pub cond: Option<Box<BoolExp>>,
}

impl Pattern {
    /// A production is well formed when its probability lies in `[0, 1]`.
    pub open spec fn wf(&self) -> bool {
        0 <= self.p <= SCALE
    }

    /// Values captured by a structural match at position `i`: left context,
    /// right context and predecessor; none when the rule does not fit there.
    pub open spec fn structural(&self, s: Seq<SymbolModel>, i: int, ign: Seq<char>) -> Option<(Seq<i64>, Seq<i64>, Seq<i64>)> {
        if !(0 <= i < s.len()) || !alike(s[i], self.pattern@) {
            None
        } else {
            let l = match self.left {
                Some(c) => left_context(s, i, c@, ign),
                None => Some(Seq::empty()),
            };
            let r = match self.right {
                Some(c) => right_context(s, i + 1, c@, ign),
                None => Some(Seq::empty()),
            };
            match (l, r) {
                (Some(lv), Some(rv)) => Some((lv, rv, values_of(s[i]))),
                _ => None,
            }
        }
    }

    /// Binding table of a match: left-context names, then right-context
    /// names, then predecessor names, each paired with the captured values.
    pub open spec fn bindings(&self, lv: Seq<i64>, rv: Seq<i64>, pv: Seq<i64>) -> Seq<(Seq<char>, i64)> {
        zip_names(opt_vars(self.left), lv) + zip_names(opt_vars(self.right), rv)
            + zip_names(symbol_vars(self.pattern@), pv)
    }

    /// The bound replacement, or nothing when the rule does not apply at
    /// `i`, or the name of a variable that could not be resolved.
    pub open spec fn outcome(&self, s: Seq<SymbolModel>, i: int, ign: Seq<char>, defs: Seq<(Seq<char>, i64)>, draw: int) -> Result<Option<Seq<SymbolModel>>, Seq<char>> {
        if !gate(self.p as int, draw) {
            Ok(None)
        } else {
            match self.structural(s, i, ign) {
                None => Ok(None),
                Some((lv, rv, pv)) => {
                    let b = self.bindings(lv, rv, pv);
                    let cond_ok: Result<bool, Seq<char>> = match self.cond {
                        None => Ok(true),
                        Some(c) => match bind_cond(*c, c.free_vars(), b, defs) {
                            Err(n) => Err(n),
                            Ok(e) => Ok(e.holds()),
                        },
                    };
                    match cond_ok {
                        Err(n) => Err(n),
                        Ok(false) => Ok(None),
                        Ok(true) => match bind_string(self.replacement@, string_vars(self.replacement@), b, defs) {
                            Err(n) => Err(n),
                            Ok(r) => Ok(Some(r)),
                        },
                    }
                },
            }
        }
    }

    /// A production; fails when the probability is outside `[0, 1]`.
    pub fn new(pat: Symbol, r: SymbolString, p: i64, left: Option<SymbolString>, right: Option<SymbolString>, cond: Option<Box<BoolExp>>) -> (res: Option<Pattern>)
        ensures
            res is Some <==> 0 <= p <= SCALE,
            res is Some ==> res->Some_0 == (Pattern { pattern: pat, replacement: r, p, left, right, cond }),
            res is Some ==> res->Some_0.wf(),
    {
        if p < 0 || p > SCALE {
            None
        } else {
            Some(Pattern { pattern: pat, replacement: r, p, left, right, cond })
        }
    }

    /// Right-context scan of the whole of `s`, as from just after a predecessor.
    pub fn rctx(s: &SymbolString, ctx: &SymbolString, ignore: &str) -> (r: (bool, Vec<i64>))
        ensures
            r.0 == right_context(s@, 0, ctx@, ignore@) is Some,
            r.0 ==> r.1@ == right_context(s@, 0, ctx@, ignore@)->Some_0,
            !r.0 ==> r.1@.len() == 0,
    {
        let ign = chars_of(ignore);
        match scan_right(&s.symbols, 0, &ctx.symbols, &ign) {
            Some(v) => (true, v),
            None => (false, Vec::new()),
        }
    }

    /// Left-context scan of the whole of `s`, as from just before a predecessor.
    pub fn lctx(s: &SymbolString, ctx: &SymbolString, ignore: &str) -> (r: (bool, Vec<i64>))
        ensures
            r.0 == left_context(s@, s@.len() as int, ctx@, ignore@) is Some,
            r.0 ==> r.1@ == left_context(s@, s@.len() as int, ctx@, ignore@)->Some_0,
            !r.0 ==> r.1@.len() == 0,
    {
        let ign = chars_of(ignore);
        match scan_left(&s.symbols, s.symbols.len(), &ctx.symbols, &ign) {
            Some(v) => (true, v),
            None => (false, Vec::new()),
        }
    }

    /// Tries the rule at position `i` of `s` with the draw `draw` for its
    /// stochastic gate. Gives the bound copy of the replacement when the
    /// rule applies, nothing when it does not, and the name of a variable
    /// that neither the match nor the constants define as the error.
    pub fn test(&self, i: usize, s: &SymbolString, ctx: &LightCtx, draw: u64) -> (r: Result<Option<SymbolString>, String>)
        requires
            i < s@.len(),
        ensures
            outcome_view(r) == self.outcome(s@, i as int, ctx.ignored@, table_view(ctx.define@), draw as int),
    {
        let ign = chars_of_string(&ctx.ignored);
        self.apply_at(i, s, &ign, &ctx.define, draw)
    }

    pub fn apply_at(&self, i: usize, s: &SymbolString, ign: &Vec<char>, defs: &Vec<(String, i64)>, draw: u64) -> (r: Result<Option<SymbolString>, String>)
        requires
            i < s@.len(),
        ensures
            outcome_view(r) == self.outcome(s@, i as int, ign@, table_view(defs@), draw as int),
    {
        if !((draw as i128) < (self.p as i128)) {
            return Ok(None);
        }
        let n = s.symbols.len();
        assert(i < n);
        let sym = &s.symbols[i];
        if !sym.alike(&self.pattern) {
            return Ok(None);
        }
        let lv = match &self.left {
            Some(c) => match scan_left(&s.symbols, i, &c.symbols, ign) {
                Some(v) => v,
                None => return Ok(None),
            },
            None => Vec::new(),
        };
        let rv = match &self.right {
            Some(c) => match scan_right(&s.symbols, i + 1, &c.symbols, ign) {
                Some(v) => v,
                None => return Ok(None),
            },
            None => Vec::new(),
        };
        let pv = sym.get_vec();
        let mut table: Vec<(String, i64)> = Vec::new();
        let lnames = match &self.left {
            Some(c) => c.vars(),
            None => Vec::new(),
        };
        let rnames = match &self.right {
            Some(c) => c.vars(),
            None => Vec::new(),
        };
        let pnames = self.pattern.free_var_names();
        proof {
            assert(names_view(lnames@) == opt_vars(self.left)) by {
                if self.left is None {
                    assert(names_view(lnames@) =~= Seq::<Seq<char>>::empty());
                }
            }
            assert(names_view(rnames@) == opt_vars(self.right)) by {
                if self.right is None {
                    assert(names_view(rnames@) =~= Seq::<Seq<char>>::empty());
                }
            }
            assert(lv@ == self.structural(s@, i as int, ign@)->Some_0.0) by {
                if self.left is None {
                    assert(lv@ =~= Seq::<i64>::empty());
                }
            }
            assert(rv@ == self.structural(s@, i as int, ign@)->Some_0.1) by {
                if self.right is None {
                    assert(rv@ =~= Seq::<i64>::empty());
                }
            }
            assert(s@[i as int] == sym@);
        }
        push_pairs(&mut table, &lnames, &lv);
        push_pairs(&mut table, &rnames, &rv);
        push_pairs(&mut table, &pnames, &pv);
        let ghost b = self.bindings(lv@, rv@, pv@);
        assert(table_view(table@) =~= b);
        match &self.cond {
            None => {},
            Some(c) => {
                let names = c.vars();
                match bind_cond_exec(c, &names, &table, defs) {
                    Err(n) => return Err(n),
                    Ok(e) => {
                        if !e.eval() {
                            return Ok(None);
                        }
                    },
                }
            },
        }
        let names = self.replacement.vars();
        match bind_string_exec(&self.replacement, &names, &table, defs) {
            Err(n) => Err(n),
            Ok(r) => Ok(Some(r)),
        }
    }
}

/// How constrained a production is: 0 with both contexts, 1 with one, 2 with none.
pub open spec fn context_rank(p: Pattern) -> int {
    if p.left is Some && p.right is Some {
        0
    } else if p.left is Some || p.right is Some {
        1
    } else {
        2
    }
}

pub open spec fn opt_rule_set(c: Option<SymbolString>, rs: Seq<char>) -> Option<Seq<SymbolModel>> {
    match c {
        Some(c) => Some(with_rule_set(c@, rs)),
        None => None,
    }
}

pub open spec fn opt_view(c: Option<SymbolString>) -> Option<Seq<SymbolModel>> {
    match c {
        Some(c) => Some(c@),
        None => None,
    }
}

pub open spec fn opt_replaced(c: Option<SymbolString>, alias: Seq<char>, value: Seq<SymbolModel>) -> Option<Seq<SymbolModel>> {
    match c {
        Some(c) => Some(replaced(c@, alias, value)),
        None => None,
    }
}

impl Pattern {
    /// Puts the predecessor, the replacement and the contexts in rule set `rule_set`.
    pub fn rule_set(&mut self, rule_set: &String)
        ensures
            final(self).pattern@ == (SymbolModel { rule_set: rule_set@, ..old(self).pattern@ }),
            final(self).replacement@ == with_rule_set(old(self).replacement@, rule_set@),
            opt_view(final(self).left) == opt_rule_set(old(self).left, rule_set@),
            opt_view(final(self).right) == opt_rule_set(old(self).right, rule_set@),
            final(self).p == old(self).p,
            final(self).cond == old(self).cond,
    {
        self.pattern.rule_set = rule_set.clone();
        self.replacement.rule_set(rule_set);
        match &mut self.left {
            Some(l) => l.rule_set(rule_set),
            None => {},
        }
        match &mut self.right {
            Some(r) => r.rule_set(rule_set),
            None => {},
        }
    }

    /// Splices `value` for the alias `alias` in the replacement and the
    /// contexts; the predecessor stays.
    pub fn replace(&mut self, alias: &String, value: &SymbolString)
        ensures
            final(self).pattern == old(self).pattern,
            final(self).replacement@ == replaced(old(self).replacement@, alias@, value@),
            opt_view(final(self).left) == opt_replaced(old(self).left, alias@, value@),
            opt_view(final(self).right) == opt_replaced(old(self).right, alias@, value@),
            final(self).p == old(self).p,
            final(self).cond == old(self).cond,
    {
        self.replacement.replace(alias, value);
        match &mut self.left {
            Some(l) => l.replace(alias, value),
            None => {},
        }
        match &mut self.right {
            Some(r) => r.replace(alias, value),
            None => {},
        }
    }

    pub fn rank(&self) -> (r: u8)
        ensures
            r as int == context_rank(*self),
    {
        if self.left.is_some() && self.right.is_some() {
            0
        } else if self.left.is_some() || self.right.is_some() {
            1
        } else {
            2
        }
    }

    /// Orders productions from the most constrained by context to the context-free.
    pub fn cmp_pat(&self, pat: &Pattern) -> (r: Ordering)
        ensures
            r == (if context_rank(*self) < context_rank(*pat) {
                Ordering::Less
            } else if context_rank(*self) > context_rank(*pat) {
                Ordering::Greater
            } else {
                Ordering::Equal
            }),
    {
        let a = self.rank();
        let b = pat.rank();
        if a < b {
            Ordering::Less
        } else if a > b {
            Ordering::Greater
        } else {
            Ordering::Equal
        }
    }
}

/// Appends the names paired with the values by position, as far as both go.
fn push_pairs(table: &mut Vec<(String, i64)>, names: &Vec<String>, vals: &Vec<i64>)
    ensures
        table_view(final(table)@) == table_view(old(table)@) + zip_names(names_view(names@), vals@),
{
    let n = if names.len() < vals.len() { names.len() } else { vals.len() };
    let mut k: usize = 0;
    while k < n
        invariant
            k <= n,
            n == (if names@.len() < vals@.len() { names@.len() } else { vals@.len() }),
            table_view(table@) == table_view(old(table)@) + zip_names(names_view(names@), vals@).take(k as int),
        decreases n - k,
    {
        let ghost before = table@;
        table.push((names[k].clone(), vals[k]));
        k += 1;
        assert(table_view(table@) =~= table_view(old(table)@) + zip_names(names_view(names@), vals@).take(k as int)) by {
            assert(table_view(table@) =~= table_view(before).push((names@[k - 1]@, vals@[k - 1])));
        }
    }
    assert(zip_names(names_view(names@), vals@).take(n as int) =~= zip_names(names_view(names@), vals@));
}

pub fn lookup_exec(b: &Vec<(String, i64)>, name: &String) -> (r: Option<i64>)
    ensures
        r == lookup(table_view(b@), name@),
{
    let mut i: usize = b.len();
    assert(table_view(b@).take(i as int) =~= table_view(b@));
    while i > 0
        invariant
            i <= b@.len(),
            lookup(table_view(b@), name@) == lookup(table_view(b@).take(i as int), name@),
        decreases i,
    {
        let ghost t = table_view(b@).take(i as int);
        assert(t.drop_last() =~= table_view(b@).take(i - 1));
        assert(t.last() == (b@[i - 1].0@, b@[i - 1].1));
        if b[i - 1].0 == *name {
            return Some(b[i - 1].1);
        }
        i -= 1;
    }
    None
}

pub fn resolve_exec(b: &Vec<(String, i64)>, defs: &Vec<(String, i64)>, name: &String) -> (r: Option<i64>)
    ensures
        r == resolve(table_view(b@), table_view(defs@), name@),
{
    match lookup_exec(b, name) {
        Some(v) => Some(v),
        None => lookup_exec(defs, name),
    }
}

fn bind_cond_exec(e: &BoolExp, names: &Vec<String>, b: &Vec<(String, i64)>, defs: &Vec<(String, i64)>) -> (r: Result<BoolExp, String>)
    ensures
        match r {
            Ok(x) => bind_cond(*e, names_view(names@), table_view(b@), table_view(defs@)) == Ok::<BoolExp, Seq<char>>(x),
            Err(n) => bind_cond(*e, names_view(names@), table_view(b@), table_view(defs@)) == Err::<BoolExp, Seq<char>>(n@),
        },
{
    let mut cur = e.copy();
    let mut k: usize = 0;
    while k < names.len()
        invariant
            k <= names@.len(),
            bind_cond(*e, names_view(names@).take(k as int), table_view(b@), table_view(defs@)) == Ok::<BoolExp, Seq<char>>(cur),
        decreases names.len() - k,
    {
        assert(names_view(names@).take(k + 1).drop_last() =~= names_view(names@).take(k as int));
        match resolve_exec(b, defs, &names[k]) {
            None => {
                proof {
                    lemma_bind_cond_err(*e, names_view(names@), k as int, table_view(b@), table_view(defs@));
                }
                return Err(names[k].clone());
            },
            Some(v) => {
                let _ = cur.set(&names[k], v);
            },
        }
        k += 1;
    }
    assert(names_view(names@).take(k as int) =~= names_view(names@));
    Ok(cur)
}

fn bind_string_exec(ms: &SymbolString, names: &Vec<String>, b: &Vec<(String, i64)>, defs: &Vec<(String, i64)>) -> (r: Result<SymbolString, String>)
    ensures
        match r {
            Ok(x) => bind_string(ms@, names_view(names@), table_view(b@), table_view(defs@)) == Ok::<Seq<SymbolModel>, Seq<char>>(x@),
            Err(n) => bind_string(ms@, names_view(names@), table_view(b@), table_view(defs@)) == Err::<Seq<SymbolModel>, Seq<char>>(n@),
        },
{
    let mut cur = ms.copy();
    let mut k: usize = 0;
    while k < names.len()
        invariant
            k <= names@.len(),
            bind_string(ms@, names_view(names@).take(k as int), table_view(b@), table_view(defs@)) == Ok::<Seq<SymbolModel>, Seq<char>>(cur@),
        decreases names.len() - k,
    {
        assert(names_view(names@).take(k + 1).drop_last() =~= names_view(names@).take(k as int));
        match resolve_exec(b, defs, &names[k]) {
            None => {
                proof {
                    lemma_bind_string_err(ms@, names_view(names@), k as int, table_view(b@), table_view(defs@));
                }
                return Err(names[k].clone());
            },
            Some(v) => {
                let _ = cur.set(&names[k], v);
            },
        }
        k += 1;
    }
    assert(names_view(names@).take(k as int) =~= names_view(names@));
    Ok(cur)
}

/// Once a name fails to resolve, binding the rest of the list fails with it.
proof fn lemma_bind_cond_err(e: BoolExp, names: Seq<Seq<char>>, k: int, b: Seq<(Seq<char>, i64)>, defs: Seq<(Seq<char>, i64)>)
    requires
        0 <= k < names.len(),
        bind_cond(e, names.take(k), b, defs) is Ok,
        resolve(b, defs, names[k]) is None,
    ensures
        bind_cond(e, names, b, defs) == Err::<BoolExp, Seq<char>>(names[k]),
    decreases names.len(),
{
    if k == names.len() - 1 {
        assert(names.drop_last() =~= names.take(k));
    } else {
        assert(names.drop_last().take(k) =~= names.take(k));
        lemma_bind_cond_err(e, names.drop_last(), k, b, defs);
    }
}

proof fn lemma_bind_string_err(ms: Seq<SymbolModel>, names: Seq<Seq<char>>, k: int, b: Seq<(Seq<char>, i64)>, defs: Seq<(Seq<char>, i64)>)
    requires
        0 <= k < names.len(),
        bind_string(ms, names.take(k), b, defs) is Ok,
        resolve(b, defs, names[k]) is None,
    ensures
        bind_string(ms, names, b, defs) == Err::<Seq<SymbolModel>, Seq<char>>(names[k]),
    decreases names.len(),
{
    if k == names.len() - 1 {
        assert(names.drop_last() =~= names.take(k));
    } else {
        assert(names.drop_last().take(k) =~= names.take(k));
        lemma_bind_string_err(ms, names.drop_last(), k, b, defs);
    }
}

} // verus!
